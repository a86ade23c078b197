//! Line-structured text: splitting a text into raw lines (each keeping its
//! trailing line break), trimming, and leading-indentation capture, together
//! with the lemmas that relate those operations under concatenation.

use vstd::prelude::*;
use vstd::seq_lib::lemma_flatten_concat;

verus! {

/// The Unicode `White_Space` code points, by scalar value.
pub open spec fn is_ws_code(u: u32) -> bool {
    u == 0x9 || u == 0xA || u == 0xB || u == 0xC || u == 0xD || u == 0x20 || u == 0x85
        || u == 0xA0 || u == 0x1680 || (0x2000 <= u && u <= 0x200A) || u == 0x2028 || u == 0x2029
        || u == 0x202F || u == 0x205F || u == 0x3000
}

pub open spec fn is_ws(c: char) -> bool {
    is_ws_code(c as u32)
}

pub fn char_is_ws(c: char) -> (b: bool)
    ensures
        b == is_ws(c),
{
    let u: u32 = c as u32;
    u == 0x9 || u == 0xA || u == 0xB || u == 0xC || u == 0xD || u == 0x20 || u == 0x85
        || u == 0xA0 || u == 0x1680 || (0x2000 <= u && u <= 0x200A) || u == 0x2028 || u == 0x2029
        || u == 0x202F || u == 0x205F || u == 0x3000
}

/// The characters that count towards a captured indentation run.
pub open spec fn is_indent_char(c: char) -> bool {
    c == ' ' || c == '\t'
}

pub fn char_is_indent(c: char) -> (b: bool)
    ensures
        b == is_indent_char(c),
{
    c == ' ' || c == '\t'
}

/// Index of the first line break in `s`, or `s.len()` if there is none.
pub open spec fn first_nl(s: Seq<char>) -> nat
    decreases s.len(),
{
    if s.len() == 0 {
        0
    } else if s[0] == '\n' {
        0
    } else {
        first_nl(s.skip(1)) + 1
    }
}

pub proof fn lemma_first_nl(s: Seq<char>)
    ensures
        first_nl(s) <= s.len(),
        forall|i: int| 0 <= i < first_nl(s) ==> s[i] != '\n',
        first_nl(s) < s.len() ==> s[first_nl(s) as int] == '\n',
    decreases s.len(),
{
    if s.len() == 0 {
    } else if s[0] == '\n' {
    } else {
        lemma_first_nl(s.skip(1));
        assert forall|i: int| 0 <= i < first_nl(s) implies s[i] != '\n' by {
            if i > 0 {
                assert(s.skip(1)[i - 1] == s[i]);
            }
        }
        if first_nl(s) < s.len() {
            assert(s.skip(1)[first_nl(s) - 1] == s[first_nl(s) as int]);
        }
    }
}

pub proof fn lemma_first_nl_at(s: Seq<char>, i: int)
    requires
        0 <= i <= s.len(),
        forall|k: int| 0 <= k < i ==> s[k] != '\n',
        i < s.len() ==> s[i] == '\n',
    ensures
        first_nl(s) == i,
    decreases s.len(),
{
    if s.len() == 0 {
    } else if s[0] == '\n' {
        assert(i == 0);
    } else {
        assert(s[0] != '\n');
        assert(i >= 1);
        assert forall|k: int| 0 <= k < i - 1 implies s.skip(1)[k] != '\n' by {
            assert(s.skip(1)[k] == s[k + 1]);
        }
        if i - 1 < s.skip(1).len() {
            assert(s.skip(1)[i - 1] == s[i]);
        }
        lemma_first_nl_at(s.skip(1), i - 1);
    }
}

/// The raw lines of a text: each line keeps its trailing `'\n'`; a final
/// line break does not open a trailing empty line.
pub open spec fn raw_lines(t: Seq<char>) -> Seq<Seq<char>>
    decreases t.len(),
{
    if t.len() == 0 {
        Seq::empty()
    } else {
        let n: nat = first_nl(t);
        if n >= t.len() {
            seq![t]
        } else {
            seq![t.take((n + 1) as int)] + raw_lines(t.skip((n + 1) as int))
        }
    }
}

/// A line is open when it is non-empty and has no interior line break.
pub open spec fn line_open(l: Seq<char>) -> bool {
    l.len() > 0 && (forall|j: int| 0 <= j < l.len() - 1 ==> l[j] != '\n')
}

/// A line is terminated when it is open and ends with a line break.
pub open spec fn line_term(l: Seq<char>) -> bool {
    line_open(l) && l.last() == '\n'
}

/// A well-formed line decomposition: every line open, every line but the
/// last terminated.
pub open spec fn wf_lines(ls: Seq<Seq<char>>) -> bool {
    (forall|i: int| 0 <= i < ls.len() ==> line_open(#[trigger] ls[i])) && (forall|i: int|
        0 <= i < ls.len() - 1 ==> (#[trigger] ls[i]).last() == '\n')
}

/// A decomposition where even the last line is terminated.
pub open spec fn terminated_lines(ls: Seq<Seq<char>>) -> bool {
    wf_lines(ls) && (forall|i: int| 0 <= i < ls.len() ==> (#[trigger] ls[i]).last() == '\n')
}

pub proof fn lemma_raw_lines_wf(t: Seq<char>)
    ensures
        wf_lines(raw_lines(t)),
        raw_lines(t).flatten() == t,
        raw_lines(t).len() <= t.len(),
        t.len() > 0 ==> raw_lines(t).len() > 0,
        t.len() > 0 && t.last() == '\n' ==> terminated_lines(raw_lines(t)),
        t.len() > 0 && t.last() != '\n' ==> raw_lines(t).last().last() != '\n',
    decreases t.len(),
{
    if t.len() == 0 {
        assert(raw_lines(t).flatten() =~= t);
    } else {
        let n: nat = first_nl(t);
        lemma_first_nl(t);
        if n >= t.len() {
            assert(raw_lines(t) == seq![t]);
            seq![t].lemma_flatten_one_element();
            assert(raw_lines(t).flatten() == t);
            assert(line_open(t));
        } else {
            let head: Seq<char> = t.take((n + 1) as int);
            let rest: Seq<char> = t.skip((n + 1) as int);
            lemma_raw_lines_wf(rest);
            assert(raw_lines(t) == seq![head] + raw_lines(rest));
            lemma_flatten_concat(seq![head], raw_lines(rest));
            seq![head].lemma_flatten_one_element();
            assert(raw_lines(t).flatten() == head + raw_lines(rest).flatten());
            assert(head + rest =~= t);
            assert(line_term(head)) by {
                assert(head.last() == t[n as int]);
                assert forall|j: int| 0 <= j < head.len() - 1 implies head[j] != '\n' by {
                    assert(head[j] == t[j]);
                }
            }
            assert forall|i: int| 0 <= i < raw_lines(t).len() implies line_open(
                #[trigger] raw_lines(t)[i],
            ) by {
                if i > 0 {
                    assert(raw_lines(t)[i] == raw_lines(rest)[i - 1]);
                }
            }
            assert forall|i: int| 0 <= i < raw_lines(t).len() - 1 implies (#[trigger] raw_lines(
                t,
            )[i]).last() == '\n' by {
                if i > 0 {
                    assert(raw_lines(t)[i] == raw_lines(rest)[i - 1]);
                }
            }
            if t.last() == '\n' {
                if rest.len() > 0 {
                    assert(rest.last() == t.last());
                    assert forall|i: int| 0 <= i < raw_lines(t).len() implies (#[trigger] raw_lines(
                        t,
                    )[i]).last() == '\n' by {
                        if i > 0 {
                            assert(raw_lines(t)[i] == raw_lines(rest)[i - 1]);
                        }
                    }
                } else {
                    assert(raw_lines(t) =~= seq![head]);
                }
            }
            if t.last() != '\n' {
                assert(rest.len() > 0);
                assert(rest.last() == t.last());
                assert(raw_lines(t).last() == raw_lines(rest).last());
            }
        }
    }
}

/// Raw-line decomposition distributes over concatenation when the first
/// part is empty or ends with a line break.
pub proof fn lemma_raw_lines_concat(a: Seq<char>, b: Seq<char>)
    requires
        a.len() == 0 || a.last() == '\n',
    ensures
        raw_lines(a + b) == raw_lines(a) + raw_lines(b),
    decreases a.len(),
{
    if a.len() == 0 {
        assert(a + b =~= b);
        assert(raw_lines(a) + raw_lines(b) =~= raw_lines(b));
    } else {
        let n: nat = first_nl(a);
        lemma_first_nl(a);
        assert(n < a.len()) by {
            if n >= a.len() {
                assert(a[a.len() - 1] != '\n');
            }
        }
        lemma_first_nl_at(a + b, n as int);
        if b.len() == 0 {
            assert(a + b =~= a);
            assert(raw_lines(a) + raw_lines(b) =~= raw_lines(a));
        } else {
            let ab: Seq<char> = a + b;
            assert(n < ab.len());
            assert(ab.take((n + 1) as int) =~= a.take((n + 1) as int));
            assert(ab.skip((n + 1) as int) =~= a.skip((n + 1) as int) + b);
            if a.skip((n + 1) as int).len() > 0 {
                assert(a.skip((n + 1) as int).last() == a.last());
            }
            lemma_raw_lines_concat(a.skip((n + 1) as int), b);
            assert(raw_lines(ab) == seq![ab.take((n + 1) as int)] + (raw_lines(a.skip((n + 1) as int)) + raw_lines(
                b,
            )));
            assert(raw_lines(a) == seq![a.take((n + 1) as int)] + raw_lines(a.skip((n + 1) as int)));
            assert(raw_lines(ab) =~= raw_lines(a) + raw_lines(b));
        }
    }
}

/// A well-formed decomposition is recovered exactly from its flattening.
pub proof fn lemma_raw_lines_of_flatten(ls: Seq<Seq<char>>)
    requires
        wf_lines(ls),
    ensures
        raw_lines(ls.flatten()) == ls,
    decreases ls.len(),
{
    if ls.len() == 0 {
        assert(ls.flatten() =~= Seq::<char>::empty());
    } else if ls.len() == 1 {
        ls.lemma_flatten_one_element();
        let l: Seq<char> = ls[0];
        assert(line_open(l));
        if l.last() == '\n' {
            lemma_first_nl_at(l, l.len() - 1);
            assert(first_nl(l) < l.len());
            assert(raw_lines(l) == seq![l.take((first_nl(l) + 1) as int)] + raw_lines(
                l.skip((first_nl(l) + 1) as int),
            ));
            assert(l.take((first_nl(l) + 1) as int) =~= l);
            assert(l.skip((first_nl(l) + 1) as int) =~= Seq::<char>::empty());
            assert(raw_lines(Seq::<char>::empty()) == Seq::<Seq<char>>::empty());
            assert(raw_lines(l) =~= seq![l]);
        } else {
            lemma_first_nl_at(l, l.len() as int);
            assert(raw_lines(l) =~= seq![l]);
        }
        assert(ls =~= seq![l]);
    } else {
        let head: Seq<char> = ls[0];
        let rest: Seq<Seq<char>> = ls.skip(1);
        assert(line_term(head));
        assert(wf_lines(rest)) by {
            assert forall|i: int| 0 <= i < rest.len() implies line_open(#[trigger] rest[i]) by {
                assert(rest[i] == ls[i + 1]);
            }
            assert forall|i: int| 0 <= i < rest.len() - 1 implies (#[trigger] rest[i]).last()
                == '\n' by {
                assert(rest[i] == ls[i + 1]);
            }
        }
        lemma_raw_lines_of_flatten(rest);
        lemma_raw_lines_of_flatten(ls.take(1));
        assert(ls.take(1) =~= seq![head]);
        assert(raw_lines(seq![head].flatten()) == seq![head]);
        seq![head].lemma_flatten_one_element();
        lemma_raw_lines_concat(head, rest.flatten());
        assert(ls.take(1) + ls.skip(1) =~= ls);
        lemma_flatten_concat(ls.take(1), ls.skip(1));
        assert(ls.take(1).flatten() == head) by {
            seq![head].lemma_flatten_one_element();
        }
        assert(ls.flatten() == head + rest.flatten());
        assert(raw_lines(ls.flatten()) =~= ls);
    }
}


/// A single open line is its own decomposition.
pub proof fn lemma_raw_lines_single(l: Seq<char>)
    requires
        line_open(l),
    ensures
        raw_lines(l) == seq![l],
{
    if l.last() == '\n' {
        lemma_first_nl_at(l, l.len() - 1);
        assert(l.take((first_nl(l) + 1) as int) =~= l);
        assert(l.skip((first_nl(l) + 1) as int) =~= Seq::<char>::empty());
        assert(raw_lines(Seq::<char>::empty()) == Seq::<Seq<char>>::empty());
        assert(raw_lines(l) =~= seq![l]);
    } else {
        lemma_first_nl_at(l, l.len() as int);
        assert(raw_lines(l) =~= seq![l]);
    }
}

/// `s` with its leading whitespace removed.
pub open spec fn trim_start_spec(s: Seq<char>) -> Seq<char>
    decreases s.len(),
{
    if s.len() == 0 {
        s
    } else if is_ws(s[0]) {
        trim_start_spec(s.skip(1))
    } else {
        s
    }
}

/// `s` with its trailing whitespace removed.
pub open spec fn trim_end_spec(s: Seq<char>) -> Seq<char>
    decreases s.len(),
{
    if s.len() == 0 {
        s
    } else if is_ws(s.last()) {
        trim_end_spec(s.drop_last())
    } else {
        s
    }
}

/// `s` with whitespace removed from both ends.
pub open spec fn trim_spec(s: Seq<char>) -> Seq<char> {
    trim_end_spec(trim_start_spec(s))
}

pub proof fn lemma_trim_start_at(s: Seq<char>, i: int)
    requires
        0 <= i <= s.len(),
        forall|k: int| 0 <= k < i ==> is_ws(s[k]),
        i < s.len() ==> !is_ws(s[i]),
    ensures
        trim_start_spec(s) == s.skip(i),
    decreases s.len(),
{
    if s.len() == 0 {
        assert(s.skip(0) =~= s);
    } else if i == 0 {
        assert(s.skip(0) =~= s);
    } else {
        assert(is_ws(s[0]));
        assert forall|k: int| 0 <= k < i - 1 implies is_ws(s.skip(1)[k]) by {
            assert(s.skip(1)[k] == s[k + 1]);
        }
        if i - 1 < s.skip(1).len() {
            assert(s.skip(1)[i - 1] == s[i]);
        }
        lemma_trim_start_at(s.skip(1), i - 1);
        assert(s.skip(1).skip(i - 1) =~= s.skip(i));
    }
}

pub proof fn lemma_trim_end_at(s: Seq<char>, j: int)
    requires
        0 <= j <= s.len(),
        forall|k: int| j <= k < s.len() ==> is_ws(s[k]),
        j > 0 ==> !is_ws(s[j - 1]),
    ensures
        trim_end_spec(s) == s.take(j),
    decreases s.len(),
{
    if s.len() == 0 {
        assert(s.take(0) =~= s);
    } else if j == s.len() {
        assert(!is_ws(s.last()));
        assert(s.take(j) =~= s);
    } else {
        assert(is_ws(s.last()));
        assert forall|k: int| j <= k < s.drop_last().len() implies is_ws(s.drop_last()[k]) by {
            assert(s.drop_last()[k] == s[k]);
        }
        if j > 0 {
            assert(s.drop_last()[j - 1] == s[j - 1]);
        }
        lemma_trim_end_at(s.drop_last(), j);
        assert(s.drop_last().take(j) =~= s.take(j));
    }
}

/// Length of the leading run of spaces and tabs.
pub open spec fn indent_len(s: Seq<char>) -> nat
    decreases s.len(),
{
    if s.len() == 0 {
        0
    } else if !is_indent_char(s[0]) {
        0
    } else {
        indent_len(s.skip(1)) + 1
    }
}

/// The leading run of spaces and tabs itself.
pub open spec fn ws_prefix(s: Seq<char>) -> Seq<char> {
    s.take(indent_len(s) as int)
}

pub proof fn lemma_indent_len(s: Seq<char>)
    ensures
        indent_len(s) <= s.len(),
        forall|k: int| 0 <= k < indent_len(s) ==> is_indent_char(s[k]),
    decreases s.len(),
{
    if s.len() == 0 {
    } else if !is_indent_char(s[0]) {
    } else {
        lemma_indent_len(s.skip(1));
        assert forall|k: int| 0 <= k < indent_len(s) implies is_indent_char(s[k]) by {
            if k > 0 {
                assert(s.skip(1)[k - 1] == s[k]);
            }
        }
    }
}

pub proof fn lemma_indent_len_at(s: Seq<char>, i: int)
    requires
        0 <= i <= s.len(),
        forall|k: int| 0 <= k < i ==> is_indent_char(s[k]),
        i < s.len() ==> !is_indent_char(s[i]),
    ensures
        indent_len(s) == i,
    decreases s.len(),
{
    if s.len() == 0 {
    } else if i == 0 {
    } else {
        assert forall|k: int| 0 <= k < i - 1 implies is_indent_char(s.skip(1)[k]) by {
            assert(s.skip(1)[k] == s[k + 1]);
        }
        if i - 1 < s.skip(1).len() {
            assert(s.skip(1)[i - 1] == s[i]);
        }
        lemma_indent_len_at(s.skip(1), i - 1);
    }
}

/// Character-for-character string equality.
pub fn str_eq(a: &str, b: &str) -> (r: bool)
    ensures
        r == (a@ == b@),
{
    let n: usize = a.unicode_len();
    let m: usize = b.unicode_len();
    if n != m {
        return false;
    }
    let mut i: usize = 0;
    while i < n
        invariant
            n == a@.len(),
            n == b@.len(),
            0 <= i <= n,
            forall|k: int| 0 <= k < i ==> a@[k] == b@[k],
        decreases n - i,
    {
        if a.get_char(i) != b.get_char(i) {
            assert(a@[i as int] != b@[i as int]);
            return false;
        }
        i += 1;
    }
    proof {
        assert(a@ =~= b@);
    }
    true
}

/// `s` with leading and trailing whitespace removed.
pub fn trim_exec<'a>(s: &'a str) -> (t: &'a str)
    ensures
        t@ == trim_spec(s@),
{
    let n: usize = s.unicode_len();
    let mut i: usize = 0;
    while i < n && char_is_ws(s.get_char(i))
        invariant
            n == s@.len(),
            0 <= i <= n,
            forall|k: int| 0 <= k < i ==> is_ws(s@[k]),
        decreases n - i,
    {
        i += 1;
    }
    let mut j: usize = n;
    while j > i && char_is_ws(s.get_char(j - 1))
        invariant
            n == s@.len(),
            i <= j <= n,
            forall|k: int| j <= k < n ==> is_ws(s@[k]),
        decreases j,
    {
        j -= 1;
    }
    let t = s.substring_char(i, j);
    proof {
        lemma_trim_start_at(s@, i as int);
        let ss = s@.skip(i as int);
        assert forall|k: int| (j - i) <= k < ss.len() implies is_ws(ss[k]) by {
            assert(ss[k] == s@[k + i]);
        }
        if j > i {
            assert(ss[j - i - 1] == s@[j - 1]);
        }
        lemma_trim_end_at(ss, j - i);
        assert(ss.take(j - i) =~= s@.subrange(i as int, j as int));
    }
    t
}

/// The leading run of spaces and tabs of `s`.
pub fn leading_indent<'a>(s: &'a str) -> (t: &'a str)
    ensures
        t@ == ws_prefix(s@),
{
    let n: usize = s.unicode_len();
    let mut i: usize = 0;
    while i < n && char_is_indent(s.get_char(i))
        invariant
            n == s@.len(),
            0 <= i <= n,
            forall|k: int| 0 <= k < i ==> is_indent_char(s@[k]),
        decreases n - i,
    {
        i += 1;
    }
    let t = s.substring_char(0, i);
    proof {
        lemma_indent_len_at(s@, i as int);
        assert(s@.subrange(0, i as int) =~= s@.take(i as int));
    }
    t
}

/// Split a text into its raw lines, each keeping its trailing line break.
pub fn split_raw_lines(s: &str) -> (v: Vec<String>)
    ensures
        v.deep_view() == raw_lines(s@),
{
    let n: usize = s.unicode_len();
    let mut v: Vec<String> = Vec::new();
    let mut start: usize = 0;
    let mut i: usize = 0;
    while i < n
        invariant
            n == s@.len(),
            0 <= start <= i <= n,
            forall|k: int| start <= k < i ==> s@[k] != '\n',
            s@.take(start as int).len() == 0 || s@.take(start as int).last() == '\n',
            v.deep_view() == raw_lines(s@.take(start as int)),
        decreases n - i,
    {
        let c = s.get_char(i);
        if c == '\n' {
            let line = s.substring_char(start, i + 1);
            let ghost old_dv = v.deep_view();
            v.push(line.to_owned());
            proof {
                let a = s@.take(start as int);
                let lseq = s@.subrange(start as int, i + 1);
                assert(line_term(lseq)) by {
                    assert(lseq.last() == s@[i as int]);
                    assert forall|k: int| 0 <= k < lseq.len() - 1 implies lseq[k] != '\n' by {
                        assert(lseq[k] == s@[k + start]);
                    }
                }
                lemma_raw_lines_single(lseq);
                lemma_raw_lines_concat(a, lseq);
                assert(a + lseq =~= s@.take(i + 1));
                assert(v.deep_view() =~= old_dv + seq![lseq]);
                assert(s@.take(i + 1).len() > 0 && s@.take(i + 1).last() == '\n');
            }
            start = i + 1;
        }
        i += 1;
    }
    if start < n {
        let line = s.substring_char(start, n);
        let ghost old_dv = v.deep_view();
        v.push(line.to_owned());
        proof {
            let a = s@.take(start as int);
            let lseq = s@.subrange(start as int, n as int);
            assert(line_open(lseq)) by {
                assert forall|k: int| 0 <= k < lseq.len() - 1 implies lseq[k] != '\n' by {
                    assert(lseq[k] == s@[k + start]);
                }
            }
            lemma_raw_lines_single(lseq);
            lemma_raw_lines_concat(a, lseq);
            assert(a + lseq =~= s@);
            assert(v.deep_view() =~= old_dv + seq![lseq]);
        }
    } else {
        proof {
            assert(s@.take(start as int) =~= s@);
        }
    }
    v
}

} // verus!
