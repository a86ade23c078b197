//! The windowed multi-line pattern matcher and the line-delta-aware apply
//! algorithm for pattern-kind patches.

use crate::manifest::{InsertPosition, Patch, PatternPatch};
use crate::ropebuf::{
    rope_delete_lines, rope_insert_at_line, rope_line_count, rope_raw_lines, rope_text,
};
use crate::text::{
    first_nl, is_indent_char, lemma_first_nl, lemma_first_nl_at, lemma_indent_len,
    lemma_raw_lines_concat, lemma_raw_lines_of_flatten, lemma_raw_lines_wf, leading_indent,
    line_open, line_term, raw_lines, split_raw_lines, str_eq, terminated_lines, trim_exec,
    trim_spec, wf_lines, ws_prefix,
};
use crate::wild::{wild_match_line, wild_matches};
use vstd::prelude::*;
use vstd::seq_lib::lemma_flatten_concat;

verus! {

/// `s` has no line break.
pub open spec fn no_nl(s: Seq<char>) -> bool {
    forall|i: int| 0 <= i < s.len() ==> s[i] != '\n'
}

/// The segments of a payload, split at each line break; a payload ending
/// with a line break keeps its trailing empty segment, so there is always
/// one segment more than there are line breaks.
pub open spec fn segments(p: Seq<char>) -> Seq<Seq<char>>
    decreases p.len(),
{
    let n: nat = first_nl(p);
    if n >= p.len() {
        seq![p]
    } else {
        seq![p.take(n as int)] + segments(p.skip((n + 1) as int))
    }
}

/// The payload rendered for one match: every segment is prefixed with the
/// captured indentation and terminated with a line break.
pub open spec fn rendered_lines(p: Seq<char>, ind: Seq<char>) -> Seq<Seq<char>> {
    segments(p).map_values(|seg: Seq<char>| ind + seg + seq!['\n'])
}

/// The rendered payload as text.
pub open spec fn rendered_text(p: Seq<char>, ind: Seq<char>) -> Seq<char> {
    rendered_lines(p, ind).flatten()
}

pub proof fn lemma_segments(p: Seq<char>)
    ensures
        segments(p).len() >= 1,
        forall|k: int| 0 <= k < segments(p).len() ==> no_nl(#[trigger] segments(p)[k]),
    decreases p.len(),
{
    let n: nat = first_nl(p);
    lemma_first_nl(p);
    if n >= p.len() {
        assert(no_nl(p));
    } else {
        lemma_segments(p.skip((n + 1) as int));
        assert(no_nl(p.take(n as int))) by {
            assert forall|i: int| 0 <= i < p.take(n as int).len() implies p.take(n as int)[i]
                != '\n' by {
                assert(p.take(n as int)[i] == p[i]);
            }
        }
        assert forall|k: int| 0 <= k < segments(p).len() implies no_nl(
            #[trigger] segments(p)[k],
        ) by {
            if k > 0 {
                assert(segments(p)[k] == segments(p.skip((n + 1) as int))[k - 1]);
            }
        }
    }
}

/// Indentation law: every rendered payload line is exactly the captured
/// indentation, then one payload segment, then one line break — so each
/// injected line is prefixed with exactly the captured run, and with the
/// empty prefix when no indentation was captured.
pub proof fn lemma_rendered_indentation(p: Seq<char>, ind: Seq<char>)
    requires
        no_nl(ind),
    ensures
        rendered_lines(p, ind).len() == segments(p).len() >= 1,
        forall|k: int| 0 <= k < rendered_lines(p, ind).len() ==> #[trigger] rendered_lines(
            p,
            ind,
        )[k] == ind + segments(p)[k] + seq!['\n'],
        forall|k: int| 0 <= k < rendered_lines(p, ind).len() ==> (#[trigger] rendered_lines(
            p,
            ind,
        )[k]).take(ind.len() as int) == ind,
        terminated_lines(rendered_lines(p, ind)),
        raw_lines(rendered_text(p, ind)) == rendered_lines(p, ind),
        rendered_text(p, ind).len() > 0,
        rendered_text(p, ind).last() == '\n',
{
    lemma_segments(p);
    let rl = rendered_lines(p, ind);
    assert forall|k: int| 0 <= k < rl.len() implies (#[trigger] rl[k]).take(ind.len() as int)
        == ind by {
        assert(rl[k] == ind + segments(p)[k] + seq!['\n']);
        assert((ind + segments(p)[k] + seq!['\n']).take(ind.len() as int) =~= ind);
    }
    assert forall|k: int| 0 <= k < rl.len() implies line_term(#[trigger] rl[k]) by {
        let l = ind + segments(p)[k] + seq!['\n'];
        assert(rl[k] == l);
        assert(l.last() == '\n');
        assert forall|j: int| 0 <= j < l.len() - 1 implies l[j] != '\n' by {
            if j < ind.len() {
                assert(l[j] == ind[j]);
            } else {
                assert(l[j] == segments(p)[k][j - ind.len()]);
            }
        }
    }
    lemma_raw_lines_of_flatten(rl);
    rl.lemma_flatten_length_ge_single_element_length(0);
    rl.lemma_flatten_and_flatten_alt_are_equivalent();
    assert(rl[0].len() > 0);
    assert(rendered_text(p, ind).len() > 0);
    assert(rendered_text(p, ind).last() == '\n') by {
        lemma_raw_lines_wf(rendered_text(p, ind));
        if rendered_text(p, ind).last() != '\n' {
            assert(raw_lines(rendered_text(p, ind)).last().last() != '\n');
            assert(rl.last().last() == '\n');
        }
    }
}

/// The trimmed lines of a pattern, in order.
pub open spec fn pat_lines_of(pattern: Seq<char>) -> Seq<Seq<char>> {
    raw_lines(pattern).map_values(|l: Seq<char>| trim_spec(l))
}

/// Whether the window of `pats.len()` lines starting at line `i` matches the
/// compiled pattern, line by line against the trimmed candidate.
pub open spec fn window_matches(lines: Seq<Seq<char>>, pats: Seq<Seq<char>>, i: int) -> bool {
    forall|j: int| 0 <= j < pats.len() ==> wild_matches(#[trigger] pats[j], trim_spec(lines[i + j]))
}

/// The greedy windowed scan: starting at line `i`, record each matching
/// window's first line and resume past the whole window; on a non-match
/// advance by one line.
pub open spec fn scan_matches(lines: Seq<Seq<char>>, pats: Seq<Seq<char>>, i: int) -> Seq<int>
    decreases lines.len() - i,
{
    if pats.len() == 0 || i < 0 || i + pats.len() > lines.len() {
        Seq::empty()
    } else if window_matches(lines, pats, i) {
        seq![i] + scan_matches(lines, pats, i + pats.len() as int)
    } else {
        scan_matches(lines, pats, i + 1)
    }
}

/// Matched windows never overlap and come in ascending original-line order,
/// for any non-empty pattern and any buffer; every recorded window lies in
/// bounds and matches the pattern.
pub proof fn lemma_matches_nonoverlapping_ascending(
    lines: Seq<Seq<char>>,
    pats: Seq<Seq<char>>,
    i: int,
)
    requires
        pats.len() >= 1,
        i >= 0,
    ensures
        forall|k: int| 0 <= k < scan_matches(lines, pats, i).len() ==> i <= #[trigger] scan_matches(
            lines,
            pats,
            i,
        )[k] && scan_matches(lines, pats, i)[k] + pats.len() <= lines.len(),
        forall|k: int| 0 <= k < scan_matches(lines, pats, i).len() ==> window_matches(
            lines,
            pats,
            #[trigger] scan_matches(lines, pats, i)[k],
        ),
        forall|k1: int, k2: int|
            0 <= k1 < k2 < scan_matches(lines, pats, i).len() ==> #[trigger] scan_matches(
                lines,
                pats,
                i,
            )[k1] + pats.len() <= #[trigger] scan_matches(lines, pats, i)[k2],
    decreases lines.len() - i,
{
    let ms = scan_matches(lines, pats, i);
    if pats.len() == 0 || i < 0 || i + pats.len() > lines.len() {
    } else if window_matches(lines, pats, i) {
        lemma_matches_nonoverlapping_ascending(lines, pats, i + pats.len() as int);
        let rest = scan_matches(lines, pats, i + pats.len() as int);
        assert forall|k: int| 0 <= k < ms.len() implies i <= #[trigger] ms[k] && ms[k] + pats.len()
            <= lines.len() by {
            if k > 0 {
                assert(ms[k] == rest[k - 1]);
            }
        }
        assert forall|k: int| 0 <= k < ms.len() implies window_matches(
            lines,
            pats,
            #[trigger] ms[k],
        ) by {
            if k > 0 {
                assert(ms[k] == rest[k - 1]);
            }
        }
        assert forall|k1: int, k2: int| 0 <= k1 < k2 < ms.len() implies #[trigger] ms[k1]
            + pats.len() <= #[trigger] ms[k2] by {
            assert(ms[k2] == rest[k2 - 1]);
            if k1 > 0 {
                assert(ms[k1] == rest[k1 - 1]);
            }
        }
    } else {
        lemma_matches_nonoverlapping_ascending(lines, pats, i + 1);
        let rest = scan_matches(lines, pats, i + 1);
        assert(ms == rest);
        assert forall|k: int| 0 <= k < ms.len() implies i <= #[trigger] ms[k] && ms[k] + pats.len()
            <= lines.len() by {
            assert(ms[k] == rest[k]);
        }
        assert forall|k: int| 0 <= k < ms.len() implies window_matches(
            lines,
            pats,
            #[trigger] ms[k],
        ) by {
            assert(ms[k] == rest[k]);
        }
    }
}

/// The matches retained after reconciling with the declared expectation:
/// more matches than expected are truncated to the first `times` by
/// ascending position; fewer are all kept, and none are synthesized.
pub open spec fn used_matches(ms: Seq<int>, times: Option<usize>) -> Seq<int> {
    match times {
        Option::Some(k) => if ms.len() > k {
            ms.take(k as int)
        } else {
            ms
        },
        Option::None => ms,
    }
}

/// Truncation law: with `times = k` and `m` actual matches, exactly the
/// first `k` matches are applied when `m > k`, and all `m` are applied, none
/// synthesized, when `m <= k`.
pub proof fn lemma_truncation(ms: Seq<int>, k: usize)
    ensures
        ms.len() > k ==> used_matches(ms, Option::Some(k)) == ms.take(k as int),
        ms.len() <= k ==> used_matches(ms, Option::Some(k)) == ms,
        used_matches(ms, Option::Some(k)).len() <= ms.len(),
        forall|j: int|
            0 <= j < used_matches(ms, Option::Some(k)).len() ==> #[trigger] used_matches(
                ms,
                Option::Some(k),
            )[j] == ms[j],
{
}

/// The indentation captured for each retained match: the leading run of
/// spaces and tabs of the window's first raw line when `match_indent` is
/// set, and the empty run otherwise.
pub open spec fn indents_for(lines: Seq<Seq<char>>, ms: Seq<int>, match_indent: bool) -> Seq<
    Seq<char>,
> {
    Seq::new(
        ms.len(),
        |k: int|
            if match_indent {
                ws_prefix(lines[ms[k]])
            } else {
                Seq::<char>::empty()
            },
    )
}

pub open spec fn shift_matches(ms: Seq<int>, d: int) -> Seq<int> {
    ms.map_values(|m: int| m - d)
}

/// The text produced by applying the rendered payload at every retained
/// match, in ascending original-position order.
pub open spec fn splice_text(
    lines: Seq<Seq<char>>,
    ms: Seq<int>,
    inds: Seq<Seq<char>>,
    pos: InsertPosition,
    payload: Seq<char>,
    w: int,
) -> Seq<char>
    decreases ms.len(),
{
    if ms.len() == 0 {
        lines.flatten()
    } else {
        let m: int = ms[0];
        let keep: int = if pos == InsertPosition::After {
            m + w
        } else {
            m
        };
        let resume: int = if pos == InsertPosition::Before {
            m
        } else {
            m + w
        };
        lines.take(keep).flatten() + rendered_text(payload, inds[0]) + splice_text(
            lines.skip(resume),
            shift_matches(ms.skip(1), resume),
            inds.skip(1),
            pos,
            payload,
            w,
        )
    }
}

/// Whether a pattern patch applies at all: the target name must agree, the
/// pattern must have at least one line, and the windowed scan must find at
/// least one match.
pub open spec fn pattern_applies(p: PatternPatch, tname: Seq<char>, text: Seq<char>) -> bool {
    &&& p.target@ == tname
    &&& raw_lines(p.pattern@).len() > 0
    &&& scan_matches(raw_lines(text), pat_lines_of(p.pattern@), 0).len() > 0
}

/// The text a pattern patch turns `text` into: unchanged when the patch
/// does not apply, and otherwise the splice of the rendered payload at
/// every retained match.
pub open spec fn pattern_apply_spec(p: PatternPatch, tname: Seq<char>, text: Seq<char>) -> Seq<
    char,
> {
    if !pattern_applies(p, tname, text) {
        text
    } else {
        let lines = raw_lines(text);
        let pats = pat_lines_of(p.pattern@);
        let ms = used_matches(scan_matches(lines, pats, 0), p.times);
        splice_text(
            lines,
            ms,
            indents_for(lines, ms, p.match_indent),
            p.position,
            p.payload@,
            pats.len() as int,
        )
    }
}


/// Render the payload for one match: each segment of the payload, split at
/// line breaks and keeping a trailing empty segment, is prefixed with the
/// captured indentation and terminated with a line break. Returns the
/// rendered text and the number of line breaks in the payload (one less
/// than the rendered line count).
pub fn render_payload(payload: &str, indent: &str) -> (res: (String, usize))
    requires
        no_nl(indent@),
    ensures
        res.0@ == rendered_text(payload@, indent@),
        res.1 + 1 == segments(payload@).len(),
{
    let n: usize = payload.unicode_len();
    let mut out: String = String::new();
    let mut cnt: usize = 0;
    let mut start: usize = 0;
    let mut i: usize = 0;
    proof {
        assert(payload@.skip(0) =~= payload@);
        assert(out@ + rendered_text(payload@, indent@) =~= rendered_text(payload@, indent@));
    }
    while i < n
        invariant
            n == payload@.len(),
            no_nl(indent@),
            0 <= start <= i <= n,
            cnt <= start,
            forall|k: int| start <= k < i ==> payload@[k] != '\n',
            rendered_text(payload@, indent@) == out@ + rendered_text(
                payload@.skip(start as int),
                indent@,
            ),
            segments(payload@).len() == cnt + segments(payload@.skip(start as int)).len(),
        decreases n - i,
    {
        let c = payload.get_char(i);
        if c == '\n' {
            out.append(indent);
            out.append(payload.substring_char(start, i));
            out.append("\n");
            proof {
                reveal_strlit("\n");
                let tail = payload@.skip(start as int);
                assert forall|k: int| 0 <= k < i - start implies tail[k] != '\n' by {
                    assert(tail[k] == payload@[k + start]);
                }
                assert(tail[i - start] == payload@[i as int]);
                lemma_first_nl_at(tail, i - start);
                let seg = tail.take(i - start);
                assert(seg =~= payload@.subrange(start as int, i as int));
                let rest = tail.skip(i + 1 - start);
                assert(rest =~= payload@.skip(i + 1));
                assert(segments(tail) == seq![seg] + segments(rest));
                assert(rendered_lines(tail, indent@) =~= seq![indent@ + seg + seq!['\n']]
                    + rendered_lines(rest, indent@)) by {
                    assert forall|k: int|
                        0 <= k < rendered_lines(tail, indent@).len() implies #[trigger] rendered_lines(
                        tail,
                        indent@,
                    )[k] == (seq![indent@ + seg + seq!['\n']] + rendered_lines(rest, indent@))[k] by {
                        if k > 0 {
                            assert(segments(tail)[k] == segments(rest)[k - 1]);
                        }
                    }
                }
                lemma_flatten_concat(
                    seq![indent@ + seg + seq!['\n']],
                    rendered_lines(rest, indent@),
                );
                seq![indent@ + seg + seq!['\n']].lemma_flatten_one_element();
                assert(rendered_text(tail, indent@) == (indent@ + seg + seq!['\n'])
                    + rendered_text(rest, indent@));
                assert("\n"@ =~= seq!['\n']);
                assert(out@ + rendered_text(rest, indent@) == rendered_text(payload@, indent@));
            }
            start = i + 1;
            cnt = cnt + 1;
        }
        i += 1;
    }
    out.append(indent);
    out.append(payload.substring_char(start, n));
    out.append("\n");
    proof {
        reveal_strlit("\n");
        let tail = payload@.skip(start as int);
        assert forall|k: int| 0 <= k < tail.len() implies tail[k] != '\n' by {
            assert(tail[k] == payload@[k + start]);
        }
        lemma_first_nl_at(tail, tail.len() as int);
        assert(segments(tail) == seq![tail]);
        assert(rendered_lines(tail, indent@) =~= seq![indent@ + tail + seq!['\n']]);
        seq![indent@ + tail + seq!['\n']].lemma_flatten_one_element();
        assert(tail =~= payload@.subrange(start as int, n as int));
        assert("\n"@ =~= seq!['\n']);
        assert(out@ == rendered_text(payload@, indent@));
    }
    (out, cnt)
}

/// In-bounds, non-overlapping, ascending match positions for windows of
/// width `w` over `n` lines.
pub open spec fn valid_matches(ms: Seq<int>, w: int, n: int) -> bool {
    (forall|k: int| 0 <= k < ms.len() ==> 0 <= #[trigger] ms[k] && ms[k] + w <= n) && (forall|
        k1: int,
        k2: int,
    |
        0 <= k1 < k2 < ms.len() ==> #[trigger] ms[k1] + w <= #[trigger] ms[k2])
}

pub open spec fn indents_ok(inds: Seq<Seq<char>>) -> bool {
    forall|k: int| 0 <= k < inds.len() ==> no_nl(#[trigger] inds[k])
}

/// Insertion law: placing a rendered payload of `L` lines before or after
/// each of `N` retained matches in a line-terminated buffer increases the
/// total line count by exactly `N * L`.
#[verifier::rlimit(100)]
#[verifier::spinoff_prover]
pub proof fn lemma_splice_count_insert(
    lines: Seq<Seq<char>>,
    ms: Seq<int>,
    inds: Seq<Seq<char>>,
    pos: InsertPosition,
    payload: Seq<char>,
    w: int,
)
    requires
        pos == InsertPosition::Before || pos == InsertPosition::After,
        terminated_lines(lines),
        w >= 1,
        inds.len() == ms.len(),
        indents_ok(inds),
        valid_matches(ms, w, lines.len() as int),
    ensures
        raw_lines(splice_text(lines, ms, inds, pos, payload, w)).len() == lines.len() + ms.len()
            * segments(payload).len(),
    decreases ms.len(),
{
    let res = splice_text(lines, ms, inds, pos, payload, w);
    let ll: int = segments(payload).len() as int;
    if ms.len() == 0 {
        lemma_raw_lines_of_flatten(lines);
    } else {
        let m: int = ms[0];
        let keep: int = if pos == InsertPosition::After {
            m + w
        } else {
            m
        };
        let tail = lines.skip(keep);
        let ms2 = shift_matches(ms.skip(1), keep);
        let inds2 = inds.skip(1);
        assert(terminated_lines(tail)) by {
            assert forall|k: int| 0 <= k < tail.len() implies line_open(#[trigger] tail[k])
                && tail[k].last() == '\n' by {
                assert(tail[k] == lines[k + keep]);
            }
        }
        assert(valid_matches(ms2, w, tail.len() as int)) by {
            assert forall|k: int| 0 <= k < ms2.len() implies 0 <= #[trigger] ms2[k] && ms2[k] + w
                <= tail.len() by {
                assert(ms2[k] == ms.skip(1)[k] - keep);
                assert(ms.skip(1)[k] == ms[k + 1]);
                assert(ms[0] + w <= ms[k + 1]);
            }
            assert forall|k1: int, k2: int| 0 <= k1 < k2 < ms2.len() implies #[trigger] ms2[k1] + w
                <= #[trigger] ms2[k2] by {
                assert(ms2[k1] == ms[k1 + 1] - keep);
                assert(ms2[k2] == ms[k2 + 1] - keep);
            }
        }
        assert(indents_ok(inds2)) by {
            assert forall|k: int| 0 <= k < inds2.len() implies no_nl(#[trigger] inds2[k]) by {
                assert(inds2[k] == inds[k + 1]);
            }
        }
        lemma_splice_count_insert(tail, ms2, inds2, pos, payload, w);
        let a = lines.take(keep).flatten();
        let b = rendered_text(payload, inds[0]);
        let c = splice_text(tail, ms2, inds2, pos, payload, w);
        assert(res == a + b + c);
        lemma_rendered_indentation(payload, inds[0]);
        assert(terminated_lines(lines.take(keep))) by {
            assert forall|k: int| 0 <= k < keep implies line_open(#[trigger] lines.take(keep)[k])
                && lines.take(keep)[k].last() == '\n' by {
                assert(lines.take(keep)[k] == lines[k]);
            }
        }
        lemma_raw_lines_of_flatten(lines.take(keep));
        if keep > 0 {
            assert(a.last() == '\n') by {
                lemma_raw_lines_wf(a);
                if a.len() > 0 && a.last() != '\n' {
                    assert(raw_lines(a).last().last() != '\n');
                }
                if a.len() == 0 {
                    assert(raw_lines(a).len() == 0);
                }
            }
        }
        lemma_raw_lines_concat(a, b);
        assert((a + b).last() == '\n');
        lemma_raw_lines_concat(a + b, c);
        assert(a + b + c == (a + b) + c);
        assert(raw_lines(res).len() == keep + ll + raw_lines(c).len());
        assert(raw_lines(c).len() == tail.len() + (ms.len() - 1) * ll);
        assert((ms.len() - 1) * ll + ll == ms.len() * ll) by (nonlinear_arith);
    }
}

/// Replacement law: an `At` replacement of each `w`-line window with a
/// rendered payload of `L` lines changes the total line count by exactly
/// `N * (L - w)`; with `L == w` the count is unchanged.
#[verifier::rlimit(100)]
#[verifier::spinoff_prover]
pub proof fn lemma_splice_count_at(
    lines: Seq<Seq<char>>,
    ms: Seq<int>,
    inds: Seq<Seq<char>>,
    payload: Seq<char>,
    w: int,
)
    requires
        wf_lines(lines),
        w >= 1,
        inds.len() == ms.len(),
        indents_ok(inds),
        valid_matches(ms, w, lines.len() as int),
    ensures
        raw_lines(splice_text(lines, ms, inds, InsertPosition::At, payload, w)).len() == lines.len()
            + ms.len() * (segments(payload).len() - w),
    decreases ms.len(),
{
    let pos = InsertPosition::At;
    let res = splice_text(lines, ms, inds, pos, payload, w);
    let ll: int = segments(payload).len() as int;
    if ms.len() == 0 {
        lemma_raw_lines_of_flatten(lines);
    } else {
        let m: int = ms[0];
        let resume: int = m + w;
        let tail = lines.skip(resume);
        let ms2 = shift_matches(ms.skip(1), resume);
        let inds2 = inds.skip(1);
        assert(wf_lines(tail)) by {
            assert forall|k: int| 0 <= k < tail.len() implies line_open(#[trigger] tail[k]) by {
                assert(tail[k] == lines[k + resume]);
            }
            assert forall|k: int| 0 <= k < tail.len() - 1 implies (#[trigger] tail[k]).last()
                == '\n' by {
                assert(tail[k] == lines[k + resume]);
            }
        }
        assert(valid_matches(ms2, w, tail.len() as int)) by {
            assert forall|k: int| 0 <= k < ms2.len() implies 0 <= #[trigger] ms2[k] && ms2[k] + w
                <= tail.len() by {
                assert(ms2[k] == ms.skip(1)[k] - resume);
                assert(ms.skip(1)[k] == ms[k + 1]);
                assert(ms[0] + w <= ms[k + 1]);
            }
            assert forall|k1: int, k2: int| 0 <= k1 < k2 < ms2.len() implies #[trigger] ms2[k1] + w
                <= #[trigger] ms2[k2] by {
                assert(ms2[k1] == ms[k1 + 1] - resume);
                assert(ms2[k2] == ms[k2 + 1] - resume);
            }
        }
        assert(indents_ok(inds2)) by {
            assert forall|k: int| 0 <= k < inds2.len() implies no_nl(#[trigger] inds2[k]) by {
                assert(inds2[k] == inds[k + 1]);
            }
        }
        lemma_splice_count_at(tail, ms2, inds2, payload, w);
        let a = lines.take(m).flatten();
        let b = rendered_text(payload, inds[0]);
        let c = splice_text(tail, ms2, inds2, pos, payload, w);
        assert(res == a + b + c);
        lemma_rendered_indentation(payload, inds[0]);
        assert(terminated_lines(lines.take(m))) by {
            assert forall|k: int| 0 <= k < m implies line_open(#[trigger] lines.take(m)[k])
                && lines.take(m)[k].last() == '\n' by {
                assert(lines.take(m)[k] == lines[k]);
                assert(k < lines.len() - 1);
            }
        }
        lemma_raw_lines_of_flatten(lines.take(m));
        if m > 0 {
            assert(a.last() == '\n') by {
                lemma_raw_lines_wf(a);
                if a.len() > 0 && a.last() != '\n' {
                    assert(raw_lines(a).last().last() != '\n');
                }
                if a.len() == 0 {
                    assert(raw_lines(a).len() == 0);
                }
            }
        }
        lemma_raw_lines_concat(a, b);
        assert((a + b).last() == '\n');
        lemma_raw_lines_concat(a + b, c);
        assert(a + b + c == (a + b) + c);
        assert(raw_lines(res).len() == m + ll + raw_lines(c).len());
        assert(raw_lines(c).len() == tail.len() + (ms.len() - 1) * (ll - w));
        assert((ms.len() - 1) * (ll - w) + (ll - w) == ms.len() * (ll - w)) by (nonlinear_arith);
    }
}


/// Sequence of match positions as mathematical integers.
pub open spec fn ints_of(s: Seq<usize>) -> Seq<int> {
    s.map_values(|x: usize| x as int)
}

/// Lines kept in front of the payload for a match at `m`.
pub open spec fn keep_of(pos: InsertPosition, m: int, w: int) -> int {
    if pos == InsertPosition::After {
        m + w
    } else {
        m
    }
}

/// Line at which the unprocessed tail of the buffer resumes after a match
/// at `m`.
pub open spec fn resume_of(pos: InsertPosition, m: int, w: int) -> int {
    if pos == InsertPosition::Before {
        m
    } else {
        m + w
    }
}

/// One unfolding step of `splice_text` against absolute line coordinates.
proof fn lemma_splice_step(
    lseq: Seq<Seq<char>>,
    bigm: Seq<int>,
    binds: Seq<Seq<char>>,
    pos: InsertPosition,
    pay: Seq<char>,
    w: int,
    jj: int,
    consumed: int,
)
    requires
        w >= 1,
        bigm.len() == binds.len(),
        0 <= jj < bigm.len(),
        0 <= consumed <= bigm[jj],
        bigm[jj] + w <= lseq.len(),
        forall|k: int| 0 <= k < bigm.len() ==> 0 <= #[trigger] bigm[k] && bigm[k] + w <= lseq.len(),
        forall|k1: int, k2: int|
            0 <= k1 < k2 < bigm.len() ==> #[trigger] bigm[k1] + w <= #[trigger] bigm[k2],
    ensures
        splice_text(
            lseq.skip(consumed),
            shift_matches(bigm.skip(jj), consumed),
            binds.skip(jj),
            pos,
            pay,
            w,
        ) == lseq.subrange(consumed, keep_of(pos, bigm[jj], w)).flatten() + rendered_text(
            pay,
            binds[jj],
        ) + splice_text(
            lseq.skip(resume_of(pos, bigm[jj], w)),
            shift_matches(bigm.skip(jj + 1), resume_of(pos, bigm[jj], w)),
            binds.skip(jj + 1),
            pos,
            pay,
            w,
        ),
{
    let m: int = bigm[jj];
    let keep: int = keep_of(pos, m, w);
    let resume: int = resume_of(pos, m, w);
    let tail = lseq.skip(consumed);
    let ms2 = shift_matches(bigm.skip(jj), consumed);
    let inds2 = binds.skip(jj);
    assert(ms2.len() > 0);
    assert(ms2[0] == m - consumed);
    assert(inds2[0] == binds[jj]);
    let keep2: int = if pos == InsertPosition::After {
        ms2[0] + w
    } else {
        ms2[0]
    };
    let resume2: int = if pos == InsertPosition::Before {
        ms2[0]
    } else {
        ms2[0] + w
    };
    assert(keep2 == keep - consumed);
    assert(resume2 == resume - consumed);
    assert(splice_text(tail, ms2, inds2, pos, pay, w) == tail.take(keep2).flatten()
        + rendered_text(pay, inds2[0]) + splice_text(
        tail.skip(resume2),
        shift_matches(ms2.skip(1), resume2),
        inds2.skip(1),
        pos,
        pay,
        w,
    ));
    assert(tail.take(keep2) =~= lseq.subrange(consumed, keep));
    assert(tail.skip(resume2) =~= lseq.skip(resume));
    assert(shift_matches(ms2.skip(1), resume2) =~= shift_matches(bigm.skip(jj + 1), resume)) by {
        assert forall|k: int|
            0 <= k < ms2.skip(1).len() implies #[trigger] shift_matches(ms2.skip(1), resume2)[k]
            == shift_matches(bigm.skip(jj + 1), resume)[k] by {
            assert(ms2.skip(1)[k] == ms2[k + 1]);
            assert(ms2[k + 1] == bigm.skip(jj)[k + 1] - consumed);
            assert(bigm.skip(jj)[k + 1] == bigm[jj + 1 + k]);
            assert(bigm.skip(jj + 1)[k] == bigm[jj + 1 + k]);
        }
    }
    assert(inds2.skip(1) =~= binds.skip(jj + 1));
}


/// The invariant-preserving step for one retained match: from the buffer
/// text after the splice of match `jj`, the processed prefix grows by the
/// kept original lines and the rendered payload, and the unprocessed tail
/// resumes at `resume_of`.
#[verifier::rlimit(100)]
#[verifier::spinoff_prover]
proof fn lemma_apply_step(
    lseq: Seq<Seq<char>>,
    bigm: Seq<int>,
    binds: Seq<Seq<char>>,
    pos: InsertPosition,
    pay: Seq<char>,
    w: int,
    jj: int,
    consumed: int,
    done: Seq<Seq<char>>,
    newtext: Seq<char>,
)
    requires
        w >= 1,
        bigm.len() == binds.len(),
        0 <= jj < bigm.len(),
        0 <= consumed <= bigm[jj],
        wf_lines(lseq),
        terminated_lines(done),
        no_nl(binds[jj]),
        forall|k: int| 0 <= k < bigm.len() ==> 0 <= #[trigger] bigm[k] && bigm[k] + w <= lseq.len(),
        forall|k1: int, k2: int|
            0 <= k1 < k2 < bigm.len() ==> #[trigger] bigm[k1] + w <= #[trigger] bigm[k2],
        newtext == (done + lseq.skip(consumed)).take(
            done.len() + keep_of(pos, bigm[jj], w) - consumed,
        ).flatten() + rendered_text(pay, binds[jj]) + (done + lseq.skip(consumed)).skip(
            done.len() + resume_of(pos, bigm[jj], w) - consumed,
        ).flatten(),
    ensures
        newtext == (done + lseq.subrange(consumed, keep_of(pos, bigm[jj], w)) + rendered_lines(
            pay,
            binds[jj],
        )).flatten() + lseq.skip(resume_of(pos, bigm[jj], w)).flatten(),
        (done + lseq.subrange(consumed, keep_of(pos, bigm[jj], w)) + rendered_lines(
            pay,
            binds[jj],
        )).len() == done.len() + (keep_of(pos, bigm[jj], w) - consumed) + segments(pay).len(),
        jj + 1 < bigm.len() ==> terminated_lines(
            done + lseq.subrange(consumed, keep_of(pos, bigm[jj], w)) + rendered_lines(
                pay,
                binds[jj],
            ),
        ),
        pos == InsertPosition::Before || pos == InsertPosition::At ==> terminated_lines(
            done + lseq.subrange(consumed, keep_of(pos, bigm[jj], w)) + rendered_lines(
                pay,
                binds[jj],
            ),
        ),
        done.flatten() + splice_text(
            lseq.skip(consumed),
            shift_matches(bigm.skip(jj), consumed),
            binds.skip(jj),
            pos,
            pay,
            w,
        ) == (done + lseq.subrange(consumed, keep_of(pos, bigm[jj], w)) + rendered_lines(
            pay,
            binds[jj],
        )).flatten() + splice_text(
            lseq.skip(resume_of(pos, bigm[jj], w)),
            shift_matches(bigm.skip(jj + 1), resume_of(pos, bigm[jj], w)),
            binds.skip(jj + 1),
            pos,
            pay,
            w,
        ),
        forall|k: int| jj + 1 <= k < bigm.len() ==> resume_of(pos, bigm[jj], w) <= #[trigger] bigm[k],
        consumed <= resume_of(pos, bigm[jj], w) <= lseq.len(),
{
    let m: int = bigm[jj];
    let keep: int = keep_of(pos, m, w);
    let resume: int = resume_of(pos, m, w);
    let tail = lseq.skip(consumed);
    let cur = done + tail;
    let sub = lseq.subrange(consumed, keep);
    let rl = rendered_lines(pay, binds[jj]);
    let done2 = done + sub + rl;
    lemma_rendered_indentation(pay, binds[jj]);
    lemma_splice_step(lseq, bigm, binds, pos, pay, w, jj, consumed);
    assert(cur.take(done.len() + keep - consumed) =~= done + sub);
    assert(cur.skip(done.len() + resume - consumed) =~= lseq.skip(resume));
    lemma_flatten_concat(done, sub);
    lemma_flatten_concat(done + sub, rl);
    assert(done2.flatten() == done.flatten() + sub.flatten() + rendered_text(pay, binds[jj]));
    assert(newtext == done2.flatten() + lseq.skip(resume).flatten());
    assert(done.flatten() + (sub.flatten() + rendered_text(pay, binds[jj]) + splice_text(
        lseq.skip(resume),
        shift_matches(bigm.skip(jj + 1), resume),
        binds.skip(jj + 1),
        pos,
        pay,
        w,
    )) =~= done2.flatten() + splice_text(
        lseq.skip(resume),
        shift_matches(bigm.skip(jj + 1), resume),
        binds.skip(jj + 1),
        pos,
        pay,
        w,
    ));
    if jj + 1 < bigm.len() || pos == InsertPosition::Before || pos == InsertPosition::At {
        assert(keep < lseq.len()) by {
            if pos == InsertPosition::Before || pos == InsertPosition::At {
                assert(keep == m);
            } else {
                assert(jj + 1 < bigm.len());
                assert(bigm[jj] + w <= bigm[jj + 1]);
                assert(bigm[jj + 1] + w <= lseq.len());
            }
        }
        assert(terminated_lines(done2)) by {
            assert forall|k: int| 0 <= k < done2.len() implies line_open(#[trigger] done2[k]) && (
            done2[k]).last() == '\n' by {
                if k < done.len() {
                    assert(done2[k] == done[k]);
                } else if k < done.len() + sub.len() {
                    assert(done2[k] == lseq[k - done.len() + consumed]);
                    assert(k - done.len() + consumed < keep < lseq.len());
                } else {
                    assert(done2[k] == rl[k - done.len() - sub.len()]);
                }
            }
        }
    }
    assert forall|k: int| jj + 1 <= k < bigm.len() implies resume <= #[trigger] bigm[k] by {
        assert(bigm[jj] + w <= bigm[k]);
    }
}

impl PatternPatch {
    /// Apply the pattern patch onto the target buffer. The result is `true`
    /// exactly when the patch applies: the target name agrees, the pattern
    /// has at least one line, and the windowed scan finds at least one
    /// match. Afterwards the buffer holds exactly the spliced text
    /// (`pattern_apply_spec`); in particular it is untouched whenever the
    /// patch does not apply, and so whenever the target name differs.
    #[verifier::rlimit(100)]
    #[verifier::spinoff_prover]
    pub fn apply(&self, target: &str, rope: &mut crop::Rope) -> (r: bool)
        ensures
            r == pattern_applies(*self, target@, rope_text(*old(rope))),
            rope_text(*final(rope)) == pattern_apply_spec(*self, target@, rope_text(*old(rope))),
            !r ==> rope_text(*final(rope)) == rope_text(*old(rope)),
    {
        if !str_eq(self.target.as_str(), target) {
            return false;
        }
        let raw_pats: Vec<String> = split_raw_lines(self.pattern.as_str());
        let npats: usize = raw_pats.len();
        let mut pats: Vec<String> = Vec::new();
        let mut pi: usize = 0;
        while pi < npats
            invariant
                npats == raw_pats@.len(),
                raw_pats.deep_view() == raw_lines(self.pattern@),
                0 <= pi <= npats,
                pats@.len() == pi,
                forall|k: int|
                    0 <= k < pi ==> #[trigger] pats.deep_view()[k] == trim_spec(
                        raw_pats.deep_view()[k],
                    ),
            decreases npats - pi,
        {
            let t = trim_exec(raw_pats[pi].as_str());
            let ghost old_dv = pats.deep_view();
            pats.push(t.to_owned());
            proof {
                assert(raw_pats@[pi as int]@ == raw_pats.deep_view()[pi as int]);
                assert(pats.deep_view() =~= old_dv.push(
                    trim_spec(raw_pats.deep_view()[pi as int]),
                ));
            }
            pi += 1;
        }
        proof {
            assert(pats.deep_view() =~= pat_lines_of(self.pattern@));
        }
        if pats.len() == 0 {
            proof {
                assert(raw_lines(self.pattern@).len() == 0);
            }
            return false;
        }
        let w: usize = pats.len();
        let lines: Vec<String> = rope_raw_lines(rope);
        let nlines: usize = lines.len();
        let ghost lseq: Seq<Seq<char>> = lines.deep_view();
        let ghost pseq: Seq<Seq<char>> = pats.deep_view();
        let ghost text0: Seq<char> = rope_text(*rope);

        let mut ms: Vec<usize> = Vec::new();
        let mut inds: Vec<String> = Vec::new();

        if w <= nlines {
            let mut i: usize = 0;
            proof {
                assert(ints_of(ms@) + scan_matches(lseq, pseq, 0) =~= scan_matches(lseq, pseq, 0));
                assert(inds.deep_view() =~= indents_for(lseq, ints_of(ms@), self.match_indent));
            }
            while i <= nlines - w
                invariant
                    w == pseq.len(),
                    1 <= w <= nlines,
                    nlines == lseq.len(),
                    nlines == lines@.len(),
                    lines.deep_view() == lseq,
                    pats.deep_view() == pseq,
                    pats@.len() == w,
                    0 <= i <= nlines,
                    ms@.len() == inds@.len(),
                    scan_matches(lseq, pseq, 0) == ints_of(ms@) + scan_matches(
                        lseq,
                        pseq,
                        i as int,
                    ),
                    inds.deep_view() == indents_for(lseq, ints_of(ms@), self.match_indent),
                decreases nlines - i,
            {
                let mut all: bool = true;
                let mut j: usize = 0;
                while j < w
                    invariant
                        w == pseq.len(),
                        nlines == lseq.len(),
                        nlines == lines@.len(),
                        lines.deep_view() == lseq,
                        pats.deep_view() == pseq,
                        pats@.len() == w,
                        0 <= i,
                        i + w <= nlines,
                        0 <= j <= w,
                        all == (forall|k: int|
                            0 <= k < j ==> wild_matches(
                                #[trigger] pseq[k],
                                trim_spec(lseq[i + k]),
                            )),
                    decreases w - j,
                {
                    let tl = trim_exec(lines[i + j].as_str());
                    let ok = wild_match_line(pats[j].as_str(), tl);
                    proof {
                        assert(lines@[i + j]@ == lseq[i + j]);
                        assert(pats@[j as int]@ == pseq[j as int]);
                    }
                    all = all && ok;
                    j += 1;
                }
                if all {
                    proof {
                        assert(window_matches(lseq, pseq, i as int));
                        assert(scan_matches(lseq, pseq, i as int) == seq![i as int]
                            + scan_matches(lseq, pseq, i + w));
                    }
                    let ind: String = if self.match_indent {
                        let li = leading_indent(lines[i].as_str());
                        li.to_owned()
                    } else {
                        String::new()
                    };
                    proof {
                        assert(lines@[i as int]@ == lseq[i as int]);
                    }
                    let ghost old_msi = ints_of(ms@);
                    let ghost old_inds = inds.deep_view();
                    ms.push(i);
                    inds.push(ind);
                    proof {
                        assert(ints_of(ms@) =~= old_msi + seq![i as int]);
                        assert(inds.deep_view() =~= old_inds + seq![ind@]);
                        assert(indents_for(lseq, ints_of(ms@), self.match_indent) =~= old_inds
                            + seq![ind@]) by {
                            assert forall|k: int|
                                0 <= k < ints_of(ms@).len() implies #[trigger] indents_for(
                                lseq,
                                ints_of(ms@),
                                self.match_indent,
                            )[k] == (old_inds + seq![ind@])[k] by {
                                if k < old_msi.len() {
                                    assert(ints_of(ms@)[k] == old_msi[k]);
                                    assert(indents_for(lseq, old_msi, self.match_indent)[k]
                                        == old_inds[k]);
                                } else {
                                    assert(ints_of(ms@)[k] == i as int);
                                }
                            }
                        }
                        assert(ints_of(ms@) + scan_matches(lseq, pseq, i + w) =~= old_msi + (seq![
                            i as int,
                        ] + scan_matches(lseq, pseq, i + w)));
                    }
                    i += w;
                } else {
                    proof {
                        assert(!window_matches(lseq, pseq, i as int));
                        assert(scan_matches(lseq, pseq, i as int) == scan_matches(
                            lseq,
                            pseq,
                            i + 1,
                        ));
                    }
                    i += 1;
                }
            }
            proof {
                assert(i + w > nlines);
                assert(scan_matches(lseq, pseq, i as int) =~= Seq::<int>::empty());
                assert(ints_of(ms@) + Seq::<int>::empty() =~= ints_of(ms@));
            }
        } else {
            proof {
                assert(scan_matches(lseq, pseq, 0) =~= Seq::<int>::empty());
                assert(ints_of(ms@) =~= Seq::<int>::empty());
                assert(inds.deep_view() =~= indents_for(lseq, ints_of(ms@), self.match_indent));
            }
        }
        proof {
            assert(lseq == raw_lines(text0));
            assert(scan_matches(lseq, pseq, 0) == ints_of(ms@));
        }
        if ms.len() == 0 {
            return false;
        }
        let ghost full_scan: Seq<int> = scan_matches(lseq, pseq, 0);

        if let Option::Some(k) = self.times {
            if ms.len() > k {
                let ghost old_ms = ms@;
                let ghost old_inds = inds.deep_view();
                ms.truncate(k);
                inds.truncate(k);
                proof {
                    assert(ints_of(ms@) =~= ints_of(old_ms).take(k as int));
                    assert(inds.deep_view() =~= old_inds.take(k as int));
                    assert(indents_for(lseq, ints_of(ms@), self.match_indent) =~= old_inds.take(
                        k as int,
                    )) by {
                        assert forall|kk: int|
                            0 <= kk < ints_of(ms@).len() implies #[trigger] indents_for(
                            lseq,
                            ints_of(ms@),
                            self.match_indent,
                        )[kk] == old_inds.take(k as int)[kk] by {
                            assert(ints_of(ms@)[kk] == ints_of(old_ms)[kk]);
                            assert(indents_for(lseq, ints_of(old_ms), self.match_indent)[kk]
                                == old_inds[kk]);
                        }
                    }
                }
            }
        }
        proof {
            assert(ints_of(ms@) =~= used_matches(full_scan, self.times));
        }

        let ghost bigm: Seq<int> = ints_of(ms@);
        let ghost binds: Seq<Seq<char>> = inds.deep_view();
        proof {
            lemma_matches_nonoverlapping_ascending(lseq, pseq, 0);
            lemma_raw_lines_wf(text0);
            assert forall|k: int| 0 <= k < bigm.len() implies 0 <= #[trigger] bigm[k] && bigm[k]
                + w <= nlines by {
                assert(bigm[k] == full_scan[k]);
            }
            assert forall|k1: int, k2: int| 0 <= k1 < k2 < bigm.len() implies #[trigger] bigm[k1]
                + w <= #[trigger] bigm[k2] by {
                assert(bigm[k1] == full_scan[k1]);
                assert(bigm[k2] == full_scan[k2]);
            }
        }
        let nmatches: usize = ms.len();
        let mut delta: i128 = 0;
        let ghost mut done: Seq<Seq<char>> = Seq::empty();
        let ghost mut consumed: int = 0;
        let mut jj: usize = 0;
        proof {
            assert(done.flatten() =~= Seq::<char>::empty());
            assert(lseq.skip(0) =~= lseq);
            assert(done.flatten() + lseq.flatten() =~= lseq.flatten());
            assert(shift_matches(bigm.skip(0), 0) =~= bigm);
            assert(binds.skip(0) =~= binds);
            assert(done.flatten() + splice_text(lseq, bigm, binds, self.position, self.payload@,
                w as int) =~= splice_text(
                lseq,
                bigm,
                binds,
                self.position,
                self.payload@,
                w as int,
            ));
        }
        while jj < nmatches
            invariant
                nmatches == ms@.len(),
                ints_of(ms@) == bigm,
                inds.deep_view() == binds,
                binds == indents_for(lseq, bigm, self.match_indent),
                bigm.len() == binds.len(),
                lseq == raw_lines(text0),
                wf_lines(lseq),
                1 <= w,
                nlines == lseq.len(),
                forall|k: int|
                    0 <= k < bigm.len() ==> 0 <= #[trigger] bigm[k] && bigm[k] + w <= nlines,
                forall|k1: int, k2: int|
                    0 <= k1 < k2 < bigm.len() ==> #[trigger] bigm[k1] + w <= #[trigger] bigm[k2],
                0 <= jj <= bigm.len(),
                0 <= consumed <= nlines,
                forall|k: int| jj <= k < bigm.len() ==> consumed <= #[trigger] bigm[k],
                delta as int == done.len() - consumed,
                rope_text(*rope) == done.flatten() + lseq.skip(consumed).flatten(),
                jj < bigm.len() ==> terminated_lines(done),
                splice_text(lseq, bigm, binds, self.position, self.payload@, w as int)
                    == done.flatten() + splice_text(
                    lseq.skip(consumed),
                    shift_matches(bigm.skip(jj as int), consumed),
                    binds.skip(jj as int),
                    self.position,
                    self.payload@,
                    w as int,
                ),
            decreases nmatches - jj,
        {
            let m: usize = ms[jj];
            let cnt: usize = rope_line_count(rope);
            let ghost mm: int = m as int;
            let ghost tail: Seq<Seq<char>> = lseq.skip(consumed);
            let ghost cur: Seq<Seq<char>> = done + tail;
            proof {
                assert(bigm[jj as int] == mm);
                assert(consumed <= mm);
                assert(mm + w <= nlines);
                assert(wf_lines(tail)) by {
                    assert forall|k: int| 0 <= k < tail.len() implies line_open(
                        #[trigger] tail[k],
                    ) by {
                        assert(tail[k] == lseq[k + consumed]);
                    }
                    assert forall|k: int|
                        0 <= k < tail.len() - 1 implies (#[trigger] tail[k]).last() == '\n' by {
                        assert(tail[k] == lseq[k + consumed]);
                    }
                }
                assert(wf_lines(cur)) by {
                    assert forall|k: int| 0 <= k < cur.len() implies line_open(
                        #[trigger] cur[k],
                    ) by {
                        if k < done.len() {
                            assert(cur[k] == done[k]);
                        } else {
                            assert(cur[k] == tail[k - done.len()]);
                        }
                    }
                    assert forall|k: int| 0 <= k < cur.len() - 1 implies (#[trigger] cur[k]).last()
                        == '\n' by {
                        if k < done.len() {
                            assert(cur[k] == done[k]);
                        } else {
                            assert(cur[k] == tail[k - done.len()]);
                        }
                    }
                }
                lemma_flatten_concat(done, tail);
                assert(cur.flatten() == rope_text(*rope));
                lemma_raw_lines_of_flatten(cur);
                assert(raw_lines(rope_text(*rope)) == cur);
                assert(cnt as int == done.len() + (nlines - consumed));
                assert(binds[jj as int] == indents_for(lseq, bigm, self.match_indent)[jj as int]);
                if self.match_indent {
                    assert(binds[jj as int] == ws_prefix(lseq[mm]));
                    lemma_indent_len(lseq[mm]);
                    assert forall|q: int|
                        0 <= q < binds[jj as int].len() implies binds[jj as int][q] != '\n' by {
                        assert(binds[jj as int][q] == lseq[mm][q]);
                        assert(is_indent_char(lseq[mm][q]));
                    }
                } else {
                    assert(binds[jj as int] =~= Seq::<char>::empty());
                }
                assert(inds@[jj as int]@ == binds[jj as int]);
            }
            let rend = render_payload(self.payload.as_str(), inds[jj].as_str());
            let lbase: i128 = (m as i128) + delta;
            proof {
                assert(lbase as int == done.len() + (mm - consumed));
                assert(0 <= lbase as int);
                assert(lbase as int + w <= cnt as int);
            }
            let base: usize = lbase as usize;
            let ghost keep: int = keep_of(self.position, mm, w as int);
            let ghost resume: int = resume_of(self.position, mm, w as int);
            let ghost rl: Seq<Seq<char>> = rendered_lines(self.payload@, binds[jj as int]);
            match self.position {
                InsertPosition::Before => {
                    rope_insert_at_line(rope, base, rend.0.as_str());
                    proof {
                        assert(rope_text(*rope) == cur.take(base as int).flatten() + rendered_text(
                            self.payload@,
                            binds[jj as int],
                        ) + cur.skip(base as int).flatten());
                    }
                    delta = delta + (rend.1 as i128) + 1;
                }
                InsertPosition::After => {
                    let base2: usize = base + w;
                    rope_insert_at_line(rope, base2, rend.0.as_str());
                    proof {
                        assert(rope_text(*rope) == cur.take(base2 as int).flatten()
                            + rendered_text(self.payload@, binds[jj as int]) + cur.skip(
                            base2 as int,
                        ).flatten());
                    }
                    delta = delta + (rend.1 as i128) + 1;
                }
                InsertPosition::At => {
                    let base2: usize = base + w;
                    rope_delete_lines(rope, base, base2);
                    let ghost mid: Seq<Seq<char>> = cur.take(base as int) + cur.skip(base2 as int);
                    proof {
                        assert(wf_lines(mid)) by {
                            assert forall|k: int| 0 <= k < mid.len() implies line_open(
                                #[trigger] mid[k],
                            ) by {
                                if k < base as int {
                                    assert(mid[k] == cur[k]);
                                } else {
                                    assert(mid[k] == cur[k + w]);
                                }
                            }
                            assert forall|k: int|
                                0 <= k < mid.len() - 1 implies (#[trigger] mid[k]).last()
                                == '\n' by {
                                if k < base as int {
                                    assert(mid[k] == cur[k]);
                                    assert(k < cur.len() - 1);
                                } else {
                                    assert(mid[k] == cur[k + w]);
                                    assert(k + w < cur.len() - 1);
                                }
                            }
                        }
                        lemma_flatten_concat(cur.take(base as int), cur.skip(base2 as int));
                        assert(mid.flatten() == rope_text(*rope));
                        lemma_raw_lines_of_flatten(mid);
                        assert(raw_lines(rope_text(*rope)) == mid);
                        assert(base as int <= mid.len());
                    }
                    rope_insert_at_line(rope, base, rend.0.as_str());
                    proof {
                        assert(mid.take(base as int) =~= cur.take(base as int));
                        assert(mid.skip(base as int) =~= cur.skip(base2 as int));
                        assert(rope_text(*rope) == cur.take(base as int).flatten() + rendered_text(
                            self.payload@,
                            binds[jj as int],
                        ) + cur.skip(base2 as int).flatten());
                    }
                    delta = delta + (rend.1 as i128) + 1 - (w as i128);
                }
            }
            proof {
                let pos = self.position;
                let pay = self.payload@;
                assert(cur.take(done.len() + keep - consumed) == cur.take(
                    if pos == InsertPosition::After {
                        (base + w) as int
                    } else {
                        base as int
                    },
                ));
                assert(cur.skip(done.len() + resume - consumed) == cur.skip(
                    if pos == InsertPosition::Before {
                        base as int
                    } else {
                        (base + w) as int
                    },
                ));
                lemma_apply_step(
                    lseq,
                    bigm,
                    binds,
                    pos,
                    pay,
                    w as int,
                    jj as int,
                    consumed,
                    done,
                    rope_text(*rope),
                );
                done = done + lseq.subrange(consumed, keep) + rl;
                consumed = resume;
                assert(delta as int == done.len() - consumed) by {
                    assert(segments(pay).len() == rend.1 + 1);
                }
            }
            jj += 1;
        }
        proof {
            assert(shift_matches(bigm.skip(jj as int), consumed) =~= Seq::<int>::empty());
            assert(splice_text(
                lseq.skip(consumed),
                shift_matches(bigm.skip(jj as int), consumed),
                binds.skip(jj as int),
                self.position,
                self.payload@,
                w as int,
            ) == lseq.skip(consumed).flatten());
            assert(rope_text(*rope) == splice_text(
                lseq,
                bigm,
                binds,
                self.position,
                self.payload@,
                w as int,
            ));
            assert(pattern_applies(*self, target@, text0));
            assert(pat_lines_of(self.pattern@) =~= pseq);
        }
        true
    }
}


/// A patch whose declared target differs from the requested name never
/// applies, and the buffer text is left unchanged.
pub proof fn lemma_target_mismatch(p: PatternPatch, tname: Seq<char>, text: Seq<char>)
    requires
        p.target@ != tname,
    ensures
        !pattern_applies(p, tname, text),
        pattern_apply_spec(p, tname, text) == text,
{
}


impl Patch {
    /// The shared application contract of the closed variant set: apply to
    /// a named target and a buffer, and return whether anything was
    /// injected. Pattern-kind patches splice here; copy-kind patches work on
    /// the whole text with delegated source reads, and the internals of
    /// regex- and module-kind patches are delegated to external
    /// collaborators — those variants leave the buffer untouched.
    pub fn apply(&self, target: &str, rope: &mut crop::Rope) -> (r: bool)
        ensures
            rope_text(*final(rope)) == match *self {
                Patch::Pattern(pp) => pattern_apply_spec(pp, target@, rope_text(*old(rope))),
                _ => rope_text(*old(rope)),
            },
            r == match *self {
                Patch::Pattern(pp) => pattern_applies(pp, target@, rope_text(*old(rope))),
                _ => false,
            },
    {
        match self {
            Patch::Pattern(pp) => pp.apply(target, rope),
            _ => false,
        }
    }
}

} // verus!
