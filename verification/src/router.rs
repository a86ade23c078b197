//! The patch router: a table built once from all loaded bundles, mapping a
//! target name to the ordered list of patch indices that apply to it, and
//! the apply pipeline folding pattern-kind and then copy-kind patches over a
//! target's content.

use crate::manifest::{CopyPatch, CopyPosition, Patch, PatchManifest, spec_patch_target};
use crate::pattern::{ints_of, pattern_apply_spec};
use crate::ropebuf::{rope_from_str, rope_text, rope_to_string};
use crate::text::str_eq;
use vstd::prelude::*;

verus! {

/// Indices of the patches in `ps` that declare the target `name`, in
/// ascending order.
pub open spec fn idxs_for(ps: Seq<Patch>, name: Seq<char>) -> Seq<int>
    decreases ps.len(),
{
    if ps.len() == 0 {
        Seq::empty()
    } else {
        idxs_for(ps.drop_last(), name) + if spec_patch_target(ps.last()) == name {
            seq![ps.len() - 1]
        } else {
            Seq::empty()
        }
    }
}

/// Whether the table has an entry carrying `name`.
pub open spec fn has_name(table: Seq<(String, Vec<usize>)>, name: Seq<char>) -> bool {
    exists|e: int| 0 <= e < table.len() && (#[trigger] table[e].0)@ == name
}

/// Whether some patch in `ps` declares the target `name`.
pub open spec fn spec_is_target(ps: Seq<Patch>, name: Seq<char>) -> bool {
    exists|i: int| 0 <= i < ps.len() && spec_patch_target(#[trigger] ps[i]) == name
}

pub proof fn lemma_idxs_for(ps: Seq<Patch>, name: Seq<char>)
    ensures
        forall|j: int|
            0 <= j < idxs_for(ps, name).len() ==> 0 <= #[trigger] idxs_for(ps, name)[j]
                < ps.len() && spec_patch_target(ps[idxs_for(ps, name)[j]]) == name,
        forall|j1: int, j2: int|
            0 <= j1 < j2 < idxs_for(ps, name).len() ==> #[trigger] idxs_for(ps, name)[j1]
                < #[trigger] idxs_for(ps, name)[j2],
        spec_is_target(ps, name) <==> idxs_for(ps, name).len() > 0,
    decreases ps.len(),
{
    if ps.len() == 0 {
    } else {
        lemma_idxs_for(ps.drop_last(), name);
        let pre = idxs_for(ps.drop_last(), name);
        let all = idxs_for(ps, name);
        assert forall|j: int| 0 <= j < all.len() implies 0 <= #[trigger] all[j] < ps.len()
            && spec_patch_target(ps[all[j]]) == name by {
            if j < pre.len() {
                assert(all[j] == pre[j]);
                assert(ps.drop_last()[pre[j]] == ps[pre[j]]);
            } else {
                assert(all[j] == ps.len() - 1);
            }
        }
        assert forall|j1: int, j2: int| 0 <= j1 < j2 < all.len() implies #[trigger] all[j1]
            < #[trigger] all[j2] by {
            if j2 < pre.len() {
                assert(all[j1] == pre[j1] && all[j2] == pre[j2]);
            } else {
                assert(all[j2] == ps.len() - 1);
                assert(all[j1] == pre[j1]);
            }
        }
        if spec_is_target(ps, name) && all.len() == 0 {
            let i = choose|i: int|
                0 <= i < ps.len() && spec_patch_target(#[trigger] ps[i]) == name;
            assert(spec_patch_target(ps.last()) != name);
            assert(i < ps.len() - 1);
            assert(ps.drop_last()[i] == ps[i]);
            assert(spec_is_target(ps.drop_last(), name));
        }
        if all.len() > 0 {
            assert(spec_patch_target(ps[all[0]]) == name);
        }
    }
}

/// Newline-joined concatenation of payload-source contents.
pub open spec fn join_nl(cs: Seq<Seq<char>>) -> Seq<char>
    decreases cs.len(),
{
    if cs.len() == 0 {
        Seq::empty()
    } else if cs.len() == 1 {
        cs[0]
    } else {
        join_nl(cs.drop_last()) + seq!['\n'] + cs.last()
    }
}

/// A copy-kind payload placed against the whole target text.
pub open spec fn place_copy(pos: CopyPosition, payload: Seq<char>, text: Seq<char>) -> Seq<char> {
    match pos {
        CopyPosition::Append => text + seq!['\n'] + payload,
        CopyPosition::Prepend => payload + seq!['\n'] + text,
    }
}

/// Fold of a list of copy patches over a text, each patch consuming the
/// contents read for its sources.
pub open spec fn fold_copies(ps: Seq<CopyPatch>, cs: Seq<Seq<Seq<char>>>, text: Seq<char>) -> Seq<
    char,
>
    decreases ps.len(),
{
    if ps.len() == 0 {
        text
    } else {
        fold_copies(ps.skip(1), cs.skip(1), place_copy(ps[0].position, join_nl(cs[0]), text))
    }
}

/// Fold of the pattern-kind patches in a patch list over a text; other
/// kinds leave the text unchanged.
pub open spec fn fold_pattern_patches(ps: Seq<Patch>, name: Seq<char>, text: Seq<char>) -> Seq<
    char,
>
    decreases ps.len(),
{
    if ps.len() == 0 {
        text
    } else {
        let t2 = match ps[0] {
            Patch::Pattern(pp) => pattern_apply_spec(pp, name, text),
            _ => text,
        };
        fold_pattern_patches(ps.skip(1), name, t2)
    }
}

/// Number of copy-kind patches in a patch list.
pub open spec fn num_copies(ps: Seq<Patch>) -> int
    decreases ps.len(),
{
    if ps.len() == 0 {
        0int
    } else {
        (match ps[0] {
            Patch::Copy(_) => 1int,
            _ => 0int,
        }) + num_copies(ps.skip(1))
    }
}

/// Fold of the copy-kind patches in a patch list over a text, consuming one
/// block of source contents per copy patch; other kinds leave the text
/// unchanged.
pub open spec fn fold_copy_patches(ps: Seq<Patch>, cs: Seq<Seq<Seq<char>>>, text: Seq<char>) -> Seq<
    char,
>
    decreases ps.len(),
{
    if ps.len() == 0 {
        text
    } else {
        match ps[0] {
            Patch::Copy(cp) => fold_copy_patches(
                ps.skip(1),
                cs.skip(1),
                place_copy(cp.position, join_nl(cs[0]), text),
            ),
            _ => fold_copy_patches(ps.skip(1), cs, text),
        }
    }
}

/// Newline-join the contents read from a copy patch's payload sources.
pub fn merge_payloads(sources: &Vec<String>) -> (m: String)
    ensures
        m@ == join_nl(sources.deep_view()),
{
    let ghost dv = sources.deep_view();
    if sources.len() == 0 {
        let out = String::new();
        return out;
    }
    let mut out: String = sources[0].clone();
    proof {
        assert(dv.take(1).len() == 1);
        assert(dv.take(1)[0] == dv[0]);
        assert(sources@[0]@ == dv[0]);
    }
    let mut i: usize = 1;
    while i < sources.len()
        invariant
            1 <= i <= dv.len(),
            dv.len() == sources@.len(),
            sources.deep_view() == dv,
            out@ == join_nl(dv.take(i as int)),
        decreases dv.len() - i,
    {
        out.append("\n");
        out.append(sources[i].as_str());
        proof {
            reveal_strlit("\n");
            assert("\n"@ =~= seq!['\n']);
            assert(sources@[i as int]@ == dv[i as int]);
            assert(dv.take(i + 1).drop_last() =~= dv.take(i as int));
            assert(dv.take(i + 1).last() == dv[i as int]);
            assert(join_nl(dv.take(i + 1)) == join_nl(dv.take(i as int)) + seq!['\n']
                + dv[i as int]);
        }
        i += 1;
    }
    proof {
        assert(dv.take(dv.len() as int) =~= dv);
    }
    out
}

/// Place one merged copy payload against the whole target text.
fn place_copy_exec(pos: CopyPosition, payload: &String, text: String) -> (out: String)
    ensures
        out@ == place_copy(pos, payload@, text@),
{
    proof {
        reveal_strlit("\n");
        assert("\n"@ =~= seq!['\n']);
    }
    match pos {
        CopyPosition::Append => {
            let mut out = text;
            out.append("\n");
            out.append(payload.as_str());
            out
        },
        CopyPosition::Prepend => {
            let mut out = payload.clone();
            out.append("\n");
            out.append(text.as_str());
            out
        },
    }
}

/// Fold a list of copy patches over a target text. `contents[k]` holds the
/// text read from each payload source of `patches[k]`; reading them is the
/// caller's fallible, delegated operation.
pub fn apply_copy_patches(input: &str, patches: &Vec<CopyPatch>, contents: &Vec<Vec<String>>) -> (out:
    String)
    requires
        patches@.len() == contents@.len(),
    ensures
        out@ == fold_copies(patches@, contents.deep_view(), input@),
{
    let ghost cdv = contents.deep_view();
    let mut out: String = input.to_owned();
    let mut i: usize = 0;
    proof {
        assert(patches@.skip(0) =~= patches@);
        assert(cdv.skip(0) =~= cdv);
    }
    while i < patches.len()
        invariant
            0 <= i <= patches@.len(),
            patches@.len() == cdv.len(),
            contents.deep_view() == cdv,
            fold_copies(patches@, cdv, input@) == fold_copies(
                patches@.skip(i as int),
                cdv.skip(i as int),
                out@,
            ),
        decreases patches@.len() - i,
    {
        let merged = merge_payloads(&contents[i]);
        proof {
            assert(contents@[i as int].deep_view() == cdv[i as int]);
            assert(cdv.skip(i as int)[0] == cdv[i as int]);
            assert(patches@.skip(i as int)[0] == patches@[i as int]);
            assert(patches@.skip(i as int).skip(1) =~= patches@.skip(i + 1));
            assert(cdv.skip(i as int).skip(1) =~= cdv.skip(i + 1));
        }
        out = place_copy_exec(patches[i].position, &merged, out);
        i += 1;
    }
    proof {
        assert(patches@.skip(patches@.len() as int) =~= Seq::<CopyPatch>::empty());
        assert(cdv.skip(patches@.len() as int) =~= Seq::<Seq<Seq<char>>>::empty());
    }
    out
}

/// Stable insertion of a bundle among already ordered bundles: it comes
/// after every bundle of lower or equal priority.
pub open spec fn insert_by_priority(s: Seq<PatchManifest>, b: PatchManifest) -> Seq<PatchManifest>
    decreases s.len(),
{
    if s.len() == 0 {
        seq![b]
    } else if s.last().manifest.priority <= b.manifest.priority {
        s.push(b)
    } else {
        insert_by_priority(s.drop_last(), b).push(s.last())
    }
}

/// The bundles in priority-then-load order: a stable sort by priority.
pub open spec fn sort_by_priority(s: Seq<PatchManifest>) -> Seq<PatchManifest>
    decreases s.len(),
{
    if s.len() == 0 {
        Seq::empty()
    } else {
        insert_by_priority(sort_by_priority(s.drop_last()), s.last())
    }
}

proof fn lemma_insert_by_priority_at(s: Seq<PatchManifest>, b: PatchManifest, p: int)
    requires
        0 <= p <= s.len(),
        forall|k: int| p <= k < s.len() ==> s[k].manifest.priority > b.manifest.priority,
        p > 0 ==> s[p - 1].manifest.priority <= b.manifest.priority,
    ensures
        insert_by_priority(s, b) == s.take(p) + seq![b] + s.skip(p),
    decreases s.len(),
{
    if s.len() == 0 {
        assert(insert_by_priority(s, b) =~= s.take(p) + seq![b] + s.skip(p));
    } else if s.last().manifest.priority <= b.manifest.priority {
        assert(p == s.len());
        assert(s.push(b) =~= s.take(p) + seq![b] + s.skip(p));
    } else {
        assert(p < s.len());
        assert forall|k: int| p <= k < s.drop_last().len() implies s.drop_last()[k].manifest.priority
            > b.manifest.priority by {
            assert(s.drop_last()[k] == s[k]);
        }
        if p > 0 {
            assert(s.drop_last()[p - 1] == s[p - 1]);
        }
        lemma_insert_by_priority_at(s.drop_last(), b, p);
        assert((s.drop_last().take(p) + seq![b] + s.drop_last().skip(p)).push(s.last()) =~= s.take(
            p,
        ) + seq![b] + s.skip(p));
    }
}

/// Order the bundles by priority, keeping load order among equal
/// priorities.
pub fn order_bundles(bundles: Vec<PatchManifest>) -> (out: Vec<PatchManifest>)
    ensures
        out@ == sort_by_priority(bundles@),
{
    let ghost input = bundles@;
    let mut rest = bundles;
    let mut acc: Vec<PatchManifest> = Vec::new();
    let ghost mut idx: int = 0;
    proof {
        assert(input.take(0) =~= Seq::<PatchManifest>::empty());
        assert(input.skip(0) =~= input);
    }
    while rest.len() > 0
        invariant
            0 <= idx <= input.len(),
            rest@ == input.skip(idx),
            acc@ == sort_by_priority(input.take(idx)),
        decreases input.len() - idx,
    {
        let b = rest.remove(0);
        proof {
            assert(b == input[idx]);
        }
        let mut pos: usize = acc.len();
        while pos > 0 && acc[pos - 1].manifest.priority > b.manifest.priority
            invariant
                0 <= pos <= acc@.len(),
                forall|k: int|
                    pos <= k < acc@.len() ==> (#[trigger] acc@[k]).manifest.priority
                        > b.manifest.priority,
            decreases pos,
        {
            pos -= 1;
        }
        let ghost old_acc = acc@;
        acc.insert(pos, b);
        proof {
            lemma_insert_by_priority_at(old_acc, b, pos as int);
            assert(acc@ =~= old_acc.take(pos as int) + seq![b] + old_acc.skip(pos as int));
            assert(input.take(idx + 1).drop_last() =~= input.take(idx));
            assert(input.take(idx + 1).last() == input[idx]);
            assert(rest@ =~= input.skip(idx + 1));
            idx = idx + 1;
        }
    }
    proof {
        assert(input.take(idx) =~= input);
    }
    acc
}

/// The flattened global patch list of a bundle sequence, in order.
pub open spec fn flat_patches(bs: Seq<PatchManifest>) -> Seq<Patch>
    decreases bs.len(),
{
    if bs.len() == 0 {
        Seq::empty()
    } else {
        flat_patches(bs.drop_last()) + bs.last().patches@
    }
}

/// The router: the global ordered patch list, and the table mapping each
/// declared target name to the ascending list of indices of the patches
/// that apply to it. Built once from all loaded bundles; read-only
/// thereafter.
pub struct PatchRouter {
    pub patches: Vec<Patch>,
    pub table: Vec<(String, Vec<usize>)>,
}

impl PatchRouter {
    /// The table holds exactly, for each declared target name, the indices
    /// of the patches declaring it, in ascending order; names are unique
    /// and every patch's target is covered.
    pub open spec fn wf(self) -> bool {
        &&& forall|e: int|
            0 <= e < self.table@.len() ==> ints_of(#[trigger] self.table@[e].1@) == idxs_for(
                self.patches@,
                self.table@[e].0@,
            )
        &&& forall|e: int| 0 <= e < self.table@.len() ==> (#[trigger] self.table@[e].1@).len() > 0
        &&& forall|e1: int, e2: int|
            0 <= e1 < e2 < self.table@.len() ==> (#[trigger] self.table@[e1].0)@ != (
            #[trigger] self.table@[e2].0)@
        &&& forall|i: int|
            0 <= i < self.patches@.len() ==> has_name(
                self.table@,
                spec_patch_target(#[trigger] self.patches@[i]),
            )
    }

    /// The patches registered for a target name, in table order.
    pub open spec fn patches_for(self, name: Seq<char>) -> Seq<Patch> {
        idxs_for(self.patches@, name).map_values(|i: int| self.patches@[i])
    }
}

/// Index of the table entry carrying `name`, if any.
fn find_entry(table: &Vec<(String, Vec<usize>)>, name: &str) -> (r: Option<usize>)
    ensures
        match r {
            Option::Some(e) => e < table@.len() && table@[e as int].0@ == name@,
            Option::None => forall|e: int| 0 <= e < table@.len() ==> (#[trigger] table@[e].0)@
                != name@,
        },
{
    let mut e: usize = 0;
    while e < table.len()
        invariant
            0 <= e <= table@.len(),
            forall|q: int| 0 <= q < e ==> (#[trigger] table@[q].0)@ != name@,
        decreases table@.len() - e,
    {
        if str_eq(table[e].0.as_str(), name) {
            return Option::Some(e);
        }
        e += 1;
    }
    Option::None
}

impl PatchRouter {
    /// Build the router from the loaded bundles, given in load order:
    /// bundles are put in priority-then-load order, their patches are
    /// flattened into the global list, and each patch's index is appended
    /// to its declared target's entry. Meant to run exactly once per
    /// process; the host guards against a second build.
    pub fn build(bundles: Vec<PatchManifest>) -> (router: PatchRouter)
        ensures
            router.wf(),
            router.patches@ == flat_patches(sort_by_priority(bundles@)),
    {
        let ordered = order_bundles(bundles);
        let ghost obs = ordered@;
        let mut rest = ordered;
        let mut patches: Vec<Patch> = Vec::new();
        let ghost mut idx: int = 0;
        proof {
            assert(obs.take(0) =~= Seq::<PatchManifest>::empty());
            assert(obs.skip(0) =~= obs);
        }
        while rest.len() > 0
            invariant
                0 <= idx <= obs.len(),
                rest@ == obs.skip(idx),
                patches@ == flat_patches(obs.take(idx)),
            decreases obs.len() - idx,
        {
            let b = rest.remove(0);
            proof {
                assert(b == obs[idx]);
            }
            let mut ps = b.patches;
            let ghost bpatches = ps@;
            let ghost mut moved: int = 0;
            while ps.len() > 0
                invariant
                    0 <= moved <= bpatches.len(),
                    ps@ == bpatches.skip(moved),
                    patches@ == flat_patches(obs.take(idx)) + bpatches.take(moved),
                decreases bpatches.len() - moved,
            {
                let p = ps.remove(0);
                patches.push(p);
                proof {
                    assert(bpatches.skip(moved)[0] == bpatches[moved]);
                    assert(bpatches.skip(moved).skip(1) =~= bpatches.skip(moved + 1));
                    assert(flat_patches(obs.take(idx)) + bpatches.take(moved + 1)
                        =~= (flat_patches(obs.take(idx)) + bpatches.take(moved)).push(
                        bpatches[moved],
                    ));
                    moved = moved + 1;
                }
            }
            proof {
                assert(bpatches.take(bpatches.len() as int) =~= bpatches);
                assert(obs.take(idx + 1).drop_last() =~= obs.take(idx));
                assert(obs.take(idx + 1).last() == obs[idx]);
                assert(rest@ =~= obs.skip(idx + 1));
                idx = idx + 1;
            }
        }
        proof {
            assert(obs.take(idx) =~= obs);
        }

        let mut router = PatchRouter { patches, table: Vec::new() };
        let n: usize = router.patches.len();
        let ghost pvs: Seq<Patch> = router.patches@;
        let mut i: usize = 0;
        while i < n
            invariant
                0 <= i <= n,
                n == router.patches@.len(),
                router.patches@ == pvs,
                forall|e: int|
                    0 <= e < router.table@.len() ==> ints_of(#[trigger] router.table@[e].1@)
                        == idxs_for(pvs.take(i as int), router.table@[e].0@),
                forall|e: int|
                    0 <= e < router.table@.len() ==> (#[trigger] router.table@[e].1@).len() > 0,
                forall|e1: int, e2: int|
                    0 <= e1 < e2 < router.table@.len() ==> (#[trigger] router.table@[e1].0)@ != (
                    #[trigger] router.table@[e2].0)@,
                forall|q: int|
                    0 <= q < i ==> has_name(
                        router.table@,
                        spec_patch_target(#[trigger] router.patches@[q]),
                    ),
            decreases n - i,
        {
            let name_owned: String = router.patches[i].target_name().clone();
            let ghost nm: Seq<char> = name_owned@;
            let ghost old_table = router.table@;
            proof {
                assert(pvs.take(i + 1).drop_last() =~= pvs.take(i as int));
                assert(pvs.take(i + 1).last() == pvs[i as int]);
            }
            match find_entry(&router.table, name_owned.as_str()) {
                Option::Some(e) => {
                    let mut entry = router.table.remove(e);
                    let ghost old_idxs = entry.1@;
                    entry.1.push(i);
                    router.table.insert(e, entry);
                    proof {
                        assert(router.table@ =~= old_table.update(e as int, entry));
                        assert(ints_of(old_idxs.push(i)) =~= ints_of(old_idxs) + seq![i as int]);
                        assert forall|e2: int|
                            0 <= e2 < router.table@.len() implies ints_of(
                            #[trigger] router.table@[e2].1@,
                        ) == idxs_for(pvs.take(i + 1), router.table@[e2].0@) by {
                            if e2 == e {
                                assert(router.table@[e2].0@ == nm);
                                assert(idxs_for(pvs.take(i + 1), nm) == idxs_for(
                                    pvs.take(i as int),
                                    nm,
                                ) + seq![i as int]);
                            } else {
                                assert(router.table@[e2] == old_table[e2]);
                                assert(router.table@[e2].0@ != nm);
                                assert(idxs_for(pvs.take(i + 1), router.table@[e2].0@)
                                    =~= idxs_for(pvs.take(i as int), router.table@[e2].0@));
                            }
                        }
                        assert forall|q: int| 0 <= q < i + 1 implies has_name(
                            router.table@,
                            spec_patch_target(#[trigger] router.patches@[q]),
                        ) by {
                            if q == i {
                                assert(router.table@[e as int].0@ == spec_patch_target(
                                    router.patches@[q],
                                ));
                            } else {
                                assert(has_name(old_table, spec_patch_target(router.patches@[q])));
                                let e3 = choose|e3: int|
                                    0 <= e3 < old_table.len() && (#[trigger] old_table[e3].0)@
                                        == spec_patch_target(router.patches@[q]);
                                assert(router.table@[e3].0@ == old_table[e3].0@);
                            }
                        }
                    }
                },
                Option::None => {
                    let mut v: Vec<usize> = Vec::new();
                    v.push(i);
                    router.table.push((name_owned, v));
                    proof {
                        assert(ints_of(v@) =~= seq![i as int]);
                        assert forall|e2: int|
                            0 <= e2 < router.table@.len() implies ints_of(
                            #[trigger] router.table@[e2].1@,
                        ) == idxs_for(pvs.take(i + 1), router.table@[e2].0@) by {
                            if e2 < old_table.len() {
                                assert(router.table@[e2] == old_table[e2]);
                                assert(router.table@[e2].0@ != nm);
                                assert(idxs_for(pvs.take(i + 1), router.table@[e2].0@)
                                    =~= idxs_for(pvs.take(i as int), router.table@[e2].0@));
                            } else {
                                assert(router.table@[e2].0@ == nm);
                                lemma_idxs_for(pvs.take(i as int), nm);
                                assert(!spec_is_target(pvs.take(i as int), nm)) by {
                                    if spec_is_target(pvs.take(i as int), nm) {
                                        lemma_idxs_for(pvs.take(i as int), nm);
                                    }
                                }
                                assert(idxs_for(pvs.take(i + 1), nm) =~= seq![i as int]);
                            }
                        }
                        assert forall|q: int| 0 <= q < i + 1 implies has_name(
                            router.table@,
                            spec_patch_target(#[trigger] router.patches@[q]),
                        ) by {
                            if q == i {
                                assert(router.table@[router.table@.len() - 1].0@
                                    == spec_patch_target(router.patches@[q]));
                            } else {
                                assert(has_name(old_table, spec_patch_target(router.patches@[q])));
                                let e3 = choose|e3: int|
                                    0 <= e3 < old_table.len() && (#[trigger] old_table[e3].0)@
                                        == spec_patch_target(router.patches@[q]);
                                assert(router.table@[e3].0@ == old_table[e3].0@);
                            }
                        }
                    }
                },
            }
            i += 1;
        }
        proof {
            assert(pvs.take(n as int) =~= pvs);
            assert forall|e: int|
                0 <= e < router.table@.len() implies ints_of(#[trigger] router.table@[e].1@)
                == idxs_for(router.patches@, router.table@[e].0@) by {
                assert(ints_of(router.table@[e].1@) == idxs_for(
                    pvs.take(n as int),
                    router.table@[e].0@,
                ));
            }
        }
        router
    }

    /// Whether any registered patch declares the given target name.
    pub fn is_patch_target(&self, name: &str) -> (r: bool)
        requires
            self.wf(),
        ensures
            r == spec_is_target(self.patches@, name@),
    {
        match find_entry(&self.table, name) {
            Option::Some(e) => {
                proof {
                    lemma_idxs_for(self.patches@, name@);
                    assert(ints_of(self.table@[e as int].1@).len() > 0);
                }
                true
            },
            Option::None => {
                proof {
                    if spec_is_target(self.patches@, name@) {
                        let i = choose|i: int|
                            0 <= i < self.patches@.len() && spec_patch_target(
                                #[trigger] self.patches@[i],
                            ) == name@;
                        assert(has_name(self.table@, spec_patch_target(self.patches@[i])));
                        let e = choose|e: int|
                            0 <= e < self.table@.len() && (#[trigger] self.table@[e].0)@ == name@;
                    }
                }
                false
            },
        }
    }

    /// Fold every registered patch over the target's content: none when the
    /// name has no registered patches; otherwise every pattern-kind patch is
    /// applied in table order, then every copy-kind patch. `copy_contents`
    /// holds, for each copy-kind patch registered for this name in order,
    /// the contents read from its payload sources — reading them is the
    /// caller's fallible, delegated operation. Regex- and module-kind
    /// patches are delegated to external collaborators and leave the text
    /// unchanged here.
    #[verifier::rlimit(50)]
    pub fn apply(&self, input: &str, name: &str, copy_contents: &Vec<Vec<String>>) -> (out: Option<
        String,
    >)
        requires
            self.wf(),
            copy_contents@.len() == num_copies(self.patches_for(name@)),
        ensures
            out is Some <==> spec_is_target(self.patches@, name@),
            match out {
                Option::Some(s) => s@ == fold_copy_patches(
                    self.patches_for(name@),
                    copy_contents.deep_view(),
                    fold_pattern_patches(self.patches_for(name@), name@, input@),
                ),
                Option::None => true,
            },
    {
        let e: usize = match find_entry(&self.table, name) {
            Option::Some(e) => e,
            Option::None => {
                proof {
                    if spec_is_target(self.patches@, name@) {
                        let i = choose|i: int|
                            0 <= i < self.patches@.len() && spec_patch_target(
                                #[trigger] self.patches@[i],
                            ) == name@;
                        assert(has_name(self.table@, spec_patch_target(self.patches@[i])));
                        let e = choose|e: int|
                            0 <= e < self.table@.len() && (#[trigger] self.table@[e].0)@ == name@;
                    }
                }
                return Option::None;
            },
        };
        proof {
            lemma_idxs_for(self.patches@, name@);
        }
        let ghost pf = self.patches_for(name@);
        let idxs: &Vec<usize> = &self.table[e].1;
        let nidx: usize = idxs.len();
        proof {
            assert(ints_of(idxs@) == idxs_for(self.patches@, name@));
            assert(pf.len() == nidx);
        }

        let mut rope = rope_from_str(input);
        let mut q: usize = 0;
        proof {
            assert(pf.skip(0) =~= pf);
        }
        while q < nidx
            invariant
                self.wf(),
                0 <= q <= nidx,
                nidx == idxs@.len(),
                idxs@ == self.table@[e as int].1@,
                e < self.table@.len(),
                self.table@[e as int].0@ == name@,
                pf == self.patches_for(name@),
                ints_of(idxs@) == idxs_for(self.patches@, name@),
                fold_pattern_patches(pf, name@, input@) == fold_pattern_patches(
                    pf.skip(q as int),
                    name@,
                    rope_text(rope),
                ),
            decreases nidx - q,
        {
            let idx: usize = idxs[q];
            proof {
                lemma_idxs_for(self.patches@, name@);
                assert(ints_of(idxs@)[q as int] == idx as int);
                assert(0 <= idx < self.patches@.len());
                assert(pf[q as int] == self.patches@[idx as int]);
                assert(pf.skip(q as int)[0] == pf[q as int]);
                assert(pf.skip(q as int).skip(1) =~= pf.skip(q + 1));
            }
            self.patches[idx].apply(name, &mut rope);
            q += 1;
        }
        proof {
            assert(pf.skip(nidx as int) =~= Seq::<Patch>::empty());
        }
        let mut out: String = rope_to_string(&rope);
        let ghost mid: Seq<char> = out@;

        let ghost cdv = copy_contents.deep_view();
        let total_copies: usize = copy_contents.len();
        let mut q2: usize = 0;
        let mut c: usize = 0;
        proof {
            assert(pf.skip(0) =~= pf);
            assert(cdv.skip(0) =~= cdv);
        }
        while q2 < nidx
            invariant
                self.wf(),
                0 <= q2 <= nidx,
                0 <= c <= total_copies,
                cdv.len() == total_copies,
                nidx == idxs@.len(),
                idxs@ == self.table@[e as int].1@,
                e < self.table@.len(),
                pf == self.patches_for(name@),
                ints_of(idxs@) == idxs_for(self.patches@, name@),
                cdv == copy_contents.deep_view(),
                c + num_copies(pf.skip(q2 as int)) == cdv.len(),
                fold_copy_patches(pf, cdv, mid) == fold_copy_patches(
                    pf.skip(q2 as int),
                    cdv.skip(c as int),
                    out@,
                ),
            decreases nidx - q2,
        {
            let idx: usize = idxs[q2];
            proof {
                lemma_idxs_for(self.patches@, name@);
                assert(ints_of(idxs@)[q2 as int] == idx as int);
                assert(0 <= idx < self.patches@.len());
                assert(pf[q2 as int] == self.patches@[idx as int]);
                assert(pf.skip(q2 as int)[0] == pf[q2 as int]);
                assert(pf.skip(q2 as int).skip(1) =~= pf.skip(q2 + 1));
                assert(num_copies(pf.skip(q2 as int)) >= 0) by {
                    lemma_num_copies_nonneg(pf.skip(q2 as int));
                }
                lemma_num_copies_nonneg(pf.skip(q2 + 1));
            }
            match &self.patches[idx] {
                Patch::Copy(cp) => {
                    proof {
                        assert(num_copies(pf.skip(q2 as int)) == 1 + num_copies(pf.skip(q2 + 1)));
                        assert(c < cdv.len());
                        assert(cdv.skip(c as int)[0] == cdv[c as int]);
                        assert(cdv.skip(c as int).skip(1) =~= cdv.skip(c + 1));
                        assert(copy_contents@[c as int].deep_view() == cdv[c as int]);
                    }
                    let merged = merge_payloads(&copy_contents[c]);
                    out = place_copy_exec(cp.position, &merged, out);
                    c += 1;
                },
                _ => {},
            }
            q2 += 1;
        }
        proof {
            assert(pf.skip(nidx as int) =~= Seq::<Patch>::empty());
            assert(cdv.skip(c as int) =~= Seq::<Seq<Seq<char>>>::empty());
        }
        Option::Some(out)
    }
}

proof fn lemma_num_copies_nonneg(ps: Seq<Patch>)
    ensures
        num_copies(ps) >= 0,
    decreases ps.len(),
{
    if ps.len() > 0 {
        lemma_num_copies_nonneg(ps.skip(1));
    }
}


/// Whether the bundles come in ascending priority order.
pub open spec fn priority_sorted(s: Seq<PatchManifest>) -> bool {
    forall|i: int, j: int|
        0 <= i < j < s.len() ==> (#[trigger] s[i]).manifest.priority <= (
        #[trigger] s[j]).manifest.priority
}

proof fn lemma_insert_by_priority_sorted(s: Seq<PatchManifest>, b: PatchManifest)
    requires
        priority_sorted(s),
    ensures
        priority_sorted(insert_by_priority(s, b)),
    decreases s.len(),
{
    let r = insert_by_priority(s, b);
    if s.len() == 0 {
    } else if s.last().manifest.priority <= b.manifest.priority {
        assert forall|i: int, j: int|
            0 <= i < j < r.len() implies (#[trigger] r[i]).manifest.priority <= (
        #[trigger] r[j]).manifest.priority by {
            if j < s.len() {
                assert(r[i] == s[i] && r[j] == s[j]);
            } else {
                assert(r[j] == b);
                assert(r[i] == s[i]);
                if i < s.len() - 1 {
                    assert(s[i].manifest.priority <= s.last().manifest.priority);
                }
            }
        }
    } else {
        assert forall|i: int, j: int|
            0 <= i < j < s.drop_last().len() implies (#[trigger] s.drop_last()[i]).manifest.priority
            <= (#[trigger] s.drop_last()[j]).manifest.priority by {
            assert(s.drop_last()[i] == s[i] && s.drop_last()[j] == s[j]);
        }
        lemma_insert_by_priority_sorted(s.drop_last(), b);
        let inner = insert_by_priority(s.drop_last(), b);
        assert forall|i: int, j: int|
            0 <= i < j < r.len() implies (#[trigger] r[i]).manifest.priority <= (
        #[trigger] r[j]).manifest.priority by {
            if j < inner.len() {
                assert(r[i] == inner[i] && r[j] == inner[j]);
            } else {
                assert(r[j] == s.last());
                assert(r[i] == inner[i]);
                assert(exists|k: int|
                    0 <= k < inner.len() && inner[i].manifest.priority <= (
                    #[trigger] inner[k]).manifest.priority && (inner[k] == b || exists|q: int|
                        0 <= q < s.drop_last().len() && inner[k] == s.drop_last()[q])) by {
                    lemma_insert_members(s.drop_last(), b, i);
                }
            }
        }
    }
}

/// Every element of an insertion result is the inserted bundle or one of
/// the original bundles, at a priority no smaller than its own.
proof fn lemma_insert_members(s: Seq<PatchManifest>, b: PatchManifest, i: int)
    requires
        0 <= i < insert_by_priority(s, b).len(),
    ensures
        insert_by_priority(s, b)[i] == b || exists|q: int|
            0 <= q < s.len() && insert_by_priority(s, b)[i] == #[trigger] s[q],
    decreases s.len(),
{
    let r = insert_by_priority(s, b);
    if s.len() == 0 {
    } else if s.last().manifest.priority <= b.manifest.priority {
        if i < s.len() {
            assert(r[i] == s[i]);
        }
    } else {
        if i < r.len() - 1 {
            lemma_insert_members(s.drop_last(), b, i);
            if r[i] != b {
                let q = choose|q: int|
                    0 <= q < s.drop_last().len() && insert_by_priority(s.drop_last(), b)[i]
                        == #[trigger] s.drop_last()[q];
                assert(s.drop_last()[q] == s[q]);
            }
        } else {
            assert(r[i] == s.last());
        }
    }
}

/// The ordered bundle sequence is sorted by priority; equal priorities keep
/// their relative load order by construction of `insert_by_priority`.
pub proof fn lemma_sort_by_priority_sorted(s: Seq<PatchManifest>)
    ensures
        priority_sorted(sort_by_priority(s)),
    decreases s.len(),
{
    if s.len() > 0 {
        lemma_sort_by_priority_sorted(s.drop_last());
        lemma_insert_by_priority_sorted(sort_by_priority(s.drop_last()), s.last());
    }
}

} // verus!
