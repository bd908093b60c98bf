//! The tree model of the engine: a node is a regular text file with an
//! executable flag, or a directory of named children. The three operations —
//! tree copy, content substitution, name substitution — are defined here on
//! whole trees; the caller walks the real filesystem and mirrors each step.

use vstd::prelude::*;
use vstd::string::StringExecFns;
use crate::error::SkError;
use crate::names::lemma_substitute_name_idempotent;
use crate::names::rename_stable;
use crate::names::substitute_name;
use crate::names::substituted_name_spec;
use crate::text::replace_all;
use crate::text::replace_all_spec;

verus! {

broadcast use vstd::std_specs::vec::group_vec_axioms, vstd::seq::group_seq_axioms;

/// A named child of a directory.
#[derive(Debug, PartialEq, Eq)]
pub struct FsEntry {
    pub name: String,
    pub node: FsNode,
}

/// A tree node: a regular file with text content and an executable flag, or
/// a directory with named children.
#[derive(Debug, PartialEq, Eq)]
pub enum FsNode {
    File { content: String, executable: bool },
    Dir { entries: Vec<FsEntry> },
}

/// No two entries share a name.
pub open spec fn unique_names(v: Seq<FsEntry>) -> bool {
    forall|i: int, j: int|
        0 <= i < j < v.len() ==> #[trigger] v[i].name@ != #[trigger] v[j].name@
}

/// Some entry carries this name.
pub open spec fn has_name(v: Seq<FsEntry>, name: Seq<char>) -> bool {
    exists|i: int| 0 <= i < v.len() && #[trigger] v[i].name@ == name
}

/// The position of the entry carrying this name.
pub open spec fn index_of_name(v: Seq<FsEntry>, name: Seq<char>) -> int {
    choose|i: int| 0 <= i < v.len() && #[trigger] v[i].name@ == name
}

/// With unique names, the entry found for a name is the one at any position
/// known to carry it.
pub proof fn lemma_index_of_name(v: Seq<FsEntry>, name: Seq<char>, i: int)
    requires
        unique_names(v),
        0 <= i < v.len(),
        v[i].name@ == name,
    ensures
        has_name(v, name),
        index_of_name(v, name) == i,
{
    assert(has_name(v, name));
    let c = index_of_name(v, name);
    if c < i {
        assert(v[c].name@ != v[i].name@);
    } else if c > i {
        assert(v[i].name@ != v[c].name@);
    }
}

/// Entry lists of equal length whose entries agree pairwise in name and, by
/// `node_eq`, in tree.
pub open spec fn entries_eq(v1: Seq<FsEntry>, v2: Seq<FsEntry>) -> bool
    decreases v1, 0int,
{
    if v1.len() != v2.len() {
        false
    } else if v1.len() == 0 {
        true
    } else {
        &&& entries_eq(v1.drop_last(), v2.drop_last())
        &&& v1.last().name@ == v2.last().name@
        &&& node_eq(v1.last().node, v2.last().node)
    }
}

/// The trees have identical shape: the same names in the same order, and
/// files with the same text and the same executable flag.
pub open spec fn node_eq(a: FsNode, b: FsNode) -> bool
    decreases a, 1int,
{
    match a {
        FsNode::File { content: c1, executable: e1 } => match b {
            FsNode::File { content: c2, executable: e2 } => c1@ == c2@ && e1 == e2,
            FsNode::Dir { .. } => false,
        },
        FsNode::Dir { entries: v1 } => match b {
            FsNode::File { .. } => false,
            FsNode::Dir { entries: v2 } => entries_eq(v1@, v2@),
        },
    }
}

/// Equal entry lists agree at every position.
pub proof fn lemma_entries_eq_index(v1: Seq<FsEntry>, v2: Seq<FsEntry>, i: int)
    requires
        entries_eq(v1, v2),
        0 <= i < v1.len(),
    ensures
        v1.len() == v2.len(),
        v1[i].name@ == v2[i].name@,
        node_eq(v1[i].node, v2[i].node),
    decreases v1,
{
    if i == v1.len() - 1 {
    } else {
        lemma_entries_eq_index(v1.drop_last(), v2.drop_last(), i);
    }
}

/// Every entry of the list heads a well-formed tree.
pub open spec fn entries_wf(v: Seq<FsEntry>) -> bool
    decreases v, 0int,
{
    if v.len() == 0 {
        true
    } else {
        entries_wf(v.drop_last()) && wf(v.last().node)
    }
}

/// A directory never holds two children of one name, at any depth.
pub open spec fn wf(n: FsNode) -> bool
    decreases n, 1int,
{
    match n {
        FsNode::File { .. } => true,
        FsNode::Dir { entries } => unique_names(entries@) && entries_wf(entries@),
    }
}

/// Every entry of a well-formed list is itself well-formed.
pub proof fn lemma_entries_wf_index(v: Seq<FsEntry>, i: int)
    requires
        entries_wf(v),
        0 <= i < v.len(),
    ensures
        wf(v[i].node),
    decreases v,
{
    if i < v.len() - 1 {
        lemma_entries_wf_index(v.drop_last(), i);
    }
}

/// The destination, if present, is well-formed.
pub open spec fn opt_wf(dest: Option<FsNode>) -> bool {
    match dest {
        None => true,
        Some(d) => wf(d),
    }
}

/// A copy can land on this destination: a file never lands on a directory,
/// a directory never lands on a file, and children merge recursively.
pub open spec fn mergeable(src: FsNode, dest: Option<FsNode>) -> bool
    decreases src, 0int,
{
    match src {
        FsNode::File { .. } => !(dest matches Some(FsNode::Dir { .. })),
        FsNode::Dir { entries: sv } => match dest {
            None => true,
            Some(FsNode::File { .. }) => false,
            Some(FsNode::Dir { entries: dv }) => mergeable_entries(sv@, dv@),
        },
    }
}

/// Every source entry whose name the destination also carries merges with
/// the destination's tree of that name.
pub open spec fn mergeable_entries(sv: Seq<FsEntry>, dv: Seq<FsEntry>) -> bool
    decreases sv, 1int,
{
    if sv.len() == 0 {
        true
    } else {
        &&& mergeable_entries(sv.drop_last(), dv)
        &&& (has_name(dv, sv.last().name@) ==> mergeable(
            sv.last().node,
            Some(dv[index_of_name(dv, sv.last().name@)].node),
        ))
    }
}

/// `out` is what copying `src` over `dest` leaves behind: a file's bytes
/// overwrite, a fresh directory is duplicated child by child, and an
/// existing directory keeps its entries in place — each merged with the
/// source child of the same name — followed by the source children it did
/// not yet hold, in source order.
pub open spec fn merged(src: FsNode, dest: Option<FsNode>, out: FsNode) -> bool
    decreases src, 0int,
{
    match src {
        FsNode::File { content: c, executable: e } => {
            &&& !(dest matches Some(FsNode::Dir { .. }))
            &&& out matches FsNode::File { content: oc, executable: oe } && oc@ == c@ && oe == e
        },
        FsNode::Dir { entries: sv } => match dest {
            None => out matches FsNode::Dir { entries: ov } && copied_entries(sv@, ov@),
            Some(FsNode::File { .. }) => false,
            Some(FsNode::Dir { entries: dv }) => {
                &&& out matches FsNode::Dir { entries: ov }
                &&& ov@.len() >= dv@.len()
                &&& merged_entries(sv@, dv@, ov@.take(dv@.len() as int))
                &&& merged_extras(sv@, dv@, ov@.skip(dv@.len() as int))
            },
        },
    }
}

/// The fresh copy of an entry list, child by child.
pub open spec fn copied_entries(sv: Seq<FsEntry>, ov: Seq<FsEntry>) -> bool
    decreases sv, 1int,
{
    if sv.len() != ov.len() {
        false
    } else if sv.len() == 0 {
        true
    } else {
        &&& copied_entries(sv.drop_last(), ov.drop_last())
        &&& ov.last().name@ == sv.last().name@
        &&& merged(sv.last().node, None, ov.last().node)
    }
}

/// The kept part of a merged directory: position by position the old
/// entries, each merged with the source child of its name where one exists.
pub open spec fn merged_entries(sv: Seq<FsEntry>, dv: Seq<FsEntry>, ov: Seq<FsEntry>) -> bool
    decreases sv, dv.len(),
{
    if dv.len() != ov.len() {
        false
    } else if dv.len() == 0 {
        true
    } else {
        &&& merged_entries(sv, dv.drop_last(), ov.drop_last())
        &&& ov.last().name@ == dv.last().name@
        &&& if has_name(sv, dv.last().name@) {
            merged(
                sv[index_of_name(sv, dv.last().name@)].node,
                Some(dv.last().node),
                ov.last().node,
            )
        } else {
            ov.last() == dv.last()
        }
    }
}

/// The appended part of a merged directory: the source children whose names
/// the destination did not hold, freshly copied, in source order.
pub open spec fn merged_extras(sv_sub: Seq<FsEntry>, dv: Seq<FsEntry>, rest: Seq<FsEntry>) -> bool
    decreases sv_sub, 1int,
{
    if sv_sub.len() == 0 {
        rest.len() == 0
    } else if has_name(dv, sv_sub.last().name@) {
        merged_extras(sv_sub.drop_last(), dv, rest)
    } else {
        &&& rest.len() >= 1
        &&& rest.last().name@ == sv_sub.last().name@
        &&& merged(sv_sub.last().node, None, rest.last().node)
        &&& merged_extras(sv_sub.drop_last(), dv, rest.drop_last())
    }
}

/// A copy with no destination in the way cannot fail.
pub proof fn lemma_mergeable_none(n: FsNode)
    ensures
        mergeable(n, None),
{
    match n {
        FsNode::File { .. } => {},
        FsNode::Dir { .. } => {},
    }
}

/// What the kept part of a merge says of one position.
pub proof fn lemma_merged_entries_index(
    sv: Seq<FsEntry>,
    dv: Seq<FsEntry>,
    ov: Seq<FsEntry>,
    k: int,
)
    requires
        merged_entries(sv, dv, ov),
        0 <= k < dv.len(),
    ensures
        ov.len() == dv.len(),
        ov[k].name@ == dv[k].name@,
        has_name(sv, dv[k].name@) ==> merged(
            sv[index_of_name(sv, dv[k].name@)].node,
            Some(dv[k].node),
            ov[k].node,
        ),
        !has_name(sv, dv[k].name@) ==> ov[k] == dv[k],
    decreases dv,
{
    if k == dv.len() - 1 {
    } else {
        lemma_merged_entries_index(sv, dv.drop_last(), ov.drop_last(), k);
    }
}

/// A merge that happened was possible.
pub proof fn lemma_merged_implies_mergeable(src: FsNode, dest: Option<FsNode>, out: FsNode)
    requires
        merged(src, dest, out),
        wf(src),
        opt_wf(dest),
    ensures
        mergeable(src, dest),
    decreases src, 0int,
{
    match src {
        FsNode::File { .. } => {},
        FsNode::Dir { entries: sv } => match dest {
            None => {},
            Some(FsNode::File { .. }) => {},
            Some(FsNode::Dir { entries: dv }) => {
                let ov = out->Dir_entries;
                lemma_build_mergeable_entries(
                    sv@,
                    dv@,
                    ov@.take(dv@.len() as int),
                    sv@.len() as int,
                );
                assert(sv@.take(sv@.len() as int) =~= sv@);
            },
        },
    }
}

/// Assemble `mergeable_entries` for a source prefix out of the per-position
/// facts of an accomplished merge.
proof fn lemma_build_mergeable_entries(sv: Seq<FsEntry>, dv: Seq<FsEntry>, ov: Seq<FsEntry>, k: int)
    requires
        merged_entries(sv, dv, ov),
        unique_names(sv),
        unique_names(dv),
        entries_wf(sv),
        entries_wf(dv),
        0 <= k <= sv.len(),
    ensures
        mergeable_entries(sv.take(k), dv),
    decreases sv, k,
{
    if k == 0 {
        assert(sv.take(0).len() == 0);
    } else {
        lemma_build_mergeable_entries(sv, dv, ov, k - 1);
        assert(sv.take(k).drop_last() =~= sv.take(k - 1));
        let e = sv[k - 1];
        assert(sv.take(k).last() == e);
        if has_name(dv, e.name@) {
            let j = index_of_name(dv, e.name@);
            assert(0 <= j < dv.len() && dv[j].name@ == e.name@);
            lemma_merged_entries_index(sv, dv, ov, j);
            lemma_index_of_name(sv, e.name@, k - 1);
            lemma_entries_wf_index(sv, k - 1);
            lemma_entries_wf_index(dv, j);
            lemma_merged_implies_mergeable(e.node, Some(dv[j].node), ov[j].node);
        }
    }
}

/// Copy fidelity: copied into a fresh destination, the result is identical
/// to the source tree — same structure, same names, same file content.
pub proof fn lemma_copy_fidelity(src: FsNode, out: FsNode)
    requires
        merged(src, None, out),
    ensures
        node_eq(out, src),
    decreases src, 1int,
{
    match src {
        FsNode::File { .. } => {},
        FsNode::Dir { entries: sv } => {
            lemma_copied_entries_eq(sv@, out->Dir_entries@);
        },
    }
}

proof fn lemma_copied_entries_eq(sv: Seq<FsEntry>, ov: Seq<FsEntry>)
    requires
        copied_entries(sv, ov),
    ensures
        entries_eq(ov, sv),
    decreases sv, 0int,
{
    if sv.len() > 0 {
        lemma_copied_entries_eq(sv.drop_last(), ov.drop_last());
        lemma_copy_fidelity(sv.last().node, ov.last().node);
    }
}

/// Nothing is appended by a merge whose destination already carries every
/// source name.
proof fn lemma_merged_extras_empty(sv_sub: Seq<FsEntry>, dv: Seq<FsEntry>, rest: Seq<FsEntry>)
    requires
        merged_extras(sv_sub, dv, rest),
        forall|i: int| 0 <= i < sv_sub.len() ==> has_name(dv, #[trigger] sv_sub[i].name@),
    ensures
        rest.len() == 0,
    decreases sv_sub,
{
    if sv_sub.len() > 0 {
        assert(has_name(dv, sv_sub[sv_sub.len() - 1].name@));
        lemma_merged_extras_empty(sv_sub.drop_last(), dv, rest);
    }
}

/// Copy idempotence: copying onto a destination that already equals the
/// source cannot fail, and whatever it leaves equals the source still.
pub proof fn lemma_copy_idempotent(src: FsNode, d: FsNode, out: FsNode)
    requires
        wf(src),
        node_eq(d, src),
    ensures
        mergeable(src, Some(d)),
        merged(src, Some(d), out) ==> node_eq(out, src),
    decreases src, 2int,
{
    match src {
        FsNode::File { .. } => {},
        FsNode::Dir { entries: sv } => {
            let dv = d->Dir_entries;
            assert(entries_eq(dv@, sv@));
            assert forall|i: int, j: int| 0 <= i < j < dv@.len() implies #[trigger] dv@[i].name@
                != #[trigger] dv@[j].name@ by {
                lemma_entries_eq_index(dv@, sv@, i);
                lemma_entries_eq_index(dv@, sv@, j);
            }
            lemma_idem_mergeable_entries(sv@, dv@, sv@.len() as int);
            assert(sv@.take(sv@.len() as int) =~= sv@);
            if merged(src, Some(d), out) {
                let ov = out->Dir_entries;
                assert forall|i: int| 0 <= i < sv@.len() implies has_name(
                    dv@,
                    #[trigger] sv@[i].name@,
                ) by {
                    lemma_entries_eq_index(dv@, sv@, i);
                }
                lemma_merged_extras_empty(sv@, dv@, ov@.skip(dv@.len() as int));
                assert(ov@.len() == dv@.len());
                lemma_idem_entries_eq(sv@, dv@, ov@.take(dv@.len() as int), sv@.len() as int);
                assert(ov@.take(dv@.len() as int) =~= ov@);
                assert(ov@.take(dv@.len() as int).take(sv@.len() as int) =~= ov@);
            }
        },
    }
}

/// Copy idempotence, both runs in one statement: a copy into a fresh
/// destination and a second copy over its result cannot fail, and the
/// destination equals the source after each run.
pub proof fn lemma_copy_twice(src: FsNode, d1: FsNode, d2: FsNode)
    requires
        wf(src),
        merged(src, None, d1),
        merged(src, Some(d1), d2),
    ensures
        mergeable(src, None),
        mergeable(src, Some(d1)),
        node_eq(d1, src),
        node_eq(d2, src),
{
    lemma_mergeable_none(src);
    lemma_copy_fidelity(src, d1);
    lemma_copy_idempotent(src, d1, d2);
}

/// A destination equal to the source makes every entry mergeable.
proof fn lemma_idem_mergeable_entries(sv: Seq<FsEntry>, dv: Seq<FsEntry>, k: int)
    requires
        unique_names(sv),
        unique_names(dv),
        entries_wf(sv),
        entries_eq(dv, sv),
        0 <= k <= sv.len(),
    ensures
        mergeable_entries(sv.take(k), dv),
    decreases sv, k,
{
    if k > 0 {
        lemma_idem_mergeable_entries(sv, dv, k - 1);
        assert(sv.take(k).drop_last() =~= sv.take(k - 1));
        let e = sv[k - 1];
        assert(sv.take(k).last() == e);
        lemma_entries_eq_index(dv, sv, k - 1);
        lemma_index_of_name(dv, e.name@, k - 1);
        lemma_entries_wf_index(sv, k - 1);
        lemma_copy_idempotent(e.node, dv[k - 1].node, e.node);
    }
}

/// Merging equal trees gives the source back, entry by entry.
proof fn lemma_idem_entries_eq(sv: Seq<FsEntry>, dv: Seq<FsEntry>, ov: Seq<FsEntry>, k: int)
    requires
        unique_names(sv),
        entries_wf(sv),
        entries_eq(dv, sv),
        merged_entries(sv, dv, ov),
        0 <= k <= sv.len(),
        dv.len() == sv.len(),
    ensures
        entries_eq(ov.take(k), sv.take(k)),
    decreases sv, k,
{
    if k > 0 {
        lemma_idem_entries_eq(sv, dv, ov, k - 1);
        assert(sv.take(k).drop_last() =~= sv.take(k - 1));
        assert(ov.take(k).drop_last() =~= ov.take(k - 1));
        lemma_merged_entries_index(sv, dv, ov, k - 1);
        lemma_entries_eq_index(dv, sv, k - 1);
        lemma_index_of_name(sv, dv[k - 1].name@, k - 1);
        lemma_entries_wf_index(sv, k - 1);
        lemma_copy_idempotent(sv[k - 1].node, dv[k - 1].node, ov[k - 1].node);
        assert(sv.take(k).last() == sv[k - 1]);
        assert(ov.take(k).last() == ov[k - 1]);
    }
}

/// What entry-wise mergeability says of one source position.
proof fn lemma_mergeable_entries_index(sv: Seq<FsEntry>, dv: Seq<FsEntry>, i: int)
    requires
        mergeable_entries(sv, dv),
        0 <= i < sv.len(),
    ensures
        has_name(dv, sv[i].name@) ==> mergeable(
            sv[i].node,
            Some(dv[index_of_name(dv, sv[i].name@)].node),
        ),
    decreases sv,
{
    if i < sv.len() - 1 {
        lemma_mergeable_entries_index(sv.drop_last(), dv, i);
    }
}

/// The position of the first entry in `lo..hi` carrying `name`.
fn find_entry(v: &Vec<FsEntry>, name: &String, lo: usize, hi: usize) -> (r: Option<usize>)
    requires
        lo <= hi <= v@.len(),
    ensures
        match r {
            Some(k) => lo <= k < hi && v@[k as int].name@ == name@,
            None => forall|k: int| lo <= k < hi ==> v@[k].name@ != name@,
        },
{
    let mut k: usize = lo;
    while k < hi
        invariant
            lo <= k <= hi <= v@.len(),
            forall|t: int| lo <= t < k ==> v@[t].name@ != name@,
        decreases hi - k,
    {
        if v[k].name == *name {
            return Some(k);
        }
        k += 1;
    }
    None
}

/// Copy `src` over `dest`, as a re-run against an existing destination does:
/// a directory's children merge with those already present, a file's bytes
/// overwrite a file already there, and a file/directory type conflict is an
/// `IoError` (its path payload is left to the caller, who knows where in the
/// tree the copy ran).
#[verifier::loop_isolation(false)]
pub fn copy_into(src: &FsNode, dest: Option<FsNode>) -> (r: Result<FsNode, SkError>)
    requires
        wf(*src),
        opt_wf(dest),
    ensures
        r is Ok <==> mergeable(*src, dest),
        r matches Ok(out) ==> merged(*src, dest, out),
        r matches Err(e) ==> e is IoError,
    decreases *src,
{
    match src {
        FsNode::File { content, executable } => match dest {
            Some(FsNode::Dir { .. }) => Err(SkError::IoError { path: String::new() }),
            _ => Ok(FsNode::File { content: content.clone(), executable: *executable }),
        },
        FsNode::Dir { entries: sv } => match dest {
            Some(FsNode::File { .. }) => Err(SkError::IoError { path: String::new() }),
            None => {
                let mut out: Vec<FsEntry> = Vec::new();
                let mut i: usize = 0;
                proof {
                    assert(sv@.take(0) =~= Seq::<FsEntry>::empty());
                }
                while i < sv.len()
                    invariant
                        i <= sv@.len(),
                        out@.len() == i,
                        copied_entries(sv@.take(i as int), out@),
                    decreases sv@.len() - i,
                {
                    let e = &sv[i];
                    proof {
                        assert(decreases_to!(*src => *sv));
                        assert(decreases_to!(*sv => sv@));
                        assert(decreases_to!(sv@ => sv@[i as int]));
                        assert(e == sv@[i as int]);
                        lemma_entries_wf_index(sv@, i as int);
                        lemma_mergeable_none(e.node);
                    }
                    let node = match copy_into(&e.node, None) {
                        Ok(n) => n,
                        Err(er) => {
                            return Err(er);
                        },
                    };
                    let ghost out0 = out@;
                    out.push(FsEntry { name: e.name.clone(), node });
                    proof {
                        assert(out@.drop_last() =~= out0);
                        assert(sv@.take(i + 1).drop_last() =~= sv@.take(i as int));
                        assert(sv@.take(i + 1).last() == sv@[i as int]);
                    }
                    i += 1;
                }
                proof {
                    assert(sv@.take(sv@.len() as int) =~= sv@);
                }
                Ok(FsNode::Dir { entries: out })
            },
            Some(FsNode::Dir { entries: dv }) => {
                let ghost sv0 = sv@;
                let ghost dv0 = dv@;
                let dv_len = dv.len();
                let mut rest = dv;
                let mut out: Vec<FsEntry> = Vec::new();
                let mut j: usize = 0;
                proof {
                    assert(rest@ =~= dv0.skip(0));
                    assert(dv0.take(0) =~= Seq::<FsEntry>::empty());
                }
                while j < dv_len
                    invariant
                        j <= dv_len,
                        dv_len == dv0.len(),
                        rest@ == dv0.skip(j as int),
                        out@.len() == j,
                        merged_entries(sv0, dv0.take(j as int), out@),
                    decreases dv_len - j,
                {
                    let dj = rest.remove(0);
                    proof {
                        assert(dj == dv0[j as int]);
                        assert(dv0.skip(j as int).remove(0) =~= dv0.skip(j + 1));
                    }
                    let found = find_entry(sv, &dj.name, 0, sv.len());
                    match found {
                        Some(si) => {
                            proof {
                                lemma_index_of_name(sv0, dj.name@, si as int);
                                lemma_entries_wf_index(sv0, si as int);
                                lemma_entries_wf_index(dv0, j as int);
                                assert(decreases_to!(*src => *sv));
                                assert(decreases_to!(*sv => sv@));
                                assert(decreases_to!(sv@ => sv@[si as int]));
                            }
                            let e = &sv[si];
                            let node = match copy_into(&e.node, Some(dj.node)) {
                                Ok(n) => n,
                                Err(er) => {
                                    proof {
                                        lemma_index_of_name(dv0, dv0[j as int].name@, j as int);
                                        if mergeable_entries(sv0, dv0) {
                                            lemma_mergeable_entries_index(sv0, dv0, si as int);
                                        }
                                    }
                                    return Err(er);
                                },
                            };
                            let ghost out0 = out@;
                            out.push(FsEntry { name: dj.name, node });
                            proof {
                                assert(out@.drop_last() =~= out0);
                                assert(dv0.take(j + 1).drop_last() =~= dv0.take(j as int));
                                assert(dv0.take(j + 1).last() == dv0[j as int]);
                            }
                        },
                        None => {
                            let ghost out0 = out@;
                            out.push(dj);
                            proof {
                                assert(out@.drop_last() =~= out0);
                                assert(dv0.take(j + 1).drop_last() =~= dv0.take(j as int));
                                assert(dv0.take(j + 1).last() == dv0[j as int]);
                            }
                        },
                    }
                    j += 1;
                }
                proof {
                    assert(dv0.take(dv_len as int) =~= dv0);
                    assert(out@.take(dv_len as int) =~= out@);
                }
                let mut i: usize = 0;
                proof {
                    assert(out@.skip(dv_len as int) =~= Seq::<FsEntry>::empty());
                    assert(sv0.take(0) =~= Seq::<FsEntry>::empty());
                }
                while i < sv.len()
                    invariant
                        i <= sv0.len(),
                        out@.len() >= dv_len,
                        merged_entries(sv0, dv0, out@.take(dv_len as int)),
                        merged_extras(sv0.take(i as int), dv0, out@.skip(dv_len as int)),
                    decreases sv0.len() - i,
                {
                    let e = &sv[i];
                    let dup = find_entry(&out, &e.name, 0, dv_len);
                    match dup {
                        Some(k) => {
                            proof {
                                lemma_merged_entries_index(
                                    sv0,
                                    dv0,
                                    out@.take(dv_len as int),
                                    k as int,
                                );
                                assert(dv0[k as int].name@ == e.name@);
                                assert(has_name(dv0, sv0[i as int].name@));
                                assert(sv0.take(i + 1).drop_last() =~= sv0.take(i as int));
                                assert(sv0.take(i + 1).last() == sv0[i as int]);
                            }
                        },
                        None => {
                            proof {
                                assert forall|w: int| 0 <= w < dv0.len() implies dv0[w].name@
                                    != e.name@ by {
                                    lemma_merged_entries_index(
                                        sv0,
                                        dv0,
                                        out@.take(dv_len as int),
                                        w,
                                    );
                                }
                                assert(!has_name(dv0, sv0[i as int].name@));
                                lemma_entries_wf_index(sv0, i as int);
                                lemma_mergeable_none(e.node);
                                assert(decreases_to!(*src => *sv));
                                assert(decreases_to!(*sv => sv@));
                                assert(decreases_to!(sv@ => sv@[i as int]));
                            }
                            let node = match copy_into(&e.node, None) {
                                Ok(n) => n,
                                Err(er) => {
                                    return Err(er);
                                },
                            };
                            let ghost out0 = out@;
                            out.push(FsEntry { name: e.name.clone(), node });
                            proof {
                                assert(out@.take(dv_len as int) =~= out0.take(dv_len as int));
                                assert(out@.skip(dv_len as int).drop_last() =~= out0.skip(
                                    dv_len as int,
                                ));
                                assert(out@.skip(dv_len as int).last() == out@[out@.len() - 1]);
                                assert(sv0.take(i + 1).drop_last() =~= sv0.take(i as int));
                                assert(sv0.take(i + 1).last() == sv0[i as int]);
                            }
                        },
                    }
                    i += 1;
                }
                proof {
                    assert(sv0.take(sv0.len() as int) =~= sv0);
                    lemma_build_mergeable_entries(
                        sv0,
                        dv0,
                        out@.take(dv_len as int),
                        sv0.len() as int,
                    );
                }
                Ok(FsNode::Dir { entries: out })
            },
        },
    }
}

/// Duplicate a tree. Models a copy into a fresh destination: the result is
/// identical to the source.
#[verifier::loop_isolation(false)]
pub fn copy_node(src: &FsNode) -> (r: FsNode)
    ensures
        node_eq(r, *src),
    decreases *src,
{
    match src {
        FsNode::File { content, executable } => FsNode::File {
            content: content.clone(),
            executable: *executable,
        },
        FsNode::Dir { entries } => {
            let mut out: Vec<FsEntry> = Vec::new();
            let mut i: usize = 0;
            proof {
                assert(entries@.take(0) =~= Seq::empty());
            }
            while i < entries.len()
                invariant
                    i <= entries@.len(),
                    out@.len() == i,
                    entries_eq(out@, entries@.take(i as int)),
                decreases entries@.len() - i,
            {
                let e = &entries[i];
                proof {
                    assert(decreases_to!(*src => *entries));
                    assert(decreases_to!(*entries => entries@));
                    assert(decreases_to!(entries@ => entries@[i as int]));
                    assert(e == entries@[i as int]);
                    assert(decreases_to!(*src => e.node));
                }
                let node = copy_node(&e.node);
                let ghost out0 = out@;
                out.push(FsEntry { name: e.name.clone(), node });
                proof {
                    assert(out@.drop_last() =~= out0);
                    assert(entries@.take(i + 1).drop_last() =~= entries@.take(i as int));
                    assert(entries@.take(i + 1).last() == entries@[i as int]);
                }
                i += 1;
            }
            proof {
                assert(entries@.take(entries@.len() as int) =~= entries@);
            }
            FsNode::Dir { entries: out }
        },
    }
}

/// The per-file step of content substitution: an executable file is
/// deliberately refused, any other file has every occurrence of `from` in
/// its text replaced by `to`.
pub fn substitute_file_content(path: &str, content: &str, executable: bool, from: &str, to: &str) -> (r:
    Result<String, SkError>)
    ensures
        executable ==> (r matches Err(e) && e matches SkError::PermissionSkip { path: p } && p@
            == path@),
        !executable ==> (r matches Ok(s) && s@ == replace_all_spec(content@, from@, to@)),
{
    if executable {
        Err(SkError::PermissionSkip { path: String::from_str(path) })
    } else {
        Ok(replace_all(content, from, to))
    }
}

/// `b` is `a` after content substitution: the same shape and names, every
/// non-executable file's text rewritten, and every executable file's text
/// untouched.
pub open spec fn contents_substituted(a: FsNode, b: FsNode, from: Seq<char>, to: Seq<char>) -> bool
    decreases a, 1int,
{
    match a {
        FsNode::File { content: c1, executable: e1 } => match b {
            FsNode::File { content: c2, executable: e2 } => e2 == e1 && c2@ == (if e1 {
                c1@
            } else {
                replace_all_spec(c1@, from, to)
            }),
            FsNode::Dir { .. } => false,
        },
        FsNode::Dir { entries: v1 } => match b {
            FsNode::File { .. } => false,
            FsNode::Dir { entries: v2 } => entries_contents_substituted(v1@, v2@, from, to),
        },
    }
}

pub open spec fn entries_contents_substituted(
    v1: Seq<FsEntry>,
    v2: Seq<FsEntry>,
    from: Seq<char>,
    to: Seq<char>,
) -> bool
    decreases v1, 0int,
{
    if v1.len() != v2.len() {
        false
    } else if v1.len() == 0 {
        true
    } else {
        &&& entries_contents_substituted(v1.drop_last(), v2.drop_last(), from, to)
        &&& v2.last().name@ == v1.last().name@
        &&& contents_substituted(v1.last().node, v2.last().node, from, to)
    }
}

/// Rewrite the text of every non-executable file reachable from `node`,
/// replacing every occurrence of `from` by `to`. An executable file is left
/// untouched — the skip is no error, and the pass always covers the whole
/// tree.
#[verifier::loop_isolation(false)]
pub fn substitute_tree_contents(node: &FsNode, from: &str, to: &str) -> (r: FsNode)
    ensures
        contents_substituted(*node, r, from@, to@),
    decreases *node,
{
    match node {
        FsNode::File { content, executable } => {
            if *executable {
                FsNode::File { content: content.clone(), executable: true }
            } else {
                FsNode::File { content: replace_all(content.as_str(), from, to), executable: false }
            }
        },
        FsNode::Dir { entries } => {
            let mut out: Vec<FsEntry> = Vec::new();
            let mut i: usize = 0;
            proof {
                assert(entries@.take(0) =~= Seq::<FsEntry>::empty());
            }
            while i < entries.len()
                invariant
                    i <= entries@.len(),
                    out@.len() == i,
                    entries_contents_substituted(entries@.take(i as int), out@, from@, to@),
                decreases entries@.len() - i,
            {
                let e = &entries[i];
                proof {
                    assert(decreases_to!(*node => *entries));
                    assert(decreases_to!(*entries => entries@));
                    assert(decreases_to!(entries@ => entries@[i as int]));
                    assert(e == entries@[i as int]);
                }
                let sub = substitute_tree_contents(&e.node, from, to);
                let ghost out0 = out@;
                out.push(FsEntry { name: e.name.clone(), node: sub });
                proof {
                    assert(out@.drop_last() =~= out0);
                    assert(entries@.take(i + 1).drop_last() =~= entries@.take(i as int));
                    assert(entries@.take(i + 1).last() == entries@[i as int]);
                }
                i += 1;
            }
            proof {
                assert(entries@.take(entries@.len() as int) =~= entries@);
            }
            FsNode::Dir { entries: out }
        },
    }
}

/// Decide well-formedness, so that a tree read from the filesystem can be
/// tested before it is handed to the copy.
#[verifier::loop_isolation(false)]
pub fn check_wf(n: &FsNode) -> (r: bool)
    ensures
        r == wf(*n),
    decreases *n,
{
    match n {
        FsNode::File { .. } => true,
        FsNode::Dir { entries } => {
            let len = entries.len();
            let mut i: usize = 0;
            proof {
                assert(entries@.take(0) =~= Seq::<FsEntry>::empty());
            }
            while i < len
                invariant
                    i <= len,
                    len == entries@.len(),
                    forall|p: int, q: int|
                        0 <= p < i && p < q < len ==> #[trigger] entries@[p].name@
                            != #[trigger] entries@[q].name@,
                    entries_wf(entries@.take(i as int)),
                decreases len - i,
            {
                match find_entry(entries, &entries[i].name, i + 1, len) {
                    Some(_) => {
                        return false;
                    },
                    None => {},
                }
                proof {
                    assert(decreases_to!(*n => *entries));
                    assert(decreases_to!(*entries => entries@));
                    assert(decreases_to!(entries@ => entries@[i as int]));
                }
                if !check_wf(&entries[i].node) {
                    proof {
                        if entries_wf(entries@) {
                            lemma_entries_wf_index(entries@, i as int);
                        }
                    }
                    return false;
                }
                proof {
                    assert(entries@.take(i + 1).drop_last() =~= entries@.take(i as int));
                    assert(entries@.take(i + 1).last() == entries@[i as int]);
                }
                i += 1;
            }
            proof {
                assert(entries@.take(len as int) =~= entries@);
            }
            true
        },
    }
}

/// The name the entry at position `i` will bear after the renaming pass.
pub open spec fn target_name(v: Seq<FsEntry>, from: Seq<char>, to: Seq<char>, i: int) -> Seq<
    char,
> {
    substituted_name_spec(v[i].name@, from, to)
}

/// The rename of the entry at position `i` does not land on a name a sibling
/// carries at the moment it runs: entries before `i` have already been
/// renamed, entries after it have not.
pub open spec fn rename_free_at(v: Seq<FsEntry>, from: Seq<char>, to: Seq<char>, i: int) -> bool {
    target_name(v, from, to, i) != v[i].name@ ==> {
        &&& forall|j: int|
            0 <= j < i ==> #[trigger] target_name(v, from, to, j) != target_name(v, from, to, i)
        &&& forall|j: int| i < j < v.len() ==> #[trigger] v[j].name@ != target_name(v, from, to, i)
    }
}

/// Every rename in the list is free of collisions at the moment it runs.
pub open spec fn renames_collision_free(v: Seq<FsEntry>, from: Seq<char>, to: Seq<char>) -> bool {
    forall|i: int| 0 <= i < v.len() ==> #[trigger] rename_free_at(v, from, to, i)
}

/// The renaming pass covers this tree without a collision, at any depth.
pub open spec fn names_ok(n: FsNode, from: Seq<char>, to: Seq<char>) -> bool
    decreases n, 1int,
{
    match n {
        FsNode::File { .. } => true,
        FsNode::Dir { entries } => renames_collision_free(entries@, from, to) && entries_names_ok(
            entries@,
            from,
            to,
        ),
    }
}

pub open spec fn entries_names_ok(v: Seq<FsEntry>, from: Seq<char>, to: Seq<char>) -> bool
    decreases v, 0int,
{
    if v.len() == 0 {
        true
    } else {
        entries_names_ok(v.drop_last(), from, to) && names_ok(v.last().node, from, to)
    }
}

/// `b` is `a` after the renaming pass: same shape and file content, every
/// name rewritten by the leading-segment rule.
pub open spec fn names_substituted(a: FsNode, b: FsNode, from: Seq<char>, to: Seq<char>) -> bool
    decreases a, 1int,
{
    match a {
        FsNode::File { content: c1, executable: e1 } => match b {
            FsNode::File { content: c2, executable: e2 } => c2@ == c1@ && e2 == e1,
            FsNode::Dir { .. } => false,
        },
        FsNode::Dir { entries: v1 } => match b {
            FsNode::File { .. } => false,
            FsNode::Dir { entries: v2 } => entries_names_substituted(v1@, v2@, from, to),
        },
    }
}

pub open spec fn entries_names_substituted(
    v1: Seq<FsEntry>,
    v2: Seq<FsEntry>,
    from: Seq<char>,
    to: Seq<char>,
) -> bool
    decreases v1, 0int,
{
    if v1.len() != v2.len() {
        false
    } else if v1.len() == 0 {
        true
    } else {
        &&& entries_names_substituted(v1.drop_last(), v2.drop_last(), from, to)
        &&& v2.last().name@ == substituted_name_spec(v1.last().name@, from, to)
        &&& names_substituted(v1.last().node, v2.last().node, from, to)
    }
}

/// What the renaming relation says of one position.
pub proof fn lemma_entries_names_substituted_index(
    v1: Seq<FsEntry>,
    v2: Seq<FsEntry>,
    from: Seq<char>,
    to: Seq<char>,
    k: int,
)
    requires
        entries_names_substituted(v1, v2, from, to),
        0 <= k < v1.len(),
    ensures
        v1.len() == v2.len(),
        v2[k].name@ == substituted_name_spec(v1[k].name@, from, to),
        names_substituted(v1[k].node, v2[k].node, from, to),
    decreases v1,
{
    if k < v1.len() - 1 {
        lemma_entries_names_substituted_index(v1.drop_last(), v2.drop_last(), from, to, k);
    }
}

proof fn lemma_entries_names_ok_index(v: Seq<FsEntry>, from: Seq<char>, to: Seq<char>, k: int)
    requires
        entries_names_ok(v, from, to),
        0 <= k < v.len(),
    ensures
        names_ok(v[k].node, from, to),
    decreases v,
{
    if k < v.len() - 1 {
        lemma_entries_names_ok_index(v.drop_last(), from, to, k);
    }
}

/// Rename, throughout the tree, every entry whose leading dot-segment equals
/// `from` — a directory is renamed before it is descended into, so children
/// are reached under the parent's new name. A rename that would land on a
/// name a sibling carries at that moment is an `IoError` holding the
/// contested name, and aborts the pass.
#[verifier::loop_isolation(false)]
pub fn substitute_tree_names(node: &FsNode, from: &str, to: &str) -> (r: Result<FsNode, SkError>)
    ensures
        r is Ok <==> names_ok(*node, from@, to@),
        r matches Ok(out) ==> names_substituted(*node, out, from@, to@),
        r matches Err(e) ==> e is IoError,
    decreases *node,
{
    match node {
        FsNode::File { content, executable } => Ok(
            FsNode::File { content: content.clone(), executable: *executable },
        ),
        FsNode::Dir { entries } => {
            let ghost v0 = entries@;
            let n = entries.len();
            let mut out: Vec<FsEntry> = Vec::new();
            let mut i: usize = 0;
            proof {
                assert(v0.take(0) =~= Seq::<FsEntry>::empty());
            }
            while i < n
                invariant
                    i <= n,
                    n == v0.len(),
                    out@.len() == i,
                    entries_names_substituted(v0.take(i as int), out@, from@, to@),
                    entries_names_ok(v0.take(i as int), from@, to@),
                    forall|k: int| 0 <= k < i ==> #[trigger] rename_free_at(v0, from@, to@, k),
                decreases n - i,
            {
                let e = &entries[i];
                let new_name = substitute_name(e.name.as_str(), from, to);
                if new_name != e.name {
                    match find_entry(&out, &new_name, 0, i) {
                        Some(c) => {
                            proof {
                                lemma_entries_names_substituted_index(
                                    v0.take(i as int),
                                    out@,
                                    from@,
                                    to@,
                                    c as int,
                                );
                                assert(target_name(v0, from@, to@, c as int) == target_name(
                                    v0,
                                    from@,
                                    to@,
                                    i as int,
                                ));
                                assert(!rename_free_at(v0, from@, to@, i as int));
                            }
                            return Err(SkError::IoError { path: new_name });
                        },
                        None => {},
                    }
                    match find_entry(entries, &new_name, i + 1, n) {
                        Some(c) => {
                            proof {
                                assert(v0[c as int].name@ == target_name(v0, from@, to@, i as int));
                                assert(!rename_free_at(v0, from@, to@, i as int));
                            }
                            return Err(SkError::IoError { path: new_name });
                        },
                        None => {},
                    }
                }
                proof {
                    assert(decreases_to!(*node => *entries));
                    assert(decreases_to!(*entries => entries@));
                    assert(decreases_to!(entries@ => entries@[i as int]));
                    assert(e == entries@[i as int]);
                }
                let sub = match substitute_tree_names(&e.node, from, to) {
                    Ok(s) => s,
                    Err(er) => {
                        proof {
                            if entries_names_ok(v0, from@, to@) {
                                lemma_entries_names_ok_index(v0, from@, to@, i as int);
                            }
                        }
                        return Err(er);
                    },
                };
                let ghost out0 = out@;
                out.push(FsEntry { name: new_name, node: sub });
                proof {
                    assert(out@.drop_last() =~= out0);
                    assert(v0.take(i + 1).drop_last() =~= v0.take(i as int));
                    assert(v0.take(i + 1).last() == v0[i as int]);
                    assert forall|k: int| 0 <= k < i + 1 implies #[trigger] rename_free_at(
                        v0,
                        from@,
                        to@,
                        k,
                    ) by {
                        if k == i {
                            if target_name(v0, from@, to@, k) != v0[k].name@ {
                                assert forall|j: int| 0 <= j < k implies #[trigger] target_name(
                                    v0,
                                    from@,
                                    to@,
                                    j,
                                ) != target_name(v0, from@, to@, k) by {
                                    lemma_entries_names_substituted_index(
                                        v0.take(i as int),
                                        out0,
                                        from@,
                                        to@,
                                        j,
                                    );
                                }
                            }
                        }
                    }
                }
                i += 1;
            }
            proof {
                assert(v0.take(n as int) =~= v0);
            }
            Ok(FsNode::Dir { entries: out })
        },
    }
}

/// Name-pass idempotence: once a pass has rewritten tree `a` into tree `b`,
/// nothing in `b` still matches the token, so a second pass succeeds and
/// gives `b` back — provided the replacement's own leading segment does not
/// equal the token.
pub proof fn lemma_name_pass_idempotent(
    a: FsNode,
    b: FsNode,
    c: FsNode,
    from: Seq<char>,
    to: Seq<char>,
)
    requires
        rename_stable(from, to),
        names_substituted(a, b, from, to),
        names_substituted(b, c, from, to),
    ensures
        names_ok(b, from, to),
        node_eq(c, b),
    decreases a, 1int,
{
    match a {
        FsNode::File { .. } => {},
        FsNode::Dir { entries: av } => {
            let bv = b->Dir_entries;
            let cv = c->Dir_entries;
            assert forall|k: int| 0 <= k < bv@.len() implies #[trigger] substituted_name_spec(
                bv@[k].name@,
                from,
                to,
            ) == bv@[k].name@ by {
                lemma_entries_names_substituted_index(av@, bv@, from, to, k);
                lemma_substitute_name_idempotent(av@[k].name@, from, to);
            }
            assert forall|i: int| 0 <= i < bv@.len() implies #[trigger] rename_free_at(
                bv@,
                from,
                to,
                i,
            ) by {
                assert(target_name(bv@, from, to, i) == bv@[i].name@);
            }
            lemma_name_pass_idem_entries(av@, bv@, cv@, from, to, av@.len() as int);
            assert(bv@.take(av@.len() as int) =~= bv@);
            assert(cv@.take(av@.len() as int) =~= cv@);
        },
    }
}

proof fn lemma_name_pass_idem_entries(
    av: Seq<FsEntry>,
    bv: Seq<FsEntry>,
    cv: Seq<FsEntry>,
    from: Seq<char>,
    to: Seq<char>,
    k: int,
)
    requires
        rename_stable(from, to),
        entries_names_substituted(av, bv, from, to),
        entries_names_substituted(bv, cv, from, to),
        0 <= k <= av.len(),
    ensures
        entries_names_ok(bv.take(k), from, to),
        entries_eq(cv.take(k), bv.take(k)),
    decreases av, k,
{
    if k == 0 {
        assert(bv.take(0) =~= Seq::<FsEntry>::empty());
        assert(cv.take(0) =~= Seq::<FsEntry>::empty());
    } else {
        lemma_name_pass_idem_entries(av, bv, cv, from, to, k - 1);
        lemma_entries_names_substituted_index(av, bv, from, to, k - 1);
        lemma_entries_names_substituted_index(bv, cv, from, to, k - 1);
        lemma_substitute_name_idempotent(av[k - 1].name@, from, to);
        lemma_name_pass_idempotent(av[k - 1].node, bv[k - 1].node, cv[k - 1].node, from, to);
        assert(bv.take(k).drop_last() =~= bv.take(k - 1));
        assert(cv.take(k).drop_last() =~= cv.take(k - 1));
        assert(bv.take(k).last() == bv[k - 1]);
        assert(cv.take(k).last() == cv[k - 1]);
    }
}

} // verus!
