//! Building a scan: entries are recorded one per visited path in walk
//! order, then linked into a parent/child graph over the flat arena, and
//! finally directory sizes are rewritten bottom-up, deepest first.

use vstd::prelude::*;

use crate::clip64;
use crate::entry::{
    entry_wf, file_size_sum, num_dirs, num_files, unique_paths, views, FileEntry, FileEntryV,
    ScanResult,
};
use crate::paths::{depth_of, extension_of, lemma_parent_depth, name_of, parent_of};

verus! {

/// Indices (in increasing order) of the entries among the first `n` whose
/// parent is the path `p`.
pub open spec fn child_indices(s: Seq<FileEntryV>, p: Seq<char>, n: int) -> Seq<int>
    decreases n,
{
    if n <= 0 {
        Seq::empty()
    } else if s[n - 1].parent == Some(p) {
        child_indices(s, p, n - 1).push(n - 1)
    } else {
        child_indices(s, p, n - 1)
    }
}

/// Sum of the sizes of the entries at the given indices.
pub open spec fn sum_at(s: Seq<FileEntryV>, idxs: Seq<int>) -> int
    decreases idxs.len(),
{
    if idxs.len() == 0 {
        0
    } else {
        sum_at(s, idxs.drop_last()) + s[idxs.last()].size
    }
}

/// Sum of the sizes of the immediate children of the path `p`.
pub open spec fn child_sum(s: Seq<FileEntryV>, p: Seq<char>) -> int {
    sum_at(s, child_indices(s, p, s.len() as int))
}

/// Paths of the entries among the first `n` whose parent is the path `p`.
pub open spec fn child_paths(s: Seq<FileEntryV>, p: Seq<char>, n: int) -> Seq<Seq<char>> {
    child_indices(s, p, n).map_values(|j: int| s[j].path)
}

/// The record the builder appends for one readable visited path.
pub open spec fn visit_view(path: Seq<char>, size: u64, is_directory: bool, modified: i64) -> FileEntryV {
    FileEntryV {
        path,
        name: name_of(path),
        size: if is_directory {
            0u64
        } else {
            size
        },
        is_directory,
        modified,
        extension: extension_of(path),
        parent: parent_of(path),
        children: Seq::empty(),
    }
}

/// Each child index lies below `n` and names an entry whose parent is `p`;
/// conversely every such entry is listed.
pub proof fn lemma_child_indices_props(s: Seq<FileEntryV>, p: Seq<char>, n: int)
    requires
        n <= s.len(),
    ensures
        forall|k: int|
            0 <= k < child_indices(s, p, n).len() ==> {
                let j = #[trigger] child_indices(s, p, n)[k];
                0 <= j < n && s[j].parent == Some(p)
            },
        forall|j: int|
            0 <= j < n && s[j].parent == Some(p) ==> child_indices(s, p, n).contains(j),
    decreases n,
{
    if n > 0 {
        lemma_child_indices_props(s, p, n - 1);
        assert forall|j: int|
            0 <= j < n && s[j].parent == Some(p) implies child_indices(s, p, n).contains(j) by {
            if j < n - 1 {
                assert(child_indices(s, p, n - 1).contains(j));
                if s[n - 1].parent == Some(p) {
                    vstd::seq_lib::lemma_seq_contains_after_push(
                        child_indices(s, p, n - 1),
                        n - 1,
                        j,
                    );
                }
            } else {
                assert(child_indices(s, p, n).last() == j);
            }
        }
    }
}

/// Child indices depend on parent fields alone.
pub proof fn lemma_child_indices_frame(s1: Seq<FileEntryV>, s2: Seq<FileEntryV>, p: Seq<char>, n: int)
    requires
        forall|i: int| 0 <= i < n ==> s1[i].parent == s2[i].parent,
    ensures
        child_indices(s1, p, n) == child_indices(s2, p, n),
    decreases n,
{
    if n > 0 {
        lemma_child_indices_frame(s1, s2, p, n - 1);
    }
}

/// A sum over indices depends only on the sizes at those indices.
pub proof fn lemma_sum_at_frame(s1: Seq<FileEntryV>, s2: Seq<FileEntryV>, idxs: Seq<int>)
    requires
        forall|k: int| 0 <= k < idxs.len() ==> s1[#[trigger] idxs[k]].size == s2[idxs[k]].size,
    ensures
        sum_at(s1, idxs) == sum_at(s2, idxs),
    decreases idxs.len(),
{
    if idxs.len() > 0 {
        assert(forall|k: int|
            0 <= k < idxs.drop_last().len() ==> #[trigger] idxs.drop_last()[k] == idxs[k]);
        lemma_sum_at_frame(s1, s2, idxs.drop_last());
    }
}

/// Peeling one index off the front of a partial sum.
pub proof fn lemma_sum_at_take_step(s: Seq<FileEntryV>, idxs: Seq<int>, c: int)
    requires
        0 <= c < idxs.len(),
    ensures
        sum_at(s, idxs.take(c + 1)) == sum_at(s, idxs.take(c)) + s[idxs[c]].size,
{
    assert(idxs.take(c + 1).drop_last() =~= idxs.take(c));
    assert(idxs.take(c + 1).last() == idxs[c]);
}

/// Sums of sizes are never negative.
pub proof fn lemma_sum_at_nonneg(s: Seq<FileEntryV>, idxs: Seq<int>)
    ensures
        sum_at(s, idxs) >= 0,
    decreases idxs.len(),
{
    if idxs.len() > 0 {
        lemma_sum_at_nonneg(s, idxs.drop_last());
    }
}

/// Sums of file sizes are never negative.
pub proof fn lemma_file_size_sum_nonneg(s: Seq<FileEntryV>)
    ensures
        file_size_sum(s) >= 0,
    decreases s.len(),
{
    if s.len() > 0 {
        lemma_file_size_sum_nonneg(s.drop_last());
    }
}

/// Position-wise agreement of everything but the size and children fields.
pub open spec fn same_shape_at(x: FileEntryV, y: FileEntryV) -> bool {
    &&& x.path == y.path
    &&& x.name == y.name
    &&& x.is_directory == y.is_directory
    &&& x.modified == y.modified
    &&& x.extension == y.extension
    &&& x.parent == y.parent
}

/// Two entry sequences that differ at most in sizes and children lists.
pub open spec fn same_shape(a: Seq<FileEntryV>, b: Seq<FileEntryV>) -> bool {
    &&& a.len() == b.len()
    &&& forall|i: int| 0 <= i < a.len() ==> #[trigger] same_shape_at(a[i], b[i])
}

/// The file and directory counts depend on the shape alone.
pub proof fn lemma_counts_frame(a: Seq<FileEntryV>, b: Seq<FileEntryV>)
    requires
        same_shape(a, b),
    ensures
        num_files(a) == num_files(b),
        num_dirs(a) == num_dirs(b),
    decreases a.len(),
{
    if a.len() > 0 {
        assert(same_shape_at(a[a.len() - 1], b[a.len() - 1]));
        assert(same_shape(a.drop_last(), b.drop_last())) by {
            assert forall|i: int|
                0 <= i < a.drop_last().len() implies #[trigger] same_shape_at(
                a.drop_last()[i],
                b.drop_last()[i],
            ) by {
                assert(same_shape_at(a[i], b[i]));
            }
        }
        lemma_counts_frame(a.drop_last(), b.drop_last());
    }
}

/// The sum of file sizes depends on the shape and the file sizes alone.
pub proof fn lemma_file_size_sum_frame(a: Seq<FileEntryV>, b: Seq<FileEntryV>)
    requires
        same_shape(a, b),
        forall|i: int| 0 <= i < a.len() ==> (!a[i].is_directory ==> a[i].size == (#[trigger] b[i]).size),
    ensures
        file_size_sum(a) == file_size_sum(b),
    decreases a.len(),
{
    if a.len() > 0 {
        assert(same_shape_at(a[a.len() - 1], b[a.len() - 1]));
        assert(same_shape(a.drop_last(), b.drop_last())) by {
            assert forall|i: int|
                0 <= i < a.drop_last().len() implies #[trigger] same_shape_at(
                a.drop_last()[i],
                b.drop_last()[i],
            ) by {
                assert(same_shape_at(a[i], b[i]));
            }
        }
        lemma_file_size_sum_frame(a.drop_last(), b.drop_last());
    }
}

/// Finds the index of the entry carrying the given path, if any.
pub fn find_entry(entries: &Vec<FileEntry>, path: &String) -> (r: Option<usize>)
    ensures
        match r {
            Option::Some(j) => j < entries@.len() && views(entries@)[j as int].path == path@,
            Option::None => forall|j: int|
                0 <= j < entries@.len() ==> (#[trigger] views(entries@)[j]).path != path@,
        },
{
    let mut i: usize = 0;
    while i < entries.len()
        invariant
            i <= entries@.len(),
            forall|j: int| 0 <= j < i ==> (#[trigger] views(entries@)[j]).path != path@,
        decreases entries@.len() - i,
    {
        if entries[i].path == *path {
            return Some(i);
        }
        i = i + 1;
    }
    None
}

/// Second pass of the graph build: every entry whose parent path resolves
/// through the arena is appended to that parent's child list; entries whose
/// parent was skipped or lies outside the walk stay parentless.
fn link_children(entries: &mut Vec<FileEntry>)
    requires
        unique_paths(views(old(entries)@)),
        forall|i: int|
            0 <= i < old(entries)@.len() ==> (#[trigger] views(old(entries)@)[i]).children.len()
                == 0,
    ensures
        same_shape(views(old(entries)@), views(final(entries)@)),
        forall|i: int|
            0 <= i < final(entries)@.len() ==> (#[trigger] views(final(entries)@)[i]).size == views(
                old(entries)@,
            )[i].size,
        forall|i: int|
            0 <= i < final(entries)@.len() ==> (#[trigger] views(final(entries)@)[i]).children
                == child_paths(
                views(final(entries)@),
                views(final(entries)@)[i].path,
                final(entries)@.len() as int,
            ),
{
    let ghost v0 = views(entries@);
    let n = entries.len();
    let mut j: usize = 0;
    while j < n
        invariant
            n == entries@.len(),
            j <= n,
            same_shape(v0, views(entries@)),
            unique_paths(views(entries@)),
            forall|i: int| 0 <= i < n ==> (#[trigger] views(entries@)[i]).size == v0[i].size,
            forall|i: int|
                0 <= i < n ==> (#[trigger] views(entries@)[i]).children == child_paths(
                    views(entries@),
                    views(entries@)[i].path,
                    j as int,
                ),
        decreases n - j,
    {
        let ghost v = views(entries@);
        proof {
            assert(same_shape_at(v0[j as int], v[j as int]));
        }
        let pp = crate::entry::clone_opt_string(&entries[j].parent);
        let mut resolved: Option<usize> = None;
        match pp {
            Option::Some(p) => {
                resolved = find_entry(entries, &p);
                proof {
                    if resolved is None {
                        assert forall|i: int| 0 <= i < n implies v[j as int].parent != Some(
                            (#[trigger] v[i]).path,
                        ) by {}
                    }
                }
            },
            Option::None => {
                proof {
                    assert forall|i: int| 0 <= i < n implies v[j as int].parent != Some(
                        (#[trigger] v[i]).path,
                    ) by {}
                }
            },
        }
        match resolved {
            Option::None => {
                proof {
                    assert forall|i: int|
                        0 <= i < n implies (#[trigger] views(entries@)[i]).children == child_paths(
                        views(entries@),
                        views(entries@)[i].path,
                        j as int + 1,
                    ) by {
                        assert(child_indices(v, v[i].path, j as int + 1) == child_indices(
                            v,
                            v[i].path,
                            j as int,
                        ));
                    }
                }
            },
            Option::Some(pi) => {
                let child_path = entries[j].path.clone();
                let mut pe = entries[pi].clone();
                let ghost pev = pe@;
                pe.children.push(child_path);
                proof {
                    assert(pe@.children =~= v[pi as int].children.push(v[j as int].path));
                }
                let ghost pev2 = pe@;
                entries[pi] = pe;
                proof {
                    let w = views(entries@);
                    assert(w =~= v.update(pi as int, pev2));
                    let pq = v[pi as int].path;
                    assert(v[j as int].parent == Some(pq));
                    lemma_child_indices_props(v, pq, j as int);
                    // shape, sizes and uniqueness survive: only a child list grew
                    assert(same_shape(v0, w)) by {
                        assert forall|i: int|
                            0 <= i < n implies #[trigger] same_shape_at(v0[i], w[i]) by {
                            assert(same_shape_at(v0[i], v[i]));
                        }
                    }
                    assert forall|i: int|
                        0 <= i < n implies (#[trigger] w[i]).size == v0[i].size by {}
                    assert forall|i: int|
                        0 <= i < n implies (#[trigger] w[i]).children == child_paths(
                        w,
                        w[i].path,
                        j as int + 1,
                    ) by {
                        let q = w[i].path;
                        assert(q == v[i].path);
                        lemma_child_indices_frame(v, w, q, j as int);
                        lemma_child_indices_props(w, q, j as int);
                        if i == pi as int {
                            assert(w[j as int].parent == Some(q));
                            assert(child_indices(w, q, j as int + 1) == child_indices(
                                w,
                                q,
                                j as int,
                            ).push(j as int));
                            assert(w[i].children =~= child_paths(w, q, j as int + 1)) by {
                                assert(v[i].children == child_paths(v, q, j as int));
                                assert forall|k: int|
                                    0 <= k < child_indices(v, q, j as int).len() implies v[
                                    #[trigger] child_indices(v, q, j as int)[k]].path == w[
                                child_indices(w, q, j as int)[k]].path by {
                                    let x = child_indices(v, q, j as int)[k];
                                    assert(same_shape_at(v0[x], v[x]));
                                }
                            }
                        } else {
                            // another entry: the new link is not its child
                            assert(v[i].path != v[pi as int].path);
                            assert(w[j as int].parent != Some(q));
                            assert(child_indices(w, q, j as int + 1) == child_indices(
                                w,
                                q,
                                j as int,
                            ));
                            assert(w[i].children =~= child_paths(w, q, j as int + 1)) by {
                                assert(v[i].children == child_paths(v, q, j as int));
                                assert forall|k: int|
                                    0 <= k < child_indices(v, q, j as int).len() implies v[
                                    #[trigger] child_indices(v, q, j as int)[k]].path == w[
                                child_indices(w, q, j as int)[k]].path by {}
                            }
                        }
                    }
                }
            },
        }
        j = j + 1;
    }
    proof {
        assert(views(entries@).len() == n);
        assert forall|i: int|
            0 <= i < n implies (#[trigger] views(entries@)[i]).children == child_paths(
            views(entries@),
            views(entries@)[i].path,
            n as int,
        ) by {}
    }
}

/// The shape of a finished scan: every child list holds exactly the paths
/// of the entries whose parent the holder is, and every directory's size is
/// the saturating sum of its immediate children's sizes.
pub open spec fn aggregated(s: Seq<FileEntryV>) -> bool {
    &&& forall|i: int|
        0 <= i < s.len() ==> ((#[trigger] s[i]).is_directory ==> s[i].size == clip64(
            child_sum(s, s[i].path),
        ))
    &&& forall|i: int|
        0 <= i < s.len() ==> (#[trigger] s[i]).children == child_paths(
            s,
            s[i].path,
            s.len() as int,
        )
}

/// One directory's position in the arena with its separator depth, used to
/// order the bottom-up sweep.
#[derive(Clone, Copy, PartialEq, Eq, Structural)]
struct DirRef {
    pub depth: usize,
    pub idx: usize,
}

/// A directory reference agrees with the arena.
spec fn ref_ok(v: Seq<FileEntryV>, r: DirRef) -> bool {
    &&& (r.idx as int) < v.len()
    &&& v[r.idx as int].is_directory
    &&& r.depth == depth_of(v[r.idx as int].path)
}

/// Sorts directory references by depth, deepest first.
fn sort_dir_refs(refs: Vec<DirRef>) -> (out: Vec<DirRef>)
    ensures
        out@.to_multiset() == refs@.to_multiset(),
        forall|a: int, b: int| 0 <= a <= b < out@.len() ==> out@[a].depth >= out@[b].depth,
{
    broadcast use vstd::seq_lib::group_to_multiset_ensures;

    let mut input = refs;
    let ghost orig = input@;
    let mut out: Vec<DirRef> = Vec::new();
    proof {
        assert(out@.to_multiset().add(input@.to_multiset()) =~= orig.to_multiset());
    }
    while input.len() > 0
        invariant
            out@.to_multiset().add(input@.to_multiset()) == orig.to_multiset(),
            forall|a: int, b: int| 0 <= a <= b < out@.len() ==> out@[a].depth >= out@[b].depth,
            forall|a: int, b: int|
                0 <= a < out@.len() && 0 <= b < input@.len() ==> out@[a].depth >= input@[b].depth,
        decreases input@.len(),
    {
        let mut m: usize = 0;
        let mut x: usize = 1;
        while x < input.len()
            invariant
                m < input@.len(),
                x <= input@.len(),
                input@.len() > 0,
                forall|y: int| 0 <= y < x ==> input@[y].depth <= input@[m as int].depth,
            decreases input@.len() - x,
        {
            if input[x].depth > input[m].depth {
                m = x;
            }
            x = x + 1;
        }
        let ghost old_input = input@;
        let ghost old_out = out@;
        let r = input.remove(m);
        out.push(r);
        proof {
            broadcast use vstd::seq_lib::group_to_multiset_ensures;

            assert(old_input.contains(r));
            assert(out@.to_multiset().add(input@.to_multiset()) =~= orig.to_multiset());
            assert forall|a: int, b: int|
                0 <= a < out@.len() && 0 <= b < input@.len() implies out@[a].depth
                >= input@[b].depth by {
                assert(input@[b] == if b < m {
                    old_input[b]
                } else {
                    old_input[b + 1]
                });
                if a < old_out.len() {
                    assert(out@[a] == old_out[a]);
                } else {
                    assert(out@[a] == r);
                }
            }
            assert forall|a: int, b: int|
                0 <= a <= b < out@.len() implies out@[a].depth >= out@[b].depth by {
                if b == out@.len() - 1 && a < b {
                    assert(old_out[a].depth >= old_input[m as int].depth);
                }
            }
        }
    }
    proof {
        broadcast use vstd::seq_lib::group_to_multiset_ensures;

        assert(input@.to_multiset().len() == 0);
        assert(out@.to_multiset() =~= out@.to_multiset().add(input@.to_multiset()));
    }
    out
}

/// Third pass: rewrites every directory's size to the saturating sum of its
/// immediate children's sizes, processing directories deepest first so each
/// child is final before its parent is summed.
fn aggregate_sizes(entries: &mut Vec<FileEntry>)
    requires
        forall|i: int|
            0 <= i < old(entries)@.len() ==> entry_wf(#[trigger] views(old(entries)@)[i]),
        unique_paths(views(old(entries)@)),
        forall|i: int|
            0 <= i < old(entries)@.len() ==> (#[trigger] views(old(entries)@)[i]).children
                == child_paths(
                views(old(entries)@),
                views(old(entries)@)[i].path,
                old(entries)@.len() as int,
            ),
    ensures
        same_shape(views(old(entries)@), views(final(entries)@)),
        forall|i: int|
            0 <= i < final(entries)@.len() ==> (#[trigger] views(final(entries)@)[i]).children
                == views(old(entries)@)[i].children,
        forall|i: int|
            0 <= i < final(entries)@.len() ==> (!(#[trigger] views(final(entries)@)[i]).is_directory
                ==> views(final(entries)@)[i].size == views(old(entries)@)[i].size),
        aggregated(views(final(entries)@)),
{
    broadcast use vstd::seq_lib::group_to_multiset_ensures;

    let ghost v = views(entries@);
    let n = entries.len();
    // gather one reference per directory
    let mut refs: Vec<DirRef> = Vec::new();
    let mut i: usize = 0;
    while i < n
        invariant
            n == entries@.len(),
            views(entries@) == v,
            i <= n,
            forall|k: int| 0 <= k < refs@.len() ==> ref_ok(v, #[trigger] refs@[k]),
            forall|k: int| 0 <= k < refs@.len() ==> (#[trigger] refs@[k]).idx < i,
            forall|k1: int, k2: int|
                0 <= k1 < k2 < refs@.len() ==> refs@[k1].idx < refs@[k2].idx,
            forall|d: int|
                0 <= d < i && (#[trigger] v[d]).is_directory ==> exists|k: int|
                    0 <= k < refs@.len() && (#[trigger] refs@[k]).idx == d,
        decreases n - i,
    {
        if entries[i].is_directory {
            let ghost old_refs = refs@;
            let dep = crate::paths::depth_exec(entries[i].path.as_str());
            refs.push(DirRef { depth: dep, idx: i });
            proof {
                assert forall|d: int|
                    0 <= d < i + 1 && (#[trigger] v[d]).is_directory implies exists|k: int|
                    0 <= k < refs@.len() && (#[trigger] refs@[k]).idx == d by {
                    if d == i {
                        assert(refs@[refs@.len() - 1].idx == d);
                    } else {
                        let k0 = choose|k0: int|
                            0 <= k0 < old_refs.len() && (#[trigger] old_refs[k0]).idx == d;
                        assert(refs@[k0].idx == d);
                    }
                }
            }
        }
        i = i + 1;
    }
    let ghost refs0 = refs@;
    let refs = sort_dir_refs(refs);
    proof {
        assert forall|k: int| 0 <= k < refs@.len() implies ref_ok(v, #[trigger] refs@[k]) by {
            assert(refs@.contains(refs@[k]));
            assert(refs@.to_multiset().count(refs@[k]) > 0);
            assert(refs0.to_multiset().count(refs@[k]) > 0);
            assert(refs0.contains(refs@[k]));
            let y = choose|y: int| 0 <= y < refs0.len() && refs0[y] == refs@[k];
            assert(ref_ok(v, refs0[y]));
        }
        assert forall|d: int|
            0 <= d < n && (#[trigger] v[d]).is_directory implies exists|k: int|
            0 <= k < refs@.len() && (#[trigger] refs@[k]).idx == d by {
            let y = choose|y: int| 0 <= y < refs0.len() && (#[trigger] refs0[y]).idx == d;
            assert(refs0.contains(refs0[y]));
            assert(refs0.to_multiset().count(refs0[y]) > 0);
            assert(refs@.to_multiset().count(refs0[y]) > 0);
            assert(refs@.contains(refs0[y]));
            let kk = choose|kk: int| 0 <= kk < refs@.len() && refs@[kk] == refs0[y];
            assert(refs@[kk].idx == d);
        }
        assert(refs0.no_duplicates()) by {
            assert forall|y1: int, y2: int|
                0 <= y1 < refs0.len() && 0 <= y2 < refs0.len() && y1 != y2 implies refs0[y1]
                != refs0[y2] by {
                if y1 < y2 {
                    assert(refs0[y1].idx < refs0[y2].idx);
                } else {
                    assert(refs0[y2].idx < refs0[y1].idx);
                }
            }
        }
        refs0.lemma_multiset_has_no_duplicates();
        assert forall|x: DirRef|
            refs@.to_multiset().contains(x) implies refs@.to_multiset().count(x) == 1 by {
            assert(refs0.to_multiset().count(x) == refs@.to_multiset().count(x));
        }
        refs@.lemma_multiset_has_no_duplicates_conv();
        assert forall|k1: int, k2: int|
            0 <= k1 < k2 < refs@.len() implies refs@[k1].idx != refs@[k2].idx by {
            if refs@[k1].idx == refs@[k2].idx {
                assert(refs@.contains(refs@[k1]));
                assert(refs@.contains(refs@[k2]));
                assert(refs0.to_multiset().count(refs@[k1]) > 0);
                assert(refs0.to_multiset().count(refs@[k2]) > 0);
                assert(refs0.contains(refs@[k1]));
                assert(refs0.contains(refs@[k2]));
                let y1 = choose|y1: int| 0 <= y1 < refs0.len() && refs0[y1] == refs@[k1];
                let y2 = choose|y2: int| 0 <= y2 < refs0.len() && refs0[y2] == refs@[k2];
                if y1 < y2 {
                    assert(refs0[y1].idx < refs0[y2].idx);
                } else if y2 < y1 {
                    assert(refs0[y2].idx < refs0[y1].idx);
                }
                assert(refs@[k1] == refs@[k2]);
                assert(false);
            }
        }
    }
    let mut k: usize = 0;
    while k < refs.len()
        invariant
            n == entries@.len(),
            k <= refs@.len(),
            forall|kk: int| 0 <= kk < refs@.len() ==> ref_ok(v, #[trigger] refs@[kk]),
            forall|a: int, b: int| 0 <= a <= b < refs@.len() ==> refs@[a].depth >= refs@[b].depth,
            forall|k1: int, k2: int|
                0 <= k1 < k2 < refs@.len() ==> refs@[k1].idx != refs@[k2].idx,
            forall|d: int|
                0 <= d < n && (#[trigger] v[d]).is_directory ==> exists|kk: int|
                    0 <= kk < refs@.len() && (#[trigger] refs@[kk]).idx == d,
            same_shape(v, views(entries@)),
            forall|i2: int| 0 <= i2 < n ==> entry_wf(#[trigger] views(entries@)[i2]),
            unique_paths(views(entries@)),
            forall|i2: int|
                0 <= i2 < n ==> (#[trigger] views(entries@)[i2]).children == v[i2].children,
            forall|i2: int|
                0 <= i2 < n ==> (!(#[trigger] v[i2]).is_directory ==> views(entries@)[i2].size
                    == v[i2].size),
            forall|i2: int|
                0 <= i2 < n ==> (#[trigger] views(entries@)[i2]).children == child_paths(
                    views(entries@),
                    views(entries@)[i2].path,
                    n as int,
                ),
            forall|m: int|
                0 <= m < k ==> {
                    let d = (#[trigger] refs@[m]).idx as int;
                    views(entries@)[d].size == clip64(
                        child_sum(views(entries@), views(entries@)[d].path),
                    )
                },
        decreases refs@.len() - k,
    {
        let idx = refs[k].idx;
        let ghost w = views(entries@);
        let ghost p = w[idx as int].path;
        let ghost cis = child_indices(w, p, n as int);
        proof {
            assert(ref_ok(v, refs@[k as int]));
            assert(same_shape_at(v[idx as int], w[idx as int]));
            lemma_child_indices_props(w, p, n as int);
            assert(w[idx as int].children == child_paths(w, p, n as int));
        }
        let cl = entries[idx].children.len();
        let mut c: usize = 0;
        let mut acc: u64 = 0;
        proof {
            assert(cis.take(0) =~= Seq::<int>::empty());
            assert(cl == w[idx as int].children.len());
        }
        while c < cl
            invariant
                n == entries@.len(),
                views(entries@) == w,
                idx < n,
                p == w[idx as int].path,
                cis == child_indices(w, p, n as int),
                w[idx as int].children == child_paths(w, p, n as int),
                cl == cis.len(),
                cl == w[idx as int].children.len(),
                unique_paths(w),
                c <= cl,
                acc == clip64(sum_at(w, cis.take(c as int))),
            decreases cl - c,
        {
            proof {
                lemma_child_indices_props(w, p, n as int);
            }
            let cp = entries[idx].children[c].clone();
            proof {
                assert(cp@ == child_paths(w, p, n as int)[c as int]);
                assert(cp@ == w[cis[c as int]].path);
            }
            let found = find_entry(entries, &cp);
            proof {
                if found is None {
                    assert(w[cis[c as int]].path != cp@);
                }
            }
            let ci = found.unwrap();
            proof {
                if ci as int != cis[c as int] {
                    if (ci as int) < cis[c as int] {
                        assert(w[ci as int].path != w[cis[c as int]].path);
                    } else {
                        assert(w[cis[c as int]].path != w[ci as int].path);
                    }
                    assert(false);
                }
            }
            let s = entries[ci].size;
            proof {
                lemma_sum_at_take_step(w, cis, c as int);
                lemma_sum_at_nonneg(w, cis.take(c as int));
            }
            if acc <= u64::MAX - s {
                acc = acc + s;
            } else {
                acc = u64::MAX;
            }
            c = c + 1;
        }
        proof {
            assert(cis.take(cl as int) =~= cis);
            assert(acc == clip64(child_sum(w, p)));
        }
        let mut de = entries[idx].clone();
        de.size = acc;
        let ghost dev = de@;
        entries[idx] = de;
        proof {
            let w2 = views(entries@);
            assert(w2 =~= w.update(idx as int, dev));
            assert(same_shape_at(w[idx as int], dev));
            assert(dev.children == w[idx as int].children);
            // nothing but one directory size changed, so every structural
            // invariant survives
            assert(same_shape(v, w2)) by {
                assert forall|i2: int| 0 <= i2 < n implies #[trigger] same_shape_at(v[i2], w2[i2]) by {
                    assert(same_shape_at(v[i2], w[i2]));
                    assert(same_shape_at(w[i2], w2[i2]));
                }
            }
            assert forall|i2: int| 0 <= i2 < n implies entry_wf(#[trigger] w2[i2]) by {
                assert(entry_wf(w[i2]));
                assert(same_shape_at(w[i2], w2[i2]));
            }
            assert forall|i2: int|
                0 <= i2 < n implies (#[trigger] w2[i2]).children == child_paths(
                w2,
                w2[i2].path,
                n as int,
            ) by {
                let q = w[i2].path;
                lemma_child_indices_frame(w, w2, q, n as int);
                lemma_child_indices_props(w, q, n as int);
                assert(w2[i2].children == w[i2].children);
                assert(w[i2].children == child_paths(w, q, n as int));
                assert(child_paths(w, q, n as int) =~= child_paths(w2, q, n as int)) by {
                    assert forall|kk: int|
                        0 <= kk < child_indices(w, q, n as int).len() implies w[
                        #[trigger] child_indices(w, q, n as int)[kk]].path == w2[child_indices(
                        w2,
                        q,
                        n as int,
                    )[kk]].path by {}
                }
            }
            // the freshly summed directory and every one already done hold
            // the sum of their (now final) children
            assert forall|m: int|
                0 <= m < k + 1 implies {
                let d = (#[trigger] refs@[m]).idx as int;
                w2[d].size == clip64(child_sum(w2, w2[d].path))
            } by {
                let d = refs@[m].idx as int;
                let q = w[d].path;
                assert(ref_ok(v, refs@[m]));
                assert(same_shape_at(v[d], w[d]));
                lemma_child_indices_frame(w, w2, q, n as int);
                lemma_child_indices_props(w, q, n as int);
                let cisq = child_indices(w, q, n as int);
                // the rewritten entry cannot be a child of q: a child of q
                // is strictly deeper than every directory still to process
                assert forall|kk: int|
                    0 <= kk < cisq.len() implies w2[#[trigger] cisq[kk]].size == w[cisq[kk]].size by {
                    let j2 = cisq[kk];
                    if j2 == idx as int {
                        assert(w[j2].parent == Some(q));
                        assert(entry_wf(w[j2]));
                        lemma_parent_depth(w[j2].path);
                        assert(depth_of(q) < depth_of(w[idx as int].path));
                        if m < k {
                            assert(refs@[m].depth >= refs@[k as int].depth);
                            assert(depth_of(q) == refs@[m].depth);
                            assert(depth_of(w[idx as int].path) == refs@[k as int].depth);
                            assert(false);
                        } else {
                            assert(q == w[idx as int].path);
                            assert(false);
                        }
                    }
                }
                lemma_sum_at_frame(w2, w, cisq);
                if m < k {
                    assert(refs@[m].idx != refs@[k as int].idx);
                    assert(w2[d].size == w[d].size);
                } else {
                    assert(d == idx as int);
                    assert(w2[d].size == acc);
                }
            }
        }
        k = k + 1;
    }
    proof {
        let w = views(entries@);
        assert forall|i2: int|
            0 <= i2 < n && (#[trigger] w[i2]).is_directory implies w[i2].size == clip64(
            child_sum(w, w[i2].path),
        ) by {
            if w[i2].is_directory {
                assert(same_shape_at(v[i2], w[i2]));
                assert(v[i2].is_directory);
                let kk = choose|kk: int|
                    0 <= kk < refs@.len() && (#[trigger] refs@[kk]).idx == i2;
                assert(w[refs@[kk].idx as int].size == clip64(
                    child_sum(w, w[refs@[kk].idx as int].path),
                ));
            }
        }
        assert forall|i2: int|
            0 <= i2 < n && !(#[trigger] w[i2]).is_directory implies w[i2].size == v[i2].size by {
            assert(same_shape_at(v[i2], w[i2]));
        }
    }
}

/// Accumulates a walk into an entry arena, then finishes it into a
/// `ScanResult`. Duplicate paths and unreadable paths are skipped and
/// tallied; the walk may stop early and whatever was recorded still
/// aggregates into a consistent snapshot.
pub struct ScanBuilder {
    pub root_path: String,
    pub entries: Vec<FileEntry>,
    pub total_size: u64,
    pub file_count: u64,
    pub dir_count: u64,
    pub error_count: u64,
    pub visited: u64,
}

impl ScanBuilder {
    /// The views of the recorded entries.
    pub open spec fn v(self) -> Seq<FileEntryV> {
        views(self.entries@)
    }

    /// The builder's invariant during the recording phase.
    pub open spec fn wf(self) -> bool {
        &&& forall|i: int| 0 <= i < self.v().len() ==> entry_wf(#[trigger] self.v()[i])
        &&& unique_paths(self.v())
        &&& forall|i: int| 0 <= i < self.v().len() ==> (#[trigger] self.v()[i]).children.len() == 0
        &&& forall|i: int|
            0 <= i < self.v().len() ==> ((#[trigger] self.v()[i]).is_directory ==> self.v()[i].size
                == 0)
        &&& self.file_count == num_files(self.v())
        &&& self.dir_count == num_dirs(self.v())
        &&& self.total_size == clip64(file_size_sum(self.v()))
        &&& self.visited == self.file_count + self.dir_count + self.error_count
    }

    /// A fresh builder for the given root: nothing recorded yet.
    pub fn new(root_path: String) -> (b: ScanBuilder)
        ensures
            b.wf(),
            b.root_path@ == root_path@,
            b.v().len() == 0,
            b.visited == 0,
            b.error_count == 0,
    {
        let b = ScanBuilder {
            root_path,
            entries: Vec::new(),
            total_size: 0,
            file_count: 0,
            dir_count: 0,
            error_count: 0,
            visited: 0,
        };
        proof {
            assert(b.v() =~= Seq::<FileEntryV>::empty());
        }
        b
    }

    /// Records one readable visited path. A path already recorded is not
    /// recorded twice: the repeat is skipped and tallied as an error.
    pub fn record_entry(&mut self, path: String, size: u64, is_directory: bool, modified: i64) -> (fresh:
        bool)
        requires
            old(self).wf(),
            old(self).visited < u64::MAX,
        ensures
            final(self).wf(),
            final(self).root_path == old(self).root_path,
            final(self).visited == old(self).visited + 1,
            fresh == (forall|j: int|
                0 <= j < old(self).v().len() ==> (#[trigger] old(self).v()[j]).path != path@),
            fresh ==> {
                &&& final(self).v() == old(self).v().push(
                    visit_view(path@, size, is_directory, modified),
                )
                &&& final(self).error_count == old(self).error_count
                &&& final(self).dir_count == old(self).dir_count + if is_directory {
                    1int
                } else {
                    0int
                }
                &&& final(self).file_count == old(self).file_count + if is_directory {
                    0int
                } else {
                    1int
                }
                &&& final(self).total_size == clip64(
                    old(self).total_size + if is_directory {
                        0int
                    } else {
                        size as int
                    },
                )
            },
            !fresh ==> {
                &&& final(self).v() == old(self).v()
                &&& final(self).error_count == old(self).error_count + 1
                &&& final(self).dir_count == old(self).dir_count
                &&& final(self).file_count == old(self).file_count
                &&& final(self).total_size == old(self).total_size
            },
    {
        proof {
            lemma_file_size_sum_nonneg(self.v());
        }
        if find_entry(&self.entries, &path).is_some() {
            self.error_count = self.error_count + 1;
            self.visited = self.visited + 1;
            return false;
        }
        let ghost old_v = self.v();
        let e = FileEntry::new(path, size, is_directory, modified);
        self.entries.push(e);
        proof {
            assert(self.v() =~= old_v.push(e@));
            assert(self.v().drop_last() =~= old_v);
        }
        if is_directory {
            self.dir_count = self.dir_count + 1;
        } else {
            self.file_count = self.file_count + 1;
            if self.total_size <= u64::MAX - size {
                self.total_size = self.total_size + size;
            } else {
                self.total_size = u64::MAX;
            }
        }
        self.visited = self.visited + 1;
        true
    }

    /// Resolves the parent/child graph, rewrites directory sizes bottom-up,
    /// and seals the arena into an immutable snapshot. Works on whatever was
    /// recorded, so a cancelled walk still yields a consistent result.
    pub fn finish(self, scan_time: i64, duration_ms: u64) -> (r: ScanResult)
        requires
            self.wf(),
        ensures
            crate::entry::scan_wf(r),
            r.root_path == self.root_path,
            r.file_count == self.file_count,
            r.dir_count == self.dir_count,
            r.total_size == self.total_size,
            r.scan_time == scan_time,
            r.scan_duration == duration_ms,
            r.entries@.len() == self.entries@.len(),
            same_shape(self.v(), views(r.entries@)),
            forall|i: int|
                0 <= i < r.entries@.len() ==> (!(#[trigger] views(r.entries@)[i]).is_directory
                    ==> views(r.entries@)[i].size == self.v()[i].size),
            aggregated(views(r.entries@)),
            forall|ri: int|
                #[trigger] complete_arena(views(r.entries@), ri) ==> views(r.entries@)[ri].size
                    == r.total_size,
    {
        let ghost v0 = self.v();
        let ScanBuilder {
            root_path,
            mut entries,
            total_size,
            file_count,
            dir_count,
            error_count: _,
            visited: _,
        } = self;
        link_children(&mut entries);
        let ghost v1 = views(entries@);
        proof {
            assert forall|i: int| 0 <= i < v1.len() implies entry_wf(#[trigger] v1[i]) by {
                assert(same_shape_at(v0[i], v1[i]));
                assert(entry_wf(v0[i]));
            }
            assert(unique_paths(v1)) by {
                assert forall|i: int, j: int|
                    0 <= i < j < v1.len() implies v1[i].path != v1[j].path by {
                    assert(same_shape_at(v0[i], v1[i]));
                    assert(same_shape_at(v0[j], v1[j]));
                }
            }
        }
        aggregate_sizes(&mut entries);
        let ghost v2 = views(entries@);
        proof {
            assert(same_shape(v0, v2)) by {
                assert forall|i: int| 0 <= i < v0.len() implies #[trigger] same_shape_at(
                    v0[i],
                    v2[i],
                ) by {
                    assert(same_shape_at(v0[i], v1[i]));
                    assert(same_shape_at(v1[i], v2[i]));
                }
            }
            assert forall|i: int| 0 <= i < v2.len() implies entry_wf(#[trigger] v2[i]) by {
                assert(same_shape_at(v0[i], v2[i]));
                assert(entry_wf(v0[i]));
            }
            assert(unique_paths(v2)) by {
                assert forall|i: int, j: int|
                    0 <= i < j < v2.len() implies v2[i].path != v2[j].path by {
                    assert(same_shape_at(v0[i], v2[i]));
                    assert(same_shape_at(v0[j], v2[j]));
                }
            }
            lemma_counts_frame(v0, v2);
            assert(file_size_sum(v0) == file_size_sum(v2)) by {
                assert forall|i: int|
                    0 <= i < v0.len() && !v0[i].is_directory implies v0[i].size == (
                #[trigger] v2[i]).size by {
                    assert(same_shape_at(v0[i], v1[i]));
                    assert(same_shape_at(v1[i], v2[i]));
                }
                lemma_file_size_sum_frame(v0, v2);
            }
            assert forall|i: int|
                0 <= i < v2.len() && !(#[trigger] v2[i]).is_directory implies v2[i].size
                == v0[i].size by {
                assert(same_shape_at(v0[i], v1[i]));
                assert(same_shape_at(v1[i], v2[i]));
            }
        }
        proof {
            // the snapshot's reported total is the root's aggregated size
            // whenever the arena is complete
            assert forall|ri: int| #[trigger] complete_arena(v2, ri) implies v2[ri].size
                == total_size by {
                lemma_root_size_is_total(v2, ri);
                lemma_file_size_sum_nonneg(v2);
            }
        }
        ScanResult {
            root_path,
            total_size,
            file_count,
            dir_count,
            entries,
            scan_duration: duration_ms,
            scan_time,
        }
    }

    /// Tallies one visited path whose metadata could not be read.
    pub fn record_error(&mut self)
        requires
            old(self).wf(),
            old(self).visited < u64::MAX,
        ensures
            final(self).wf(),
            final(self).root_path == old(self).root_path,
            final(self).v() == old(self).v(),
            final(self).visited == old(self).visited + 1,
            final(self).error_count == old(self).error_count + 1,
            final(self).dir_count == old(self).dir_count,
            final(self).file_count == old(self).file_count,
            final(self).total_size == old(self).total_size,
    {
        self.error_count = self.error_count + 1;
        self.visited = self.visited + 1;
    }
}


/// Together the file and directory counts never exceed the number of paths
/// visited, and they reach it exactly when no visit failed.
pub proof fn lemma_counts_vs_visited(b: ScanBuilder)
    requires
        b.wf(),
    ensures
        b.file_count + b.dir_count <= b.visited,
        b.error_count == 0 ==> b.file_count + b.dir_count == b.visited,
{
}

/// Indices of the directories among the first `n` entries.
pub open spec fn dir_idx_list(s: Seq<FileEntryV>, n: int) -> Seq<int>
    decreases n,
{
    if n <= 0 {
        Seq::empty()
    } else if s[n - 1].is_directory {
        dir_idx_list(s, n - 1).push(n - 1)
    } else {
        dir_idx_list(s, n - 1)
    }
}

/// Each listed index names a directory below `n`, and every directory below
/// `n` is listed.
pub proof fn lemma_dir_idx_list_props(s: Seq<FileEntryV>, n: int)
    requires
        n <= s.len(),
    ensures
        forall|k: int|
            0 <= k < dir_idx_list(s, n).len() ==> {
                let d = #[trigger] dir_idx_list(s, n)[k];
                0 <= d < n && s[d].is_directory
            },
        forall|d: int| 0 <= d < n && s[d].is_directory ==> dir_idx_list(s, n).contains(d),
        forall|k1: int, k2: int|
            0 <= k1 < k2 < dir_idx_list(s, n).len() ==> dir_idx_list(s, n)[k1] < dir_idx_list(
                s,
                n,
            )[k2],
    decreases n,
{
    if n > 0 {
        lemma_dir_idx_list_props(s, n - 1);
        assert forall|d: int|
            0 <= d < n && s[d].is_directory implies dir_idx_list(s, n).contains(d) by {
            if d < n - 1 {
                assert(dir_idx_list(s, n - 1).contains(d));
                if s[n - 1].is_directory {
                    vstd::seq_lib::lemma_seq_contains_after_push(dir_idx_list(s, n - 1), n - 1, d);
                }
            } else {
                assert(dir_idx_list(s, n).last() == d);
            }
        }
    }
}

/// An entry whose parent is the path of some directory entry.
pub open spec fn resolved_to_dir(s: Seq<FileEntryV>, j: int) -> bool {
    exists|i: int|
        0 <= i < s.len() && (#[trigger] s[i]).is_directory && s[j].parent == Some(s[i].path)
}

/// A completely recorded arena: one directory stands at the top, every
/// other entry hangs under some directory, and no directory's child sum
/// outgrows its size field. A walk whose every metadata read succeeded
/// yields this; one with skipped parents leaves orphans outside, which then
/// count into the total but not into the root.
pub open spec fn complete_arena(s: Seq<FileEntryV>, ri: int) -> bool {
    &&& 0 <= ri < s.len()
    &&& s[ri].is_directory
    &&& !resolved_to_dir(s, ri)
    &&& forall|j: int| 0 <= j < s.len() && j != ri ==> resolved_to_dir(s, j)
    &&& forall|i: int|
        0 <= i < s.len() && (#[trigger] s[i]).is_directory ==> child_sum(s, s[i].path)
            <= u64::MAX
}

/// Sum of all entry sizes among the first `n`.
pub open spec fn size_total(s: Seq<FileEntryV>, n: int) -> int
    decreases n,
{
    if n <= 0 {
        0
    } else {
        size_total(s, n - 1) + s[n - 1].size
    }
}

/// Sum of the directory sizes among the first `n`.
pub open spec fn dir_size_total(s: Seq<FileEntryV>, n: int) -> int
    decreases n,
{
    if n <= 0 {
        0
    } else {
        dir_size_total(s, n - 1) + if s[n - 1].is_directory {
            s[n - 1].size as int
        } else {
            0int
        }
    }
}

/// Sum of the sizes resolved into some directory, among the first `n`.
pub open spec fn rdir_size_total(s: Seq<FileEntryV>, n: int) -> int
    decreases n,
{
    if n <= 0 {
        0
    } else {
        rdir_size_total(s, n - 1) + if resolved_to_dir(s, n - 1) {
            s[n - 1].size as int
        } else {
            0int
        }
    }
}

/// Sum of the child sums of the listed directories, over children among the
/// first `n` entries.
pub open spec fn dirs_child_total(s: Seq<FileEntryV>, ds: Seq<int>, n: int) -> int
    decreases ds.len(),
{
    if ds.len() == 0 {
        0
    } else {
        sum_at(s, child_indices(s, s[ds[0]].path, n)) + dirs_child_total(s, ds.drop_first(), n)
    }
}

/// Sum of the sizes at the listed indices.
pub open spec fn idx_size_total(s: Seq<FileEntryV>, ds: Seq<int>) -> int
    decreases ds.len(),
{
    if ds.len() == 0 {
        0
    } else {
        s[ds[0]].size + idx_size_total(s, ds.drop_first())
    }
}

/// Extending the child horizon by one entry adds its size to exactly the
/// child sum of its parent, when that parent is among the listed paths.
proof fn lemma_dirs_child_total_step(s: Seq<FileEntryV>, ds: Seq<int>, j: int)
    requires
        0 <= j < s.len(),
        forall|k: int| 0 <= k < ds.len() ==> 0 <= #[trigger] ds[k] < s.len(),
        forall|k1: int, k2: int|
            0 <= k1 < k2 < ds.len() ==> s[ds[k1]].path != s[ds[k2]].path,
    ensures
        dirs_child_total(s, ds, j + 1) == dirs_child_total(s, ds, j) + if exists|k: int|
            0 <= k < ds.len() && s[j].parent == Some(s[#[trigger] ds[k]].path) {
            s[j].size as int
        } else {
            0int
        },
    decreases ds.len(),
{
    if ds.len() > 0 {
        let tail = ds.drop_first();
        assert(forall|k: int| 0 <= k < tail.len() ==> #[trigger] tail[k] == ds[k + 1]);
        lemma_dirs_child_total_step(s, tail, j);
        let p0 = s[ds[0]].path;
        if s[j].parent == Some(p0) {
            assert(child_indices(s, p0, j + 1) == child_indices(s, p0, j).push(j));
            assert(child_indices(s, p0, j).push(j).drop_last() =~= child_indices(s, p0, j));
            assert(sum_at(s, child_indices(s, p0, j + 1)) == sum_at(s, child_indices(s, p0, j))
                + s[j].size);
            assert(!exists|k: int|
                0 <= k < tail.len() && s[j].parent == Some(s[#[trigger] tail[k]].path)) by {
                if exists|k: int|
                    0 <= k < tail.len() && s[j].parent == Some(s[#[trigger] tail[k]].path) {
                    let k = choose|k: int|
                        0 <= k < tail.len() && s[j].parent == Some(s[#[trigger] tail[k]].path);
                    assert(s[ds[0]].path != s[ds[k + 1]].path);
                    assert(false);
                }
            }
            assert(exists|k: int|
                0 <= k < ds.len() && s[j].parent == Some(s[#[trigger] ds[k]].path)) by {
                assert(s[j].parent == Some(s[ds[0]].path));
            }
        } else {
            assert(child_indices(s, p0, j + 1) == child_indices(s, p0, j));
            assert((exists|k: int|
                0 <= k < ds.len() && s[j].parent == Some(s[#[trigger] ds[k]].path)) == (exists|
                k: int,
            |
                0 <= k < tail.len() && s[j].parent == Some(s[#[trigger] tail[k]].path))) by {
                if exists|k: int|
                    0 <= k < ds.len() && s[j].parent == Some(s[#[trigger] ds[k]].path) {
                    let k = choose|k: int|
                        0 <= k < ds.len() && s[j].parent == Some(s[#[trigger] ds[k]].path);
                    assert(k > 0);
                    assert(tail[k - 1] == ds[k]);
                    assert(s[j].parent == Some(s[tail[k - 1]].path));
                }
                if exists|k: int|
                    0 <= k < tail.len() && s[j].parent == Some(s[#[trigger] tail[k]].path) {
                    let k = choose|k: int|
                        0 <= k < tail.len() && s[j].parent == Some(s[#[trigger] tail[k]].path);
                    assert(s[j].parent == Some(s[ds[k + 1]].path));
                }
            }
        }
    }
}

/// Summed over every directory, the child sums cover exactly the sizes of
/// the entries resolved into a directory.
proof fn lemma_dirs_child_total_covers(s: Seq<FileEntryV>, n: int)
    requires
        unique_paths(s),
        0 <= n <= s.len(),
    ensures
        dirs_child_total(s, dir_idx_list(s, s.len() as int), n) == rdir_size_total(s, n),
    decreases n,
{
    let ds = dir_idx_list(s, s.len() as int);
    lemma_dir_idx_list_props(s, s.len() as int);
    assert(forall|k1: int, k2: int|
        0 <= k1 < k2 < ds.len() ==> s[ds[k1]].path != s[ds[k2]].path) by {
        assert forall|k1: int, k2: int|
            0 <= k1 < k2 < ds.len() implies s[ds[k1]].path != s[ds[k2]].path by {
            assert(ds[k1] < ds[k2]);
        }
    }
    if n == 0 {
        lemma_dirs_child_total_zero(s, ds);
    } else {
        lemma_dirs_child_total_covers(s, n - 1);
        lemma_dirs_child_total_step(s, ds, n - 1);
        assert((exists|k: int|
            0 <= k < ds.len() && s[n - 1].parent == Some(s[#[trigger] ds[k]].path))
            == resolved_to_dir(s, n - 1)) by {
            if exists|k: int|
                0 <= k < ds.len() && s[n - 1].parent == Some(s[#[trigger] ds[k]].path) {
                let k = choose|k: int|
                    0 <= k < ds.len() && s[n - 1].parent == Some(s[#[trigger] ds[k]].path);
                assert(s[ds[k]].is_directory && s[n - 1].parent == Some(s[ds[k]].path));
            }
            if resolved_to_dir(s, n - 1) {
                let i = choose|i: int|
                    0 <= i < s.len() && (#[trigger] s[i]).is_directory && s[n - 1].parent == Some(
                        s[i].path,
                    );
                assert(ds.contains(i));
                let k = choose|k: int| 0 <= k < ds.len() && ds[k] == i;
                assert(s[n - 1].parent == Some(s[ds[k]].path));
            }
        }
    }
}

/// With no children in sight, every child sum is zero.
proof fn lemma_dirs_child_total_zero(s: Seq<FileEntryV>, ds: Seq<int>)
    ensures
        dirs_child_total(s, ds, 0) == 0,
    decreases ds.len(),
{
    if ds.len() > 0 {
        assert(child_indices(s, s[ds[0]].path, 0) =~= Seq::<int>::empty());
        lemma_dirs_child_total_zero(s, ds.drop_first());
    }
}

/// In an aggregated arena whose sums stay in range, the listed directories'
/// child sums equal their own stored sizes.
proof fn lemma_dirs_child_total_sizes(s: Seq<FileEntryV>, ds: Seq<int>)
    requires
        aggregated(s),
        forall|k: int|
            0 <= k < ds.len() ==> {
                let d = #[trigger] ds[k];
                0 <= d < s.len() && s[d].is_directory && child_sum(s, s[d].path) <= u64::MAX
            },
    ensures
        dirs_child_total(s, ds, s.len() as int) == idx_size_total(s, ds),
    decreases ds.len(),
{
    if ds.len() > 0 {
        let tail = ds.drop_first();
        assert(forall|k: int| 0 <= k < tail.len() ==> #[trigger] tail[k] == ds[k + 1]);
        lemma_dirs_child_total_sizes(s, tail);
        let d0 = ds[0];
        assert(s[d0].size == clip64(child_sum(s, s[d0].path)));
        lemma_sum_at_nonneg(s, child_indices(s, s[d0].path, s.len() as int));
    }
}

/// The listed directory sizes sum to the directory size total.
proof fn lemma_idx_size_total_dirs(s: Seq<FileEntryV>, n: int)
    requires
        0 <= n <= s.len(),
    ensures
        idx_size_total(s, dir_idx_list(s, n)) == dir_size_total(s, n),
    decreases n,
{
    if n > 0 {
        lemma_idx_size_total_dirs(s, n - 1);
        if s[n - 1].is_directory {
            lemma_idx_size_total_push(s, dir_idx_list(s, n - 1), n - 1);
        }
    }
}

/// Appending an index adds its size to the indexed total.
proof fn lemma_idx_size_total_push(s: Seq<FileEntryV>, ds: Seq<int>, d: int)
    ensures
        idx_size_total(s, ds.push(d)) == idx_size_total(s, ds) + s[d].size,
    decreases ds.len(),
{
    if ds.len() == 0 {
        assert(ds.push(d)[0] == d);
        assert(ds.push(d).drop_first() =~= Seq::<int>::empty());
        assert(idx_size_total(s, Seq::<int>::empty()) == 0);
    } else {
        assert(ds.push(d)[0] == ds[0]);
        assert(ds.push(d).drop_first() =~= ds.drop_first().push(d));
        lemma_idx_size_total_push(s, ds.drop_first(), d);
    }
}

/// Every size but the unresolved root's is resolved into some directory.
proof fn lemma_rdir_size_total_all_but_root(s: Seq<FileEntryV>, ri: int, n: int)
    requires
        0 <= ri < s.len(),
        !resolved_to_dir(s, ri),
        forall|j: int| 0 <= j < s.len() && j != ri ==> resolved_to_dir(s, j),
        0 <= n <= s.len(),
    ensures
        rdir_size_total(s, n) == size_total(s, n) - if ri < n {
            s[ri].size as int
        } else {
            0int
        },
    decreases n,
{
    if n > 0 {
        lemma_rdir_size_total_all_but_root(s, ri, n - 1);
    }
}

/// The grand size total splits into the directory and file portions.
proof fn lemma_size_total_split(s: Seq<FileEntryV>, n: int)
    requires
        0 <= n <= s.len(),
    ensures
        size_total(s, n) == dir_size_total(s, n) + file_size_sum(s.take(n)),
    decreases n,
{
    if n == 0 {
        assert(s.take(0) =~= Seq::<FileEntryV>::empty());
        assert(file_size_sum(Seq::<FileEntryV>::empty()) == 0);
    }
    if n > 0 {
        lemma_size_total_split(s, n - 1);
        assert(s.take(n).drop_last() =~= s.take(n - 1));
        assert(s.take(n).last() == s[n - 1]);
        assert(s.take(n).len() == n);
        assert(file_size_sum(s.take(n)) == file_size_sum(s.take(n - 1)) + if s[n
            - 1].is_directory {
            0int
        } else {
            s[n - 1].size as int
        });
    }
}

/// In a complete aggregated scan — every entry but the root hangs under
/// some directory, and no directory sum saturated — the root's size is the
/// sum of all file sizes, which the snapshot reports as its total.
pub proof fn lemma_root_size_is_total(s: Seq<FileEntryV>, ri: int)
    requires
        unique_paths(s),
        aggregated(s),
        complete_arena(s, ri),
    ensures
        s[ri].size == file_size_sum(s),
{
    let n = s.len() as int;
    let ds = dir_idx_list(s, n);
    lemma_dir_idx_list_props(s, n);
    lemma_dirs_child_total_covers(s, n);
    lemma_dirs_child_total_sizes(s, ds);
    lemma_idx_size_total_dirs(s, n);
    lemma_rdir_size_total_all_but_root(s, ri, n);
    lemma_size_total_split(s, n);
    assert(s.take(n) =~= s);
}

/// Where a directory's child sum fits its size field, the saturating sum in
/// `aggregated` is the exact one: the directory's size equals the sum of
/// its immediate children's sizes.
pub proof fn lemma_dir_size_exact(s: Seq<FileEntryV>, i: int)
    requires
        aggregated(s),
        0 <= i < s.len(),
        s[i].is_directory,
        child_sum(s, s[i].path) <= u64::MAX,
    ensures
        s[i].size == child_sum(s, s[i].path),
{
    lemma_sum_at_nonneg(s, child_indices(s, s[i].path, s.len() as int));
}

/// One observation the walk hands the builder: either a readable path with
/// its metadata, or a failed read.
pub struct VisitV {
    pub path: Seq<char>,
    pub size: u64,
    pub is_directory: bool,
    pub modified: i64,
    pub ok: bool,
}

/// The arena after the first `k` visits have been recorded over a start
/// state: each readable, not-yet-seen path appends one entry; everything
/// else leaves the arena alone.
pub open spec fn entries_after(s0: Seq<FileEntryV>, vs: Seq<VisitV>, k: int) -> Seq<FileEntryV>
    decreases k,
{
    if k <= 0 {
        s0
    } else {
        let prev = entries_after(s0, vs, k - 1);
        let v = vs[k - 1];
        if v.ok && (forall|j: int| 0 <= j < prev.len() ==> (#[trigger] prev[j]).path != v.path) {
            prev.push(visit_view(v.path, v.size, v.is_directory, v.modified))
        } else {
            prev
        }
    }
}

/// Stopping a walk early loses only a suffix: after any shorter prefix of
/// the same visits, the arena is a prefix of the longer run's arena. This is
/// what a cooperative stop delivers — and `finish` aggregates any arena.
pub proof fn lemma_cancelled_prefix(s0: Seq<FileEntryV>, vs: Seq<VisitV>, k1: int, k2: int)
    requires
        0 <= k1 <= k2,
    ensures
        entries_after(s0, vs, k1).len() <= entries_after(s0, vs, k2).len(),
        entries_after(s0, vs, k1) == entries_after(s0, vs, k2).take(
            entries_after(s0, vs, k1).len() as int,
        ),
    decreases k2 - k1,
{
    if k1 == k2 {
        assert(entries_after(s0, vs, k1).take(entries_after(s0, vs, k1).len() as int)
            =~= entries_after(s0, vs, k1));
    } else {
        lemma_cancelled_prefix(s0, vs, k1, k2 - 1);
        let prev = entries_after(s0, vs, k2 - 1);
        let cur = entries_after(s0, vs, k2);
        let short = entries_after(s0, vs, k1);
        assert(short.len() <= prev.len());
        assert(cur.take(short.len() as int) =~= prev.take(short.len() as int));
    }
}

} // verus!
