//! Total orders on entries and a verified selection sort. Ties on the sort
//! key are broken by path, so an order is total and a sorted permutation of
//! a given entry set is unique — which is what makes re-analysis
//! reproducible.

use vstd::prelude::*;

use crate::entry::{views, FileEntry, FileEntryV};
use crate::paths::{
    lemma_lex_antisymmetric, lemma_lex_total, lemma_lex_transitive, lex_le,
};

verus! {

/// The orders an analysis pass sorts entries by.
#[derive(Clone, Copy, PartialEq, Eq, Structural)]
pub enum EntryOrder {
    /// Largest first; equal sizes ordered by path.
    SizeDesc,
    /// Oldest first; equal timestamps ordered by path.
    ModifiedAsc,
}

/// The "comes no later than" relation of an order.
pub open spec fn entry_le(o: EntryOrder, a: FileEntryV, b: FileEntryV) -> bool {
    match o {
        EntryOrder::SizeDesc => a.size > b.size || (a.size == b.size && lex_le(a.path, b.path)),
        EntryOrder::ModifiedAsc => a.modified < b.modified || (a.modified == b.modified && lex_le(
            a.path,
            b.path,
        )),
    }
}

/// The sequence is sorted under the order.
pub open spec fn sorted_entries(s: Seq<FileEntryV>, o: EntryOrder) -> bool {
    forall|i: int, j: int| 0 <= i <= j < s.len() ==> entry_le(o, s[i], s[j])
}

/// Any two entries are comparable.
pub proof fn lemma_entry_le_total(o: EntryOrder, a: FileEntryV, b: FileEntryV)
    ensures
        entry_le(o, a, b) || entry_le(o, b, a),
{
    lemma_lex_total(a.path, b.path);
}

/// The order is transitive.
pub proof fn lemma_entry_le_trans(o: EntryOrder, a: FileEntryV, b: FileEntryV, c: FileEntryV)
    requires
        entry_le(o, a, b),
        entry_le(o, b, c),
    ensures
        entry_le(o, a, c),
{
    match o {
        EntryOrder::SizeDesc => {
            if a.size == b.size && b.size == c.size {
                lemma_lex_transitive(a.path, b.path, c.path);
            }
        },
        EntryOrder::ModifiedAsc => {
            if a.modified == b.modified && b.modified == c.modified {
                lemma_lex_transitive(a.path, b.path, c.path);
            }
        },
    }
}

/// Entries below one another share their path.
pub proof fn lemma_entry_le_antisym(o: EntryOrder, a: FileEntryV, b: FileEntryV)
    requires
        entry_le(o, a, b),
        entry_le(o, b, a),
    ensures
        a.path == b.path,
{
    lemma_lex_antisymmetric(a.path, b.path);
}

/// Executable form of `entry_le`.
pub fn le_entry(o: EntryOrder, a: &FileEntry, b: &FileEntry) -> (r: bool)
    ensures
        r == entry_le(o, a@, b@),
{
    match o {
        EntryOrder::SizeDesc => {
            if a.size > b.size {
                true
            } else if a.size == b.size {
                crate::paths::lex_le_exec(a.path.as_str(), b.path.as_str())
            } else {
                false
            }
        },
        EntryOrder::ModifiedAsc => {
            if a.modified < b.modified {
                true
            } else if a.modified == b.modified {
                crate::paths::lex_le_exec(a.path.as_str(), b.path.as_str())
            } else {
                false
            }
        },
    }
}

/// Sorts entries under the given order by repeated selection of a least
/// remaining element.
pub fn sort_entries(v: Vec<FileEntry>, o: EntryOrder) -> (out: Vec<FileEntry>)
    ensures
        sorted_entries(views(out@), o),
        views(out@).to_multiset() == views(v@).to_multiset(),
{
    broadcast use vstd::seq_lib::group_to_multiset_ensures;

    let ghost orig = views(v@);
    let mut input = v;
    let mut out: Vec<FileEntry> = Vec::new();
    proof {
        assert(views(out@).to_multiset().add(views(input@).to_multiset()) =~= orig.to_multiset());
    }
    while input.len() > 0
        invariant
            views(out@).to_multiset().add(views(input@).to_multiset()) == orig.to_multiset(),
            sorted_entries(views(out@), o),
            forall|a: int, b: int|
                0 <= a < out@.len() && 0 <= b < input@.len() ==> entry_le(
                    o,
                    views(out@)[a],
                    views(input@)[b],
                ),
        decreases input@.len(),
    {
        let mut m: usize = 0;
        let mut x: usize = 1;
        proof {
            lemma_entry_le_total(o, views(input@)[0], views(input@)[0]);
        }
        while x < input.len()
            invariant
                m < input@.len(),
                x <= input@.len(),
                input@.len() > 0,
                forall|y: int|
                    0 <= y < x ==> entry_le(o, views(input@)[m as int], (#[trigger] views(
                        input@,
                    )[y])),
            decreases input@.len() - x,
        {
            if le_entry(o, &input[x], &input[m]) {
                proof {
                    assert forall|y: int|
                        0 <= y < x + 1 implies entry_le(o, views(input@)[x as int], (
                    #[trigger] views(input@)[y])) by {
                        if y < x {
                            lemma_entry_le_trans(
                                o,
                                views(input@)[x as int],
                                views(input@)[m as int],
                                views(input@)[y],
                            );
                        } else {
                            lemma_entry_le_total(
                                o,
                                views(input@)[x as int],
                                views(input@)[x as int],
                            );
                        }
                    }
                }
                m = x;
            } else {
                proof {
                    lemma_entry_le_total(o, views(input@)[m as int], views(input@)[x as int]);
                }
            }
            x = x + 1;
        }
        let ghost old_input = views(input@);
        let ghost old_out = views(out@);
        let r = input.remove(m);
        out.push(r);
        proof {
            assert(views(input@) =~= old_input.remove(m as int));
            assert(views(out@) =~= old_out.push(r@));
            broadcast use vstd::multiset::group_multiset_axioms;
            broadcast use vstd::seq_lib::group_to_multiset_ensures;

            assert(old_input.contains(old_input[m as int]));
            assert(r@ == old_input[m as int]);
            assert(old_input.to_multiset().count(r@) > 0);
            assert(views(out@).to_multiset() == old_out.to_multiset().insert(r@));
            assert(views(input@).to_multiset() == old_input.to_multiset().remove(r@));
            assert(views(out@).to_multiset().add(views(input@).to_multiset())
                =~= orig.to_multiset());
            assert forall|a: int, b: int|
                0 <= a < views(out@).len() && 0 <= b < views(input@).len() implies entry_le(
                o,
                views(out@)[a],
                views(input@)[b],
            ) by {
                assert(views(input@)[b] == if b < m {
                    old_input[b]
                } else {
                    old_input[b + 1]
                });
                if a < old_out.len() {
                    assert(views(out@)[a] == old_out[a]);
                } else {
                    assert(views(out@)[a] == r@);
                }
            }
            assert forall|a: int, b: int|
                0 <= a <= b < views(out@).len() implies entry_le(
                o,
                views(out@)[a],
                views(out@)[b],
            ) by {
                if b == views(out@).len() - 1 && a < b {
                    assert(entry_le(o, old_out[a], old_input[m as int]));
                }
            }
        }
    }
    proof {
        assert(views(input@).to_multiset().len() == 0);
        assert(views(out@).to_multiset() =~= views(out@).to_multiset().add(
            views(input@).to_multiset(),
        ));
    }
    out
}

/// Two sorted sequences with the same contents are the same sequence,
/// provided the order cannot hold both ways between distinct contents.
pub proof fn lemma_sorted_multiset_unique<T>(a: Seq<T>, b: Seq<T>, leq: spec_fn(T, T) -> bool)
    requires
        forall|i: int, j: int| 0 <= i <= j < a.len() ==> #[trigger] leq(a[i], a[j]),
        forall|i: int, j: int| 0 <= i <= j < b.len() ==> #[trigger] leq(b[i], b[j]),
        a.to_multiset() == b.to_multiset(),
        forall|x: T, y: T|
            a.to_multiset().contains(x) && a.to_multiset().contains(y) && #[trigger] leq(x, y)
                && #[trigger] leq(y, x) ==> x == y,
    ensures
        a == b,
    decreases a.len(),
{
    broadcast use vstd::seq_lib::group_to_multiset_ensures;

    if a.len() == 0 {
        assert(b.to_multiset().len() == 0);
        assert(a =~= b);
    } else {
        assert(a.contains(a[0]));
        assert(b.to_multiset().count(a[0]) > 0);
        assert(b.contains(a[0]));
        let jb = choose|jb: int| 0 <= jb < b.len() && b[jb] == a[0];
        assert(leq(b[0], b[jb]));
        assert(b.contains(b[0]));
        assert(a.to_multiset().count(b[0]) > 0);
        assert(a.contains(b[0]));
        let ja = choose|ja: int| 0 <= ja < a.len() && a[ja] == b[0];
        assert(leq(a[0], a[ja]));
        assert(a.to_multiset().contains(a[0]));
        assert(a.to_multiset().contains(b[0]));
        assert(a[0] == b[0]);
        let at = a.drop_first();
        let bt = b.drop_first();
        assert(at =~= a.remove(0));
        assert(bt =~= b.remove(0));
        assert(at.to_multiset() == a.to_multiset().remove(a[0]));
        assert(bt.to_multiset() == b.to_multiset().remove(b[0]));
        assert(at.to_multiset() == bt.to_multiset());
        assert forall|i: int, j: int| 0 <= i <= j < at.len() implies #[trigger] leq(
            at[i],
            at[j],
        ) by {
            assert(leq(a[i + 1], a[j + 1]));
        }
        assert forall|i: int, j: int| 0 <= i <= j < bt.len() implies #[trigger] leq(
            bt[i],
            bt[j],
        ) by {
            assert(leq(b[i + 1], b[j + 1]));
        }
        assert forall|x: T, y: T|
            at.to_multiset().contains(x) && at.to_multiset().contains(y) && #[trigger] leq(x, y)
                && #[trigger] leq(y, x) implies x == y by {
            assert(a.to_multiset().count(x) >= at.to_multiset().count(x));
            assert(a.to_multiset().count(y) >= at.to_multiset().count(y));
        }
        lemma_sorted_multiset_unique(at, bt, leq);
        assert forall|i: int| 0 <= i < a.len() implies a[i] == b[i] by {
            if i > 0 {
                assert(at[i - 1] == bt[i - 1]);
            }
        }
        assert(a =~= b);
    }
}

} // verus!
