//! Sorting records by keyed path: a merge sort over the numbers of the
//! records, which leaves the records where they are.

use vstd::prelude::*;
use vstd::seq_lib::{lemma_multiset_commutative, to_multiset_build};
use crate::order::{entries_sorted, entry_le, lemma_entry_le_order, path_in_order, Entry};
use crate::outcome::State;
use crate::rearranged::{lemma_empty_to_multiset, lemma_map_rearranged, lemma_skip_to_multiset};

verus! {

/// The keyed path of the record numbered `i`.
pub open spec fn entry_at(keys: Seq<u32>, states: Seq<State>, i: int) -> Entry {
    (keys[i] as int, states[i].path@)
}

/// The function from the number of a record to its keyed path.
pub open spec fn entry_of(keys: Seq<u32>, states: Seq<State>) -> spec_fn(usize) -> Entry {
    |i: usize| entry_at(keys, states, i as int)
}

/// The keyed paths of all records, in the order of the records.
pub open spec fn all_entries(keys: Seq<u32>, states: Seq<State>) -> Seq<Entry> {
    Seq::new(states.len(), |i: int| entry_at(keys, states, i))
}

/// The keyed paths of the records that `order` numbers, in that order.
pub open spec fn entries_in(keys: Seq<u32>, states: Seq<State>, order: Seq<usize>) -> Seq<Entry> {
    order.map_values(entry_of(keys, states))
}

/// Every number in `order` is the number of a record.
pub open spec fn numbers_below(order: Seq<usize>, n: int) -> bool {
    forall|i: int| 0 <= i < order.len() ==> #[trigger] order[i] < n
}

/// The numbers from `lo` up to, but not including, `hi`.
pub open spec fn numbers(lo: int, hi: int) -> Seq<usize> {
    Seq::new((hi - lo) as nat, |i: int| (lo + i) as usize)
}

/// Runs that hold the same numbers equally often number the same keyed
/// paths equally often.
pub proof fn lemma_entries_rearranged(
    keys: Seq<u32>,
    states: Seq<State>,
    order1: Seq<usize>,
    order2: Seq<usize>,
)
    requires
        order1.to_multiset() == order2.to_multiset(),
    ensures
        entries_in(keys, states, order1).to_multiset() == entries_in(
            keys,
            states,
            order2,
        ).to_multiset(),
{
    lemma_map_rearranged(order1, order2, entry_of(keys, states));
}

/// Whether the keyed path of record `i` comes before that of record `j`, or is it.
fn entry_in_order(keys: &Vec<u32>, states: &Vec<State>, i: usize, j: usize) -> (in_order: bool)
    requires
        keys@.len() == states@.len(),
        i < keys@.len(),
        j < keys@.len(),
    ensures
        in_order == entry_le(
            entry_at(keys@, states@, i as int),
            entry_at(keys@, states@, j as int),
        ),
{
    keys[i] < keys[j] || (keys[i] == keys[j] && path_in_order(&states[i].path, &states[j].path))
}

/// Merges two runs of record numbers, each in the order of the keyed paths,
/// into one such run: the run holds the numbers of both, each as often as
/// the two together, in the order of the keyed paths.
pub fn merge_runs(
    keys: &Vec<u32>,
    states: &Vec<State>,
    left: &Vec<usize>,
    right: &Vec<usize>,
) -> (merged: Vec<usize>)
    requires
        keys@.len() == states@.len(),
        numbers_below(left@, keys@.len() as int),
        numbers_below(right@, keys@.len() as int),
        entries_sorted(entries_in(keys@, states@, left@)),
        entries_sorted(entries_in(keys@, states@, right@)),
    ensures
        numbers_below(merged@, keys@.len() as int),
        entries_sorted(entries_in(keys@, states@, merged@)),
        merged@.to_multiset() == left@.to_multiset().add(right@.to_multiset()),
        entries_in(keys@, states@, merged@).to_multiset() == entries_in(
            keys@,
            states@,
            left@,
        ).to_multiset().add(entries_in(keys@, states@, right@).to_multiset()),
{
    let ghost le = entries_in(keys@, states@, left@);
    let ghost re = entries_in(keys@, states@, right@);
    let mut merged: Vec<usize> = Vec::new();
    let mut i: usize = 0;
    let mut j: usize = 0;
    proof {
        assert(left@.skip(0) =~= left@);
        assert(right@.skip(0) =~= right@);
        lemma_empty_to_multiset::<usize>();
        assert(merged@ =~= Seq::<usize>::empty());
        assert(merged@.to_multiset().add(left@.to_multiset()).add(right@.to_multiset())
            =~= left@.to_multiset().add(right@.to_multiset()));
    }
    while i < left.len() || j < right.len()
        invariant
            keys@.len() == states@.len(),
            numbers_below(left@, keys@.len() as int),
            numbers_below(right@, keys@.len() as int),
            le == entries_in(keys@, states@, left@),
            re == entries_in(keys@, states@, right@),
            entries_sorted(le),
            entries_sorted(re),
            i <= left@.len(),
            j <= right@.len(),
            numbers_below(merged@, keys@.len() as int),
            entries_sorted(entries_in(keys@, states@, merged@)),
            forall|a: int, b: int|
                0 <= a < merged@.len() && i <= b < le.len() ==> entry_le(
                    #[trigger] entries_in(keys@, states@, merged@)[a],
                    #[trigger] le[b],
                ),
            forall|a: int, b: int|
                0 <= a < merged@.len() && j <= b < re.len() ==> entry_le(
                    #[trigger] entries_in(keys@, states@, merged@)[a],
                    #[trigger] re[b],
                ),
            merged@.to_multiset().add(left@.skip(i as int).to_multiset()).add(
                right@.skip(j as int).to_multiset(),
            ) == left@.to_multiset().add(right@.to_multiset()),
        decreases left@.len() - i + right@.len() - j,
    {
        let ghost before = entries_in(keys@, states@, merged@);
        let ghost numbers_before = merged@;
        let from_left = if i < left.len() && j < right.len() {
            entry_in_order(keys, states, left[i], right[j])
        } else {
            i < left.len()
        };
        if from_left {
            let ghost x = le[i as int];
            merged.push(left[i]);
            proof {
                let after = entries_in(keys@, states@, merged@);
                assert(after =~= before.push(x));
                lemma_skip_to_multiset(left@, i as int);
                to_multiset_build(numbers_before, left@[i as int]);
                assert(merged@.to_multiset().add(left@.skip(i + 1).to_multiset()).add(
                    right@.skip(j as int).to_multiset(),
                ) =~= numbers_before.to_multiset().add(left@.skip(i as int).to_multiset()).add(
                    right@.skip(j as int).to_multiset(),
                ));
                assert forall|a: int, b: int|
                    0 <= a < after.len() && i + 1 <= b < le.len() implies entry_le(
                    #[trigger] after[a],
                    #[trigger] le[b],
                ) by {
                    if a < before.len() {
                        assert(after[a] == before[a]);
                    }
                }
                assert forall|a: int, b: int|
                    0 <= a < after.len() && j <= b < re.len() implies entry_le(
                    #[trigger] after[a],
                    #[trigger] re[b],
                ) by {
                    if a < before.len() {
                        assert(after[a] == before[a]);
                    } else {
                        assert(entry_le(x, re[j as int]));
                        lemma_entry_le_order(x, re[j as int], re[b]);
                    }
                }
                assert forall|a: int, b: int| 0 <= a < b < after.len() implies entry_le(
                    after[a],
                    after[b],
                ) by {
                    assert(after[a] == before[a]);
                    if b < before.len() {
                        assert(after[b] == before[b]);
                    } else {
                        assert(entry_le(before[a], le[i as int]));
                    }
                }
            }
            i += 1;
        } else {
            let ghost x = re[j as int];
            merged.push(right[j]);
            proof {
                let after = entries_in(keys@, states@, merged@);
                assert(after =~= before.push(x));
                lemma_skip_to_multiset(right@, j as int);
                to_multiset_build(numbers_before, right@[j as int]);
                assert(merged@.to_multiset().add(left@.skip(i as int).to_multiset()).add(
                    right@.skip(j + 1).to_multiset(),
                ) =~= numbers_before.to_multiset().add(left@.skip(i as int).to_multiset()).add(
                    right@.skip(j as int).to_multiset(),
                ));
                assert forall|a: int, b: int|
                    0 <= a < after.len() && j + 1 <= b < re.len() implies entry_le(
                    #[trigger] after[a],
                    #[trigger] re[b],
                ) by {
                    if a < before.len() {
                        assert(after[a] == before[a]);
                    }
                }
                assert forall|a: int, b: int|
                    0 <= a < after.len() && i <= b < le.len() implies entry_le(
                    #[trigger] after[a],
                    #[trigger] le[b],
                ) by {
                    if a < before.len() {
                        assert(after[a] == before[a]);
                    } else {
                        lemma_entry_le_order(x, le[i as int], le[b]);
                        assert(entry_le(x, le[i as int]));
                    }
                }
                assert forall|a: int, b: int| 0 <= a < b < after.len() implies entry_le(
                    after[a],
                    after[b],
                ) by {
                    assert(after[a] == before[a]);
                    if b < before.len() {
                        assert(after[b] == before[b]);
                    } else {
                        assert(entry_le(before[a], re[j as int]));
                    }
                }
            }
            j += 1;
        }
    }
    proof {
        assert(left@.skip(i as int) =~= Seq::<usize>::empty());
        assert(right@.skip(j as int) =~= Seq::<usize>::empty());
        lemma_empty_to_multiset::<usize>();
        let out = merged@.to_multiset();
        assert(out.add(Seq::<usize>::empty().to_multiset()).add(
            Seq::<usize>::empty().to_multiset(),
        ) =~= out);
        lemma_multiset_commutative(left@, right@);
        lemma_entries_rearranged(keys@, states@, merged@, left@ + right@);
        assert(entries_in(keys@, states@, left@ + right@) =~= le + re);
        lemma_multiset_commutative(le, re);
    }
    merged
}

/// The numbers from `lo` up to `hi`, put in the order of the keyed paths of
/// the records they number.
pub fn sort_range(keys: &Vec<u32>, states: &Vec<State>, lo: usize, hi: usize) -> (order: Vec<usize>)
    requires
        keys@.len() == states@.len(),
        lo <= hi <= keys@.len(),
    ensures
        numbers_below(order@, keys@.len() as int),
        entries_sorted(entries_in(keys@, states@, order@)),
        order@.to_multiset() == numbers(lo as int, hi as int).to_multiset(),
        entries_in(keys@, states@, order@).to_multiset() == all_entries(keys@, states@).subrange(
            lo as int,
            hi as int,
        ).to_multiset(),
    decreases hi - lo,
{
    let ghost all = all_entries(keys@, states@);
    if hi - lo <= 1 {
        let mut order: Vec<usize> = Vec::new();
        if lo < hi {
            order.push(lo);
        }
        assert(order@ =~= numbers(lo as int, hi as int));
        assert(entries_in(keys@, states@, order@) =~= all.subrange(lo as int, hi as int));
        order
    } else {
        let mid = lo + (hi - lo) / 2;
        let left = sort_range(keys, states, lo, mid);
        let right = sort_range(keys, states, mid, hi);
        proof {
            assert(all.subrange(lo as int, hi as int) =~= all.subrange(lo as int, mid as int)
                + all.subrange(mid as int, hi as int));
            lemma_multiset_commutative(
                all.subrange(lo as int, mid as int),
                all.subrange(mid as int, hi as int),
            );
            assert(numbers(lo as int, hi as int) =~= numbers(lo as int, mid as int) + numbers(
                mid as int,
                hi as int,
            ));
            lemma_multiset_commutative(
                numbers(lo as int, mid as int),
                numbers(mid as int, hi as int),
            );
        }
        merge_runs(keys, states, &left, &right)
    }
}

} // verus!
