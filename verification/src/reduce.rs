//! Grouping finished games by the canonical key of their boards: one class
//! for each key, the classes by ascending key, the paths of a class in order.

use vstd::prelude::*;
use crate::board::is_board;
use crate::order::{entries_sorted, entry_le, path_le, paths_sorted, Entry};
use crate::outcome::{all_on_boards, GameRecord, State};
use crate::reduce_laws::lemma_reduction_unique;
use crate::sort::{all_entries, entries_in, numbers_below, sort_range};
use crate::symmetry::{canonical_key, get_smallest_hash};

verus! {

/// The keyed paths of `records`: for each record the canonical key of its
/// board and its path.
pub open spec fn record_entries(records: Seq<GameRecord>) -> Seq<Entry> {
    records.map_values(|rec: GameRecord| (canonical_key(rec.board), rec.path))
}

/// The pairing of a path with `key`.
pub open spec fn tag(key: int) -> spec_fn(Seq<u8>) -> Entry {
    |path: Seq<u8>| (key, path)
}

/// Each class with each of its paths paired with the class's key.
pub open spec fn tagged_classes(keys: Seq<int>, classes: Seq<Seq<Seq<u8>>>) -> Seq<Seq<Entry>> {
    Seq::new(classes.len(), |i: int| classes[i].map_values(tag(keys[i])))
}

/// The paths of all classes in the order of the classes, each paired with
/// the key of its class.
pub open spec fn tagged(keys: Seq<int>, classes: Seq<Seq<Seq<u8>>>) -> Seq<Entry> {
    tagged_classes(keys, classes).flatten()
}

/// Each key is less than the keys after it.
pub open spec fn keys_ascend(keys: Seq<int>) -> bool {
    forall|i: int, j: int| 0 <= i < j < keys.len() ==> keys[i] < keys[j]
}

/// Classes in their proper form: one key for each class, the keys ascend,
/// no class is empty, and the paths of each class stand in order.
pub open spec fn well_classed(keys: Seq<int>, classes: Seq<Seq<Seq<u8>>>) -> bool {
    &&& keys.len() == classes.len()
    &&& keys_ascend(keys)
    &&& forall|i: int| 0 <= i < classes.len() ==> (#[trigger] classes[i]).len() > 0
    &&& forall|i: int| 0 <= i < classes.len() ==> paths_sorted(#[trigger] classes[i])
}

/// `classes` are the classes of `records` under the keys `keys`: they are in
/// proper form, and the paths of the classes, each with the key of its
/// class, are the keyed paths of the records, each as often as it occurs
/// among them.
pub open spec fn classes_under(
    records: Seq<GameRecord>,
    keys: Seq<int>,
    classes: Seq<Seq<Seq<u8>>>,
) -> bool {
    &&& well_classed(keys, classes)
    &&& tagged(keys, classes).to_multiset() == record_entries(records).to_multiset()
}

/// `classes` is the reduction of `records`: their classes under the
/// canonical keys of their boards, by ascending key.
pub open spec fn is_reduction(records: Seq<GameRecord>, classes: Seq<Seq<Seq<u8>>>) -> bool {
    exists|keys: Seq<int>| classes_under(records, keys, classes)
}

/// The reduction of `records`. There is one for every sequence of records,
/// and only one.
pub open spec fn reduction_of(records: Seq<GameRecord>) -> Seq<Seq<Seq<u8>>> {
    choose|classes: Seq<Seq<Seq<u8>>>| is_reduction(records, classes)
}

/// A class appended to classes appends its keyed paths to theirs.
pub proof fn lemma_tagged_push(
    keys: Seq<int>,
    classes: Seq<Seq<Seq<u8>>>,
    key: int,
    class: Seq<Seq<u8>>,
)
    requires
        keys.len() == classes.len(),
    ensures
        tagged(keys.push(key), classes.push(class)) == tagged(keys, classes) + class.map_values(
            tag(key),
        ),
{
    let before = tagged_classes(keys, classes);
    let after = tagged_classes(keys.push(key), classes.push(class));
    assert(after =~= before.push(class.map_values(tag(key)))) by {
        assert forall|i: int| 0 <= i < before.len() implies after[i] == before[i] by {}
    }
    before.lemma_flatten_push(class.map_values(tag(key)));
}

/// The classes of equivalent games among `states`: the games whose boards
/// have the same canonical key form a class; the classes come by ascending
/// key, and each lists the paths of its games in order.
pub fn reduce_states(states: Vec<State>) -> (result: Vec<Vec<Vec<u8>>>)
    requires
        all_on_boards(states.deep_view()),
    ensures
        is_reduction(states.deep_view(), result.deep_view()),
        result.deep_view() == reduction_of(states.deep_view()),
{
    let mut keys: Vec<u32> = Vec::new();
    let mut at: usize = 0;
    while at < states.len()
        invariant
            at <= states@.len(),
            all_on_boards(states.deep_view()),
            keys@.len() == at,
            forall|i: int| 0 <= i < at ==> #[trigger] keys@[i] == canonical_key(states@[i]@.board),
        decreases states@.len() - at,
    {
        assert(is_board(states.deep_view()[at as int].board));
        let (key, _) = get_smallest_hash(&states[at].board);
        keys.push(key);
        at += 1;
    }
    let order = sort_range(&keys, &states, 0, states.len());
    let ghost sorted = entries_in(keys@, states@, order@);
    proof {
        let all = all_entries(keys@, states@);
        assert(all.subrange(0, states@.len() as int) =~= all);
        assert(all =~= record_entries(states.deep_view()));
        sorted.to_multiset_ensures();
        all.to_multiset_ensures();
    }
    let mut result: Vec<Vec<Vec<u8>>> = Vec::new();
    let mut class: Vec<Vec<u8>> = Vec::new();
    let ghost mut class_keys: Seq<int> = Seq::empty();
    let ghost mut start: int = 0;
    let mut at: usize = 0;
    proof {
        assert(class.deep_view() =~= sorted.subrange(0, 0).map_values(|e: Entry| e.1));
    }
    while at < order.len()
        invariant
            keys@.len() == states@.len(),
            order@.len() == states@.len(),
            numbers_below(order@, keys@.len() as int),
            sorted == entries_in(keys@, states@, order@),
            entries_sorted(sorted),
            at <= order@.len(),
            0 <= start <= at,
            at > 0 ==> start < at,
            class_keys.len() == result@.len(),
            keys_ascend(class_keys),
            forall|i: int|
                0 <= i < result@.len() ==> (#[trigger] result.deep_view()[i]).len() > 0,
            forall|i: int|
                0 <= i < result@.len() ==> paths_sorted(#[trigger] result.deep_view()[i]),
            tagged(class_keys, result.deep_view()) == sorted.take(start),
            class.deep_view() == sorted.subrange(start, at as int).map_values(|e: Entry| e.1),
            forall|t: int| start <= t < at ==> (#[trigger] sorted[t]).0 == sorted[start].0,
            forall|i: int, t: int|
                0 <= i < class_keys.len() && start <= t < sorted.len() ==> #[trigger] class_keys[i]
                    < (#[trigger] sorted[t]).0,
        decreases order@.len() - at,
    {
        let number = order[at];
        let ghost class_before = class.deep_view();
        if at > 0 && keys[number] != keys[order[at - 1]] {
            let ghost key = sorted[start].0;
            let ghost classes = result.deep_view();
            proof {
                lemma_tagged_push(class_keys, classes, key, class_before);
                assert(sorted.take(start) + sorted.subrange(start, at as int) =~= sorted.take(
                    at as int,
                ));
                assert(paths_sorted(class_before)) by {
                    assert forall|a: int, b: int| 0 <= a < b < class_before.len() implies path_le(
                        class_before[a],
                        class_before[b],
                    ) by {
                        assert(entry_le(sorted[start + a], sorted[start + b]));
                    }
                }
                assert(entry_le(sorted[at - 1], sorted[at as int]));
                assert forall|t: int| at <= t < sorted.len() implies key < (
                #[trigger] sorted[t]).0 by {
                    if t > at {
                        assert(entry_le(sorted[at as int], sorted[t]));
                    }
                }
            }
            result.push(class);
            class = Vec::new();
            proof {
                assert(result.deep_view() =~= classes.push(class_before));
                class_keys = class_keys.push(key);
                start = at as int;
                assert(class.deep_view() =~= sorted.subrange(start, at as int).map_values(
                    |e: Entry| e.1,
                ));
            }
        }
        let ghost class_now = class.deep_view();
        let path = states[number].path.clone();
        assert(path.deep_view() =~= states@[number as int]@.path);
        class.push(path);
        proof {
            assert(class.deep_view() =~= class_now.push(sorted[at as int].1));
            assert(class.deep_view() =~= sorted.subrange(start, at + 1).map_values(
                |e: Entry| e.1,
            ));
            if at > 0 && start < at {
                assert(sorted[at - 1].0 == sorted[start].0);
            }
        }
        at += 1;
    }
    if class.len() > 0 {
        let ghost key = sorted[start].0;
        let ghost classes = result.deep_view();
        let ghost class_before = class.deep_view();
        proof {
            lemma_tagged_push(class_keys, classes, key, class_before);
            assert(class_before.map_values(tag(key)) =~= sorted.subrange(start, at as int));
            assert(sorted.take(start) + sorted.subrange(start, at as int) =~= sorted);
            assert(paths_sorted(class_before)) by {
                assert forall|a: int, b: int| 0 <= a < b < class_before.len() implies path_le(
                    class_before[a],
                    class_before[b],
                ) by {
                    assert(entry_le(sorted[start + a], sorted[start + b]));
                }
            }
        }
        result.push(class);
        proof {
            assert(result.deep_view() =~= classes.push(class_before));
            class_keys = class_keys.push(key);
        }
    } else {
        proof {
            assert(sorted.take(start) =~= sorted);
        }
    }
    proof {
        assert(classes_under(states.deep_view(), class_keys, result.deep_view()));
        lemma_reduction_unique(
            states.deep_view(),
            result.deep_view(),
            states.deep_view(),
            reduction_of(states.deep_view()),
        );
    }
    result
}

} // verus!
