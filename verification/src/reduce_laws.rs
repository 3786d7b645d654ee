//! What holds of every reduction: it is determined by the records whatever
//! their order, every path stands in the class of its key, and games whose
//! boards have the same canonical key share a class.

use vstd::prelude::*;
use vstd::seq_lib::lemma_sorted_unique;
use crate::board::is_board;
use crate::order::{
    entries_sorted, entry_le, lemma_entry_le_is_total_ordering, paths_sorted, Entry,
};
use crate::outcome::GameRecord;
use crate::rearranged::{lemma_map_rearranged, lemma_same_members};
use crate::reduce::{
    classes_under, is_reduction, lemma_tagged_push, record_entries, tag, tagged,
    tagged_classes, well_classed,
};
use crate::symmetry::{canonical_key, rotated};
use crate::symmetry_laws::lemma_canonical_key_invariant;

verus! {

/// The keyed path `e` stands in the class of its key.
pub open spec fn in_class(keys: Seq<int>, classes: Seq<Seq<Seq<u8>>>, e: Entry) -> bool {
    exists|i: int| 0 <= i < classes.len() && keys[i] == e.0 && (#[trigger] classes[i]).contains(e.1)
}

/// The keyed paths of classes are those of all classes but the last,
/// followed by those of the last.
pub proof fn lemma_tagged_last(keys: Seq<int>, classes: Seq<Seq<Seq<u8>>>)
    requires
        keys.len() == classes.len(),
        classes.len() > 0,
    ensures
        tagged(keys, classes) == tagged(keys.drop_last(), classes.drop_last())
            + classes.last().map_values(tag(keys.last())),
{
    assert(keys =~= keys.drop_last().push(keys.last()));
    assert(classes =~= classes.drop_last().push(classes.last()));
    lemma_tagged_push(keys.drop_last(), classes.drop_last(), keys.last(), classes.last());
}

/// The keyed paths of classes are exactly the paths of the classes, each
/// under the key of its class.
pub proof fn lemma_tagged_members(keys: Seq<int>, classes: Seq<Seq<Seq<u8>>>)
    requires
        keys.len() == classes.len(),
    ensures
        forall|e: Entry| #[trigger]
            tagged(keys, classes).contains(e) <==> in_class(keys, classes, e),
    decreases classes.len(),
{
    let all = tagged(keys, classes);
    if classes.len() == 0 {
        assert(tagged_classes(keys, classes) =~= Seq::<Seq<Entry>>::empty());
        assert(all =~= Seq::<Entry>::empty());
    } else {
        let head_keys = keys.drop_last();
        let head = classes.drop_last();
        let last = classes.last().map_values(tag(keys.last()));
        lemma_tagged_last(keys, classes);
        lemma_tagged_members(head_keys, head);
        let before = tagged(head_keys, head);
        assert forall|e: Entry| #[trigger] all.contains(e) implies in_class(keys, classes, e) by {
            let p = choose|p: int| 0 <= p < all.len() && all[p] == e;
            if p < before.len() {
                assert(before[p] == e);
                assert(before.contains(e));
                assert(in_class(head_keys, head, e));
                let i = choose|i: int|
                    0 <= i < head.len() && head_keys[i] == e.0 && (#[trigger] head[i]).contains(
                        e.1,
                    );
                assert(classes[i] == head[i]);
            } else {
                let q = p - before.len();
                assert(last[q] == e);
                assert(classes.last()[q] == e.1);
                assert(classes[classes.len() - 1].contains(e.1));
            }
        }
        assert forall|e: Entry| in_class(keys, classes, e) implies #[trigger] all.contains(e) by {
            let i = choose|i: int|
                0 <= i < classes.len() && keys[i] == e.0 && (#[trigger] classes[i]).contains(e.1);
            if i < head.len() {
                assert(head[i] == classes[i]);
                assert(in_class(head_keys, head, e));
                assert(before.contains(e));
                let p = choose|p: int| 0 <= p < before.len() && before[p] == e;
                assert(all[p] == e);
            } else {
                let q = choose|q: int| 0 <= q < classes[i].len() && classes[i][q] == e.1;
                assert(last[q] == e);
                assert(all[before.len() + q] == e);
            }
        }
    }
}

/// The keyed paths of classes in proper form stand in order.
pub proof fn lemma_tagged_sorted(keys: Seq<int>, classes: Seq<Seq<Seq<u8>>>)
    requires
        well_classed(keys, classes),
    ensures
        entries_sorted(tagged(keys, classes)),
    decreases classes.len(),
{
    let all = tagged(keys, classes);
    if classes.len() == 0 {
        assert(tagged_classes(keys, classes) =~= Seq::<Seq<Entry>>::empty());
        assert(all =~= Seq::<Entry>::empty());
    } else {
        let head_keys = keys.drop_last();
        let head = classes.drop_last();
        let last = classes.last().map_values(tag(keys.last()));
        lemma_tagged_last(keys, classes);
        lemma_drop_last_well_classed(keys, classes);
        lemma_tagged_sorted(head_keys, head);
        lemma_tagged_members(head_keys, head);
        let before = tagged(head_keys, head);
        assert forall|a: int, b: int| 0 <= a < b < all.len() implies entry_le(all[a], all[b]) by {
            if b < before.len() {
                assert(all[a] == before[a] && all[b] == before[b]);
            } else if a >= before.len() {
                let qa = a - before.len();
                let qb = b - before.len();
                assert(all[a] == last[qa] && all[b] == last[qb]);
                assert(paths_sorted(classes[classes.len() - 1]));
            } else {
                assert(all[a] == before[a]);
                assert(before.contains(before[a]));
                assert(in_class(head_keys, head, before[a]));
                let i = choose|i: int|
                    0 <= i < head.len() && head_keys[i] == before[a].0 && (
                    #[trigger] head[i]).contains(before[a].1);
                assert(keys[i] < keys[keys.len() - 1]);
                assert(all[b] == last[b - before.len()]);
            }
        }
    }
}

/// Classes in proper form without the last of them are in proper form.
pub proof fn lemma_drop_last_well_classed(keys: Seq<int>, classes: Seq<Seq<Seq<u8>>>)
    requires
        well_classed(keys, classes),
        classes.len() > 0,
    ensures
        well_classed(keys.drop_last(), classes.drop_last()),
{
}

/// Classes in proper form are determined by their keyed paths: two
/// collections of classes with the same keyed paths in the same order have
/// the same keys and the same classes.
pub proof fn lemma_classes_unique(
    keys1: Seq<int>,
    classes1: Seq<Seq<Seq<u8>>>,
    keys2: Seq<int>,
    classes2: Seq<Seq<Seq<u8>>>,
)
    requires
        well_classed(keys1, classes1),
        well_classed(keys2, classes2),
        tagged(keys1, classes1) == tagged(keys2, classes2),
    ensures
        keys1 == keys2,
        classes1 == classes2,
    decreases classes1.len(),
{
    let all = tagged(keys1, classes1);
    if classes1.len() == 0 || classes2.len() == 0 {
        if classes1.len() > 0 {
            lemma_tagged_last(keys1, classes1);
            assert(classes1[classes1.len() - 1].len() > 0);
        } else {
            assert(tagged_classes(keys1, classes1) =~= Seq::<Seq<Entry>>::empty());
        }
        if classes2.len() > 0 {
            lemma_tagged_last(keys2, classes2);
            assert(classes2[classes2.len() - 1].len() > 0);
        } else {
            assert(tagged_classes(keys2, classes2) =~= Seq::<Seq<Entry>>::empty());
        }
        assert(keys1 =~= keys2);
        assert(classes1 =~= classes2);
    } else {
        let k1 = keys1.last();
        let k2 = keys2.last();
        let head1 = tagged(keys1.drop_last(), classes1.drop_last());
        let head2 = tagged(keys2.drop_last(), classes2.drop_last());
        let last1 = classes1.last().map_values(tag(k1));
        let last2 = classes2.last().map_values(tag(k2));
        lemma_tagged_last(keys1, classes1);
        lemma_tagged_last(keys2, classes2);
        lemma_drop_last_well_classed(keys1, classes1);
        lemma_drop_last_well_classed(keys2, classes2);
        lemma_tagged_members(keys1.drop_last(), classes1.drop_last());
        lemma_tagged_members(keys2.drop_last(), classes2.drop_last());
        assert(classes1[classes1.len() - 1].len() > 0);
        assert(classes2[classes2.len() - 1].len() > 0);
        assert(all == head1 + last1);
        assert(all == head2 + last2);
        let n = all.len() as int;
        assert(all[n - 1] == last1[last1.len() - 1]);
        assert(all[n - 1] == last2[last2.len() - 1]);
        assert(k1 == k2);
        assert forall|p: int| 0 <= p < head1.len() implies (#[trigger] head1[p]).0 < k1 by {
            assert(head1.contains(head1[p]));
            assert(in_class(keys1.drop_last(), classes1.drop_last(), head1[p]));
            let i = choose|i: int|
                0 <= i < classes1.drop_last().len() && keys1.drop_last()[i] == head1[p].0 && (
                #[trigger] classes1.drop_last()[i]).contains(head1[p].1);
            assert(keys1[i] < keys1[keys1.len() - 1]);
        }
        assert forall|p: int| 0 <= p < head2.len() implies (#[trigger] head2[p]).0 < k2 by {
            assert(head2.contains(head2[p]));
            assert(in_class(keys2.drop_last(), classes2.drop_last(), head2[p]));
            let i = choose|i: int|
                0 <= i < classes2.drop_last().len() && keys2.drop_last()[i] == head2[p].0 && (
                #[trigger] classes2.drop_last()[i]).contains(head2[p].1);
            assert(keys2[i] < keys2[keys2.len() - 1]);
        }
        if head1.len() < head2.len() {
            let p = head1.len() as int;
            assert(all[p] == last1[0]);
            assert(all[p] == head2[p]);
            assert(false);
        }
        if head2.len() < head1.len() {
            let p = head2.len() as int;
            assert(all[p] == last2[0]);
            assert(all[p] == head1[p]);
            assert(false);
        }
        assert(head1 =~= all.take(head1.len() as int));
        assert(head2 =~= all.take(head1.len() as int));
        assert(last1 =~= all.skip(head1.len() as int));
        assert(last2 =~= all.skip(head1.len() as int));
        assert(classes1.last() =~= classes2.last()) by {
            assert(classes1.last().len() == classes2.last().len());
            assert forall|q: int| 0 <= q < classes1.last().len() implies classes1.last()[q]
                == classes2.last()[q] by {
                assert(last1[q].1 == classes1.last()[q]);
                assert(last2[q].1 == classes2.last()[q]);
            }
        }
        lemma_classes_unique(
            keys1.drop_last(),
            classes1.drop_last(),
            keys2.drop_last(),
            classes2.drop_last(),
        );
        assert(keys1 =~= keys1.drop_last().push(k1));
        assert(keys2 =~= keys2.drop_last().push(k2));
        assert(classes1 =~= classes1.drop_last().push(classes1.last()));
        assert(classes2 =~= classes2.drop_last().push(classes2.last()));
    }
}

/// The reduction is determined by the keyed paths of the records: records
/// with the same keyed paths, each equally often, have the same reduction.
pub proof fn lemma_reduction_unique(
    records1: Seq<GameRecord>,
    classes1: Seq<Seq<Seq<u8>>>,
    records2: Seq<GameRecord>,
    classes2: Seq<Seq<Seq<u8>>>,
)
    requires
        is_reduction(records1, classes1),
        is_reduction(records2, classes2),
        record_entries(records1).to_multiset() == record_entries(records2).to_multiset(),
    ensures
        classes1 == classes2,
{
    let keys1 = choose|keys: Seq<int>| classes_under(records1, keys, classes1);
    let keys2 = choose|keys: Seq<int>| classes_under(records2, keys, classes2);
    let leq = |a: Entry, b: Entry| entry_le(a, b);
    lemma_tagged_sorted(keys1, classes1);
    lemma_tagged_sorted(keys2, classes2);
    lemma_entry_le_is_total_ordering();
    let all1 = tagged(keys1, classes1);
    let all2 = tagged(keys2, classes2);
    lemma_sorted_unique(all1, all2, leq);
    lemma_classes_unique(keys1, classes1, keys2, classes2);
}

/// The reduction does not depend on the order of the records: two
/// reductions of the same records, in whatever order these are given, are
/// the same classes with the same paths in the same order.
pub proof fn lemma_reduction_ignores_order(
    records1: Seq<GameRecord>,
    classes1: Seq<Seq<Seq<u8>>>,
    records2: Seq<GameRecord>,
    classes2: Seq<Seq<Seq<u8>>>,
)
    requires
        is_reduction(records1, classes1),
        is_reduction(records2, classes2),
        records1.to_multiset() == records2.to_multiset(),
    ensures
        classes1 == classes2,
{
    lemma_map_rearranged(
        records1,
        records2,
        |rec: GameRecord| (canonical_key(rec.board), rec.path),
    );
    lemma_reduction_unique(records1, classes1, records2, classes2);
}

/// `path` stands in one of the classes.
pub open spec fn in_some_class(classes: Seq<Seq<Seq<u8>>>, path: Seq<u8>) -> bool {
    exists|c: int| 0 <= c < classes.len() && (#[trigger] classes[c]).contains(path)
}

/// `path` is the path of one of the records.
pub open spec fn path_of_some(records: Seq<GameRecord>, path: Seq<u8>) -> bool {
    exists|i: int| 0 <= i < records.len() && (#[trigger] records[i]).path == path
}

/// Every path of a record stands in a class, every path of a class is the
/// path of a record, and the classes hold as many paths as there are records.
pub proof fn lemma_reduction_keeps_paths(records: Seq<GameRecord>, classes: Seq<Seq<Seq<u8>>>)
    requires
        is_reduction(records, classes),
    ensures
        forall|i: int|
            0 <= i < records.len() ==> in_some_class(classes, (#[trigger] records[i]).path),
        forall|c: int, q: int|
            0 <= c < classes.len() && 0 <= q < classes[c].len() ==> path_of_some(
                records,
                #[trigger] classes[c][q],
            ),
        classes.flatten().len() == records.len(),
{
    let keys = choose|keys: Seq<int>| classes_under(records, keys, classes);
    let all = tagged(keys, classes);
    let entries = record_entries(records);
    lemma_tagged_members(keys, classes);
    assert forall|i: int| 0 <= i < records.len() implies in_some_class(
        classes,
        (#[trigger] records[i]).path,
    ) by {
        let e = entries[i];
        lemma_same_members(all, entries, e);
    }
    assert forall|c: int, q: int|
        0 <= c < classes.len() && 0 <= q < classes[c].len() implies path_of_some(
        records,
        #[trigger] classes[c][q],
    ) by {
        let e = (keys[c], classes[c][q]);
        lemma_same_members(all, entries, e);
        let i = choose|i: int| 0 <= i < entries.len() && entries[i] == e;
    }
    vstd::seq_lib::to_multiset_len(all);
    vstd::seq_lib::to_multiset_len(entries);
    lemma_tagged_len(keys, classes);
}

/// Pairing the paths with keys does not change their number.
pub proof fn lemma_tagged_len(keys: Seq<int>, classes: Seq<Seq<Seq<u8>>>)
    requires
        keys.len() == classes.len(),
    ensures
        tagged(keys, classes).len() == classes.flatten().len(),
    decreases classes.len(),
{
    if classes.len() == 0 {
        assert(tagged_classes(keys, classes) =~= Seq::<Seq<Entry>>::empty());
    } else {
        lemma_tagged_last(keys, classes);
        lemma_tagged_len(keys.drop_last(), classes.drop_last());
        assert(classes =~= classes.drop_last().push(classes.last()));
        classes.drop_last().lemma_flatten_push(classes.last());
    }
}

/// Two records whose boards have the same canonical key have their paths in
/// the same class.
pub proof fn lemma_same_key_same_class(
    records: Seq<GameRecord>,
    classes: Seq<Seq<Seq<u8>>>,
    i: int,
    j: int,
)
    requires
        is_reduction(records, classes),
        0 <= i < records.len(),
        0 <= j < records.len(),
        canonical_key(records[i].board) == canonical_key(records[j].board),
    ensures
        exists|c: int|
            0 <= c < classes.len() && (#[trigger] classes[c]).contains(records[i].path)
                && classes[c].contains(records[j].path),
{
    let keys = choose|keys: Seq<int>| classes_under(records, keys, classes);
    let all = tagged(keys, classes);
    let entries = record_entries(records);
    lemma_tagged_members(keys, classes);
    let ei = entries[i];
    let ej = entries[j];
    lemma_same_members(all, entries, ei);
    lemma_same_members(all, entries, ej);
    let a = choose|a: int|
        0 <= a < classes.len() && keys[a] == ei.0 && (#[trigger] classes[a]).contains(ei.1);
    let b = choose|b: int|
        0 <= b < classes.len() && keys[b] == ej.0 && (#[trigger] classes[b]).contains(ej.1);
}

/// Two records of which one has the board of the other turned a quarter
/// turn have their paths in the same class.
pub proof fn lemma_rotated_boards_share_class(
    records: Seq<GameRecord>,
    classes: Seq<Seq<Seq<u8>>>,
    i: int,
    j: int,
)
    requires
        is_reduction(records, classes),
        0 <= i < records.len(),
        0 <= j < records.len(),
        is_board(records[i].board),
        records[j].board == rotated(records[i].board),
    ensures
        exists|c: int|
            0 <= c < classes.len() && (#[trigger] classes[c]).contains(records[i].path)
                && classes[c].contains(records[j].path),
{
    lemma_canonical_key_invariant(records[i].board);
    lemma_same_key_same_class(records, classes, i, j);
}

} // verus!
