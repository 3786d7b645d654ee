//! The order in which paths and keyed paths are listed: paths as words over
//! the cell identifiers, keyed paths by key and then by path.

use vstd::prelude::*;
use vstd::relations::total_ordering;

verus! {

/// A path together with the canonical key of the board it leads to.
pub type Entry = (int, Seq<u8>);

/// `a` comes before `b`, or is `b`, in the order of words: a path comes
/// before every path that continues it, and otherwise the first move in
/// which two paths differ decides.
pub open spec fn path_le(a: Seq<u8>, b: Seq<u8>) -> bool
    decreases a.len(),
{
    if a.len() == 0 {
        true
    } else if b.len() == 0 {
        false
    } else if a[0] != b[0] {
        a[0] < b[0]
    } else {
        path_le(a.drop_first(), b.drop_first())
    }
}

/// `a` comes before `b`, or is `b`, in the order of keyed paths: the smaller
/// key first, and under the same key the path that comes first.
pub open spec fn entry_le(a: Entry, b: Entry) -> bool {
    a.0 < b.0 || (a.0 == b.0 && path_le(a.1, b.1))
}

/// The paths of `paths` stand in order.
pub open spec fn paths_sorted(paths: Seq<Seq<u8>>) -> bool {
    forall|i: int, j: int| 0 <= i < j < paths.len() ==> path_le(paths[i], paths[j])
}

/// The keyed paths of `entries` stand in order.
pub open spec fn entries_sorted(entries: Seq<Entry>) -> bool {
    forall|i: int, j: int| 0 <= i < j < entries.len() ==> entry_le(entries[i], entries[j])
}

/// Every path comes before or is itself.
pub proof fn lemma_path_le_reflexive(a: Seq<u8>)
    ensures
        path_le(a, a),
    decreases a.len(),
{
    if a.len() > 0 {
        lemma_path_le_reflexive(a.drop_first());
    }
}

/// Of two paths one comes before the other, or they are the same.
pub proof fn lemma_path_le_total(a: Seq<u8>, b: Seq<u8>)
    ensures
        path_le(a, b) || path_le(b, a),
    decreases a.len(),
{
    if a.len() > 0 && b.len() > 0 && a[0] == b[0] {
        lemma_path_le_total(a.drop_first(), b.drop_first());
    }
}

/// Two paths each of which comes before or is the other are the same path.
pub proof fn lemma_path_le_antisymmetric(a: Seq<u8>, b: Seq<u8>)
    requires
        path_le(a, b),
        path_le(b, a),
    ensures
        a == b,
    decreases a.len(),
{
    if a.len() > 0 {
        lemma_path_le_antisymmetric(a.drop_first(), b.drop_first());
        assert(a =~= seq![a[0]] + a.drop_first());
    }
}

/// If `a` comes before or is `b`, and `b` comes before or is `c`, then `a`
/// comes before or is `c`.
pub proof fn lemma_path_le_transitive(a: Seq<u8>, b: Seq<u8>, c: Seq<u8>)
    requires
        path_le(a, b),
        path_le(b, c),
    ensures
        path_le(a, c),
    decreases a.len(),
{
    if a.len() > 0 && a[0] == b[0] && b[0] == c[0] {
        lemma_path_le_transitive(a.drop_first(), b.drop_first(), c.drop_first());
    }
}

/// The order of keyed paths is reflexive, total, transitive and antisymmetric.
pub proof fn lemma_entry_le_order(a: Entry, b: Entry, c: Entry)
    ensures
        entry_le(a, a),
        entry_le(a, b) || entry_le(b, a),
        entry_le(a, b) && entry_le(b, c) ==> entry_le(a, c),
        entry_le(a, b) && entry_le(b, a) ==> a == b,
{
    lemma_path_le_reflexive(a.1);
    lemma_path_le_total(a.1, b.1);
    if entry_le(a, b) && entry_le(b, c) && a.0 == b.0 && b.0 == c.0 {
        lemma_path_le_transitive(a.1, b.1, c.1);
    }
    if entry_le(a, b) && entry_le(b, a) {
        lemma_path_le_antisymmetric(a.1, b.1);
    }
}

/// The order of paths is a total order.
pub proof fn lemma_path_le_is_total_ordering()
    ensures
        total_ordering(|a: Seq<u8>, b: Seq<u8>| path_le(a, b)),
{
    let leq = |a: Seq<u8>, b: Seq<u8>| path_le(a, b);
    assert forall|a: Seq<u8>, b: Seq<u8>| #[trigger] leq(a, b) && #[trigger] leq(b, a) implies a
        == b by {
        lemma_path_le_antisymmetric(a, b);
    }
    assert forall|a: Seq<u8>, b: Seq<u8>, c: Seq<u8>| #[trigger]
        leq(a, b) && #[trigger] leq(b, c) implies leq(a, c) by {
        lemma_path_le_transitive(a, b, c);
    }
    assert forall|a: Seq<u8>, b: Seq<u8>| #[trigger] leq(a, b) || #[trigger] leq(b, a) by {
        lemma_path_le_total(a, b);
    }
}

/// The order of keyed paths is a total order.
pub proof fn lemma_entry_le_is_total_ordering()
    ensures
        total_ordering(|a: Entry, b: Entry| entry_le(a, b)),
{
    let leq = |a: Entry, b: Entry| entry_le(a, b);
    assert forall|a: Entry, b: Entry| #[trigger] leq(a, b) && #[trigger] leq(b, a) implies a
        == b by {
        lemma_entry_le_order(a, b, a);
    }
    assert forall|a: Entry, b: Entry, c: Entry| #[trigger]
        leq(a, b) && #[trigger] leq(b, c) implies leq(a, c) by {
        lemma_entry_le_order(a, b, c);
    }
    assert forall|a: Entry, b: Entry| #[trigger] leq(a, b) || #[trigger] leq(b, a) by {
        lemma_entry_le_order(a, b, a);
    }
}

/// Whether `a` comes before `b`, or is `b`, in the order of paths.
pub fn path_in_order(a: &Vec<u8>, b: &Vec<u8>) -> (in_order: bool)
    ensures
        in_order == path_le(a@, b@),
{
    let mut at: usize = 0;
    assert(a@.skip(0) =~= a@ && b@.skip(0) =~= b@);
    while at < a.len() && at < b.len()
        invariant
            at <= a@.len(),
            at <= b@.len(),
            path_le(a@, b@) == path_le(a@.skip(at as int), b@.skip(at as int)),
        decreases a@.len() - at,
    {
        proof {
            assert(a@.skip(at as int).drop_first() =~= a@.skip(at + 1));
            assert(b@.skip(at as int).drop_first() =~= b@.skip(at + 1));
        }
        if a[at] != b[at] {
            return a[at] < b[at];
        }
        at += 1;
    }
    at == a.len()
}

} // verus!
