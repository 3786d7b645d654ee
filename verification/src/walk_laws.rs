//! What holds of every walk: the buckets share out the records of a ply
//! with none lost and none counted twice, every record lies in the bucket of
//! its outcome, and the records of a ply have paths as long as the number of
//! the ply.

use vstd::prelude::*;
use vstd::seq_lib::to_multiset_build;
use crate::board::{is_board, is_player};
use crate::outcome::{
    all_of_length, all_on_boards, all_records, is_record, outcome_of, GameRecord,
    TicTacToeState,
};
use crate::turns::{follows, lemma_follows, other_player};
use crate::walk::{
    counts_of, expand, has_outcome, lemma_expand_follows, lemma_open_after_decreases,
    lemma_with_outcome_push, max_open, open_after, walk, with_outcome,
};

verus! {

/// Every record of `records` has the outcome `outcome`.
pub open spec fn all_have(records: Seq<GameRecord>, outcome: TicTacToeState) -> bool {
    forall|i: int| 0 <= i < records.len() ==> outcome_of(#[trigger] records[i]) == outcome
}

/// The records that the ply numbered `t`, counting from 0, of the walk from
/// `frontier` produces, before they are sorted into buckets.
pub open spec fn produced(frontier: Seq<GameRecord>, player: char, t: nat) -> Seq<GameRecord>
    decreases t,
{
    if t == 0 {
        expand(frontier, player)
    } else {
        produced(open_after(frontier, player), other_player(player), (t - 1) as nat)
    }
}

/// The four buckets share out the records: each record lies in exactly one
/// bucket, that of its outcome, so none is lost and none is counted twice.
pub proof fn lemma_buckets_partition(records: Seq<GameRecord>)
    ensures
        with_outcome(records, TicTacToeState::Intermediate).len() + with_outcome(
            records,
            TicTacToeState::Draw,
        ).len() + with_outcome(records, TicTacToeState::XWin).len() + with_outcome(
            records,
            TicTacToeState::OWin,
        ).len() == records.len(),
        with_outcome(records, TicTacToeState::Intermediate).to_multiset().add(
            with_outcome(records, TicTacToeState::Draw).to_multiset(),
        ).add(with_outcome(records, TicTacToeState::XWin).to_multiset()).add(
            with_outcome(records, TicTacToeState::OWin).to_multiset(),
        ) =~= records.to_multiset(),
    decreases records.len(),
{
    if records.len() == 0 {
        reveal(Seq::filter);
        records.to_multiset_ensures();
    } else {
        let head = records.drop_last();
        let last = records.last();
        lemma_buckets_partition(head);
        assert(records =~= head.push(last));
        lemma_with_outcome_push(head, last);
        to_multiset_build(head, last);
        to_multiset_build(with_outcome(head, TicTacToeState::Intermediate), last);
        to_multiset_build(with_outcome(head, TicTacToeState::Draw), last);
        to_multiset_build(with_outcome(head, TicTacToeState::XWin), last);
        to_multiset_build(with_outcome(head, TicTacToeState::OWin), last);
    }
}

/// A bucket holds records of the sequence it was taken from, and only
/// records with its outcome.
pub proof fn lemma_with_outcome_members(records: Seq<GameRecord>, outcome: TicTacToeState)
    ensures
        all_have(with_outcome(records, outcome), outcome),
        forall|i: int|
            0 <= i < with_outcome(records, outcome).len() ==> records.contains(
                #[trigger] with_outcome(records, outcome)[i],
            ),
        forall|i: int|
            0 <= i < records.len() && outcome_of(records[i]) == outcome ==> with_outcome(
                records,
                outcome,
            ).contains(#[trigger] records[i]),
{
    let bucket = with_outcome(records, outcome);
    assert forall|i: int| 0 <= i < bucket.len() implies outcome_of(#[trigger] bucket[i])
        == outcome && records.contains(bucket[i]) by {
        records.lemma_filter_contains_rev(has_outcome(outcome), bucket[i]);
    }
}

/// The successors of records on boards are on boards, and the successors of
/// well-formed records of one length are well-formed and one move longer.
pub proof fn lemma_expand_records(frontier: Seq<GameRecord>, player: char)
    requires
        is_player(player),
        all_on_boards(frontier),
    ensures
        all_on_boards(expand(frontier, player)),
        all_records(frontier) ==> all_records(expand(frontier, player)),
        forall|length: int|
            all_of_length(frontier, length) ==> all_of_length(
                #[trigger] expand(frontier, player),
                length + 1,
            ),
{
    let next = expand(frontier, player);
    lemma_expand_follows(frontier, player);
    assert forall|j: int| 0 <= j < next.len() implies is_board((#[trigger] next[j]).board) && (
    all_records(frontier) ==> is_record(next[j])) && (forall|length: int|
        all_of_length(frontier, length) ==> next[j].path.len() == length + 1) by {
        let i = choose|i: int|
            0 <= i < frontier.len() && follows(
                #[trigger] frontier[i],
                player,
                next[j],
            );
        lemma_follows(frontier[i], player, next[j]);
    }
}

/// Every finished game that a walk yields lies in the bucket of its
/// outcome. Walking from records on boards yields records on boards, and
/// walking from well-formed records yields well-formed records.
pub proof fn lemma_walk_records(frontier: Seq<GameRecord>, player: char, turn: int)
    requires
        is_player(player),
        all_on_boards(frontier),
    ensures
        all_have(walk(frontier, player, turn).draws, TicTacToeState::Draw),
        all_have(walk(frontier, player, turn).x_wins, TicTacToeState::XWin),
        all_have(walk(frontier, player, turn).o_wins, TicTacToeState::OWin),
        all_on_boards(walk(frontier, player, turn).draws),
        all_on_boards(walk(frontier, player, turn).x_wins),
        all_on_boards(walk(frontier, player, turn).o_wins),
        all_records(frontier) ==> all_records(walk(frontier, player, turn).draws) && all_records(
            walk(frontier, player, turn).x_wins,
        ) && all_records(walk(frontier, player, turn).o_wins),
    decreases max_open(frontier),
{
    let next = expand(frontier, player);
    let open = open_after(frontier, player);
    lemma_expand_records(frontier, player);
    lemma_with_outcome_members(next, TicTacToeState::Intermediate);
    lemma_with_outcome_members(next, TicTacToeState::Draw);
    lemma_with_outcome_members(next, TicTacToeState::XWin);
    lemma_with_outcome_members(next, TicTacToeState::OWin);
    if open.len() > 0 {
        lemma_open_after_decreases(frontier, player);
        lemma_walk_records(open, other_player(player), turn + 1);
    }
}

/// The records of a ply are as many moves long as the number of the ply
/// says: walking from well-formed records of `length` moves, the ply
/// numbered `t`, counting from 0, produces well-formed records of
/// `length + t + 1` moves, each with as many marks on its board.
pub proof fn lemma_ply_lengths(frontier: Seq<GameRecord>, player: char, length: int, t: nat)
    requires
        is_player(player),
        all_records(frontier),
        all_of_length(frontier, length),
    ensures
        all_records(produced(frontier, player, t)),
        all_of_length(produced(frontier, player, t), length + t + 1),
    decreases t,
{
    let next = expand(frontier, player);
    lemma_expand_records(frontier, player);
    if t > 0 {
        let open = open_after(frontier, player);
        lemma_with_outcome_members(next, TicTacToeState::Intermediate);
        lemma_ply_lengths(open, other_player(player), length + 1, (t - 1) as nat);
    }
}

/// The counts that a walk lists are the counts of its plies in their order:
/// the entry at `t` bears the number `turn + t` and counts what the ply
/// numbered `t`, counting from 0, produced.
pub proof fn lemma_walk_turns(frontier: Seq<GameRecord>, player: char, turn: int, t: nat)
    requires
        is_player(player),
        t < walk(frontier, player, turn).turns.len(),
    ensures
        walk(frontier, player, turn).turns[t as int] == counts_of(
            turn + t,
            produced(frontier, player, t),
        ),
    decreases t,
{
    let open = open_after(frontier, player);
    if t > 0 {
        lemma_walk_turns(open, other_player(player), turn + 1, (t - 1) as nat);
    }
}

} // verus!
