//! The walk from the empty board finds every game: its buckets hold exactly
//! the games that can be played to their end, each once, each in the bucket
//! of its outcome.

use vstd::prelude::*;
use crate::games::{
    game_of, lemma_beginning, lemma_last_move, lemma_next_move, longer_game_of, mover, playable,
    record_of,
};
use crate::outcome::{GameRecord, TicTacToeState};
use crate::turns::{
    follows, lemma_follows_path, lemma_successors, lemma_successors_cells, successor,
    successor_at, successors,
};
use crate::walk::{
    expand, follows_one_of, lemma_expand_follows, lemma_open_after_decreases,
    lemma_with_outcome_push, max_open, open_after, walk, with_outcome,
};
use crate::walk_laws::lemma_with_outcome_members;

verus! {

/// No two records of `records` have the same path.
pub open spec fn distinct_paths(records: Seq<GameRecord>) -> bool {
    forall|i: int, j: int|
        0 <= i < j < records.len() ==> (#[trigger] records[i]).path != (#[trigger] records[j]).path
}

/// `records` holds exactly the games of `length` moves that can be played,
/// each once.
pub open spec fn holds_all_games(records: Seq<GameRecord>, length: int) -> bool {
    &&& forall|i: int|
        0 <= i < records.len() ==> #[trigger] records[i] == record_of(records[i].path)
            && playable(records[i].path) && records[i].path.len() == length
    &&& distinct_paths(records)
    &&& forall|path: Seq<u8>|
        #[trigger] playable(path) && path.len() == length ==> records.contains(record_of(path))
}

/// `records` holds exactly the games of `length` moves that can be played
/// and have the outcome `outcome`, each once.
pub open spec fn holds_games(
    records: Seq<GameRecord>,
    length: int,
    outcome: TicTacToeState,
) -> bool {
    &&& forall|i: int|
        0 <= i < records.len() ==> #[trigger] records[i] == record_of(records[i].path) && game_of(
            records[i].path,
            length,
            outcome,
        )
    &&& distinct_paths(records)
    &&& forall|path: Seq<u8>| #[trigger]
        game_of(path, length, outcome) ==> records.contains(record_of(path))
}

/// `records` holds exactly the games of more than `length` moves that can
/// be played and have the outcome `outcome`, each once.
pub open spec fn holds_longer_games(
    records: Seq<GameRecord>,
    length: int,
    outcome: TicTacToeState,
) -> bool {
    &&& forall|i: int|
        0 <= i < records.len() ==> #[trigger] records[i] == record_of(records[i].path)
            && longer_game_of(records[i].path, length, outcome)
    &&& distinct_paths(records)
    &&& forall|path: Seq<u8>| #[trigger]
        longer_game_of(path, length, outcome) ==> records.contains(record_of(path))
}

/// Every record that follows a record of `frontier` is among the successors
/// of `frontier`.
pub proof fn lemma_expand_members(frontier: Seq<GameRecord>, player: char)
    ensures
        forall|next: GameRecord| #[trigger]
            follows_one_of(frontier, player, next) ==> expand(frontier, player).contains(next),
    decreases frontier.len(),
{
    let f = |rec: GameRecord| successors(rec, player);
    let all = expand(frontier, player);
    if frontier.len() > 0 {
        let head = frontier.drop_last();
        let last = frontier.last();
        lemma_expand_members(head, player);
        assert(frontier.map_values(f) =~= head.map_values(f).push(f(last)));
        head.map_values(f).lemma_flatten_push(f(last));
        lemma_successors_cells(last, player, 9);
        assert forall|next: GameRecord| #[trigger]
            follows_one_of(frontier, player, next) implies all.contains(next) by {
            let i = choose|i: int|
                0 <= i < frontier.len() && follows(#[trigger] frontier[i], player, next);
            if i < head.len() {
                assert(head[i] == frontier[i]);
                assert(follows_one_of(head, player, next));
                let j = choose|j: int|
                    0 <= j < expand(head, player).len() && expand(head, player)[j] == next;
                assert(all[j] == next);
            } else {
                let (row, col) = choose|row: int, col: int|
                    0 <= row < 3 && 0 <= col < 3 && last.board[row][col] == ' ' && next
                        == #[trigger] successor(last, row, col, player);
                let cell = 3 * row + col;
                assert(next == successor_at(last, cell, player));
                let j = choose|j: int|
                    0 <= j < successors(last, player).len() && successors(last, player)[j]
                        == next;
                assert(all[expand(head, player).len() + j] == next);
            }
        }
    }
}

/// The successors of records with distinct paths have distinct paths.
pub proof fn lemma_expand_distinct(frontier: Seq<GameRecord>, player: char)
    requires
        distinct_paths(frontier),
    ensures
        distinct_paths(expand(frontier, player)),
    decreases frontier.len(),
{
    let f = |rec: GameRecord| successors(rec, player);
    let all = expand(frontier, player);
    if frontier.len() > 0 {
        let head = frontier.drop_last();
        let last = frontier.last();
        assert(distinct_paths(head)) by {
            assert forall|i: int, j: int| 0 <= i < j < head.len() implies (#[trigger] head[i]).path
                != (#[trigger] head[j]).path by {
                assert(head[i] == frontier[i] && head[j] == frontier[j]);
            }
        }
        lemma_expand_distinct(head, player);
        assert(frontier.map_values(f) =~= head.map_values(f).push(f(last)));
        head.map_values(f).lemma_flatten_push(f(last));
        let before = expand(head, player);
        let added = successors(last, player);
        assert(all =~= before + added);
        lemma_expand_follows(head, player);
        lemma_successors(last, player);
        lemma_successors_cells(last, player, 9);
        assert forall|i: int, j: int| 0 <= i < j < all.len() implies (#[trigger] all[i]).path != (
        #[trigger] all[j]).path by {
            if j < before.len() {
                assert(all[i] == before[i] && all[j] == before[j]);
            } else if i >= before.len() {
                let a = i - before.len();
                let b = j - before.len();
                assert(all[i] == added[a] && all[j] == added[b]);
                assert(added[a].path.last() < added[b].path.last());
            } else {
                let b = j - before.len();
                assert(all[i] == before[i] && all[j] == added[b]);
                assert(follows_one_of(head, player, before[i]));
                let h = choose|h: int|
                    0 <= h < head.len() && follows(#[trigger] head[h], player, before[i]);
                lemma_follows_path(head[h], player, before[i]);
                assert(follows(last, player, added[b]));
                lemma_follows_path(last, player, added[b]);
                assert(frontier[h] == head[h]);
                assert(frontier[h].path != frontier[frontier.len() - 1].path);
            }
        }
    } else {
        assert(frontier.map_values(f) =~= Seq::<Seq<GameRecord>>::empty());
    }
}

/// The records of one outcome among records with distinct paths have
/// distinct paths.
pub proof fn lemma_bucket_distinct(records: Seq<GameRecord>, outcome: TicTacToeState)
    requires
        distinct_paths(records),
    ensures
        distinct_paths(with_outcome(records, outcome)),
    decreases records.len(),
{
    let bucket = with_outcome(records, outcome);
    if records.len() == 0 {
        lemma_with_outcome_members(records, outcome);
        if bucket.len() > 0 {
            assert(records.contains(bucket[0]));
        }
    } else {
        let head = records.drop_last();
        let last = records.last();
        assert(distinct_paths(head)) by {
            assert forall|i: int, j: int| 0 <= i < j < head.len() implies (#[trigger] head[i]).path
                != (#[trigger] head[j]).path by {
                assert(head[i] == records[i] && head[j] == records[j]);
            }
        }
        lemma_bucket_distinct(head, outcome);
        assert(records =~= head.push(last));
        lemma_with_outcome_push(head, last);
        lemma_with_outcome_members(head, outcome);
        let before = with_outcome(head, outcome);
        assert forall|i: int, j: int| 0 <= i < j < bucket.len() implies (#[trigger] bucket[i]).path
            != (#[trigger] bucket[j]).path by {
            assert(bucket[i] == before[i]);
            if j < before.len() {
                assert(bucket[j] == before[j]);
            } else {
                assert(bucket[j] == last);
                assert(head.contains(before[i]));
                let h = choose|h: int| 0 <= h < head.len() && head[h] == before[i];
                assert(records[h] == head[h]);
                assert(records[h].path != records[records.len() - 1].path);
            }
        }
    }
}

/// One ply from all open games of `length` moves produces all games of
/// `length + 1` moves, each once.
pub proof fn lemma_expand_games(frontier: Seq<GameRecord>, length: int)
    requires
        0 <= length,
        holds_games(frontier, length, TicTacToeState::Intermediate),
    ensures
        holds_all_games(expand(frontier, mover(length)), length + 1),
{
    let player = mover(length);
    let next = expand(frontier, player);
    lemma_expand_follows(frontier, player);
    lemma_expand_members(frontier, player);
    lemma_expand_distinct(frontier, player);
    assert forall|j: int| 0 <= j < next.len() implies #[trigger] next[j] == record_of(
        next[j].path,
    ) && playable(next[j].path) && next[j].path.len() == length + 1 by {
        let i = choose|i: int|
            0 <= i < frontier.len() && follows(#[trigger] frontier[i], player, next[j]);
        let (row, col) = choose|row: int, col: int|
            0 <= row < 3 && 0 <= col < 3 && frontier[i].board[row][col] == ' ' && next[j]
                == #[trigger] successor(frontier[i], row, col, player);
        lemma_next_move(frontier[i].path, row, col);
    }
    assert forall|path: Seq<u8>|
        #[trigger] playable(path) && path.len() == length + 1 implies next.contains(
        record_of(path),
    ) by {
        let before = path.drop_last();
        assert(game_of(before, length, TicTacToeState::Intermediate));
        let i = choose|i: int| 0 <= i < frontier.len() && frontier[i] == record_of(before);
        lemma_last_move(path);
        assert(follows_one_of(frontier, player, record_of(path)));
    }
}

/// Among all games of `length` moves, the bucket of an outcome holds all
/// games of `length` moves with that outcome, each once.
pub proof fn lemma_bucket_games(records: Seq<GameRecord>, length: int, outcome: TicTacToeState)
    requires
        holds_all_games(records, length),
    ensures
        holds_games(with_outcome(records, outcome), length, outcome),
{
    let bucket = with_outcome(records, outcome);
    lemma_with_outcome_members(records, outcome);
    lemma_bucket_distinct(records, outcome);
    assert forall|i: int| 0 <= i < bucket.len() implies #[trigger] bucket[i] == record_of(
        bucket[i].path,
    ) && game_of(bucket[i].path, length, outcome) by {
        assert(records.contains(bucket[i]));
        let j = choose|j: int| 0 <= j < records.len() && records[j] == bucket[i];
        assert(records[j] == record_of(records[j].path));
    }
    assert forall|path: Seq<u8>| #[trigger] game_of(path, length, outcome) implies bucket.contains(
        record_of(path),
    ) by {
        assert(playable(path) && path.len() == length);
        assert(records.contains(record_of(path)));
        let j = choose|j: int| 0 <= j < records.len() && records[j] == record_of(path);
        assert(bucket.contains(records[j]));
    }
}

/// Two collections of finished games, the one of `length + 1` moves and the
/// other of more, make up the games of more than `length` moves.
proof fn lemma_join_games(
    here: Seq<GameRecord>,
    later: Seq<GameRecord>,
    length: int,
    outcome: TicTacToeState,
)
    requires
        holds_games(here, length + 1, outcome),
        holds_longer_games(later, length + 1, outcome),
    ensures
        holds_longer_games(here + later, length, outcome),
{
    let all = here + later;
    assert forall|path: Seq<u8>| #[trigger]
        longer_game_of(path, length, outcome) implies all.contains(record_of(path)) by {
        if path.len() == length + 1 {
            assert(game_of(path, length + 1, outcome));
            let i = choose|i: int| 0 <= i < here.len() && here[i] == record_of(path);
            assert(all[i] == here[i]);
        } else {
            assert(longer_game_of(path, length + 1, outcome));
            let i = choose|i: int| 0 <= i < later.len() && later[i] == record_of(path);
            assert(all[here.len() + i] == later[i]);
        }
    }
}

/// The walk from all open games of `length` moves finds every longer game
/// that can be played to its end: each bucket holds exactly the finished
/// games of its outcome of more than `length` moves, each once.
pub proof fn lemma_walk_finds_all(frontier: Seq<GameRecord>, length: int, turn: int)
    requires
        0 <= length,
        holds_games(frontier, length, TicTacToeState::Intermediate),
    ensures
        holds_longer_games(
            walk(frontier, mover(length), turn).draws,
            length,
            TicTacToeState::Draw,
        ),
        holds_longer_games(
            walk(frontier, mover(length), turn).x_wins,
            length,
            TicTacToeState::XWin,
        ),
        holds_longer_games(
            walk(frontier, mover(length), turn).o_wins,
            length,
            TicTacToeState::OWin,
        ),
    decreases max_open(frontier),
{
    let player = mover(length);
    let next = expand(frontier, player);
    let open = open_after(frontier, player);
    lemma_expand_games(frontier, length);
    lemma_bucket_games(next, length + 1, TicTacToeState::Intermediate);
    lemma_bucket_games(next, length + 1, TicTacToeState::Draw);
    lemma_bucket_games(next, length + 1, TicTacToeState::XWin);
    lemma_bucket_games(next, length + 1, TicTacToeState::OWin);
    if open.len() == 0 {
        lemma_no_longer_games(open, length + 1, TicTacToeState::Draw);
        lemma_no_longer_games(open, length + 1, TicTacToeState::XWin);
        lemma_no_longer_games(open, length + 1, TicTacToeState::OWin);
        let none = Seq::<GameRecord>::empty();
        let draws = with_outcome(next, TicTacToeState::Draw);
        let x_wins = with_outcome(next, TicTacToeState::XWin);
        let o_wins = with_outcome(next, TicTacToeState::OWin);
        lemma_join_games(draws, none, length, TicTacToeState::Draw);
        lemma_join_games(x_wins, none, length, TicTacToeState::XWin);
        lemma_join_games(o_wins, none, length, TicTacToeState::OWin);
    } else {
        lemma_open_after_decreases(frontier, player);
        lemma_walk_finds_all(open, length + 1, turn + 1);
        let later = walk(open, mover(length + 1), turn + 1);
        lemma_join_games(
            with_outcome(next, TicTacToeState::Draw),
            later.draws,
            length,
            TicTacToeState::Draw,
        );
        lemma_join_games(
            with_outcome(next, TicTacToeState::XWin),
            later.x_wins,
            length,
            TicTacToeState::XWin,
        );
        lemma_join_games(
            with_outcome(next, TicTacToeState::OWin),
            later.o_wins,
            length,
            TicTacToeState::OWin,
        );
    }
}

/// Where no game of `length` moves is open, no game is longer.
proof fn lemma_no_longer_games(open: Seq<GameRecord>, length: int, outcome: TicTacToeState)
    requires
        0 <= length,
        open.len() == 0,
        holds_games(open, length, TicTacToeState::Intermediate),
    ensures
        holds_longer_games(Seq::<GameRecord>::empty(), length, outcome),
{
    assert forall|path: Seq<u8>| #[trigger] longer_game_of(path, length, outcome) implies Seq::<
        GameRecord,
    >::empty().contains(record_of(path)) by {
        lemma_beginning(path, length);
        let begin = path.take(length);
        assert(game_of(begin, length, TicTacToeState::Intermediate));
    }
}

/// The walk from the empty board with `'X'` to move finds every game: the
/// bucket of each outcome holds exactly the games that can be played and
/// end with that outcome, each once.
pub proof fn lemma_walk_is_exhaustive(turn: int)
    ensures
        holds_longer_games(
            walk(seq![record_of(Seq::empty())], 'X', turn).draws,
            0,
            TicTacToeState::Draw,
        ),
        holds_longer_games(
            walk(seq![record_of(Seq::empty())], 'X', turn).x_wins,
            0,
            TicTacToeState::XWin,
        ),
        holds_longer_games(
            walk(seq![record_of(Seq::empty())], 'X', turn).o_wins,
            0,
            TicTacToeState::OWin,
        ),
{
    let start = seq![record_of(Seq::empty())];
    assert(holds_games(start, 0, TicTacToeState::Intermediate)) by {
        assert forall|path: Seq<u8>| #[trigger]
            game_of(path, 0, TicTacToeState::Intermediate) implies start.contains(
            record_of(path),
        ) by {
            assert(path =~= Seq::<u8>::empty());
            assert(start[0] == record_of(path));
        }
    }
    lemma_walk_finds_all(start, 0, turn);
}

} // verus!
