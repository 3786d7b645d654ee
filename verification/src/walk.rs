//! The walk over the game tree, ply by ply: every open record is expanded,
//! the successors are sorted into buckets by outcome, and the open ones are
//! expanded in turn until none is left.

use vstd::prelude::*;
use crate::board::{is_player, lemma_open_count_bounds, lemma_placed_fills_one, open_count};
use crate::outcome::{
    all_on_boards, get_end_state, outcome_of, GameRecord, State, TicTacToeState,
};
use crate::turns::{
    follows, generate_next_turns, get_next_player, lemma_successors_before, other_player,
    successor, successors,
};

verus! {

/// Game records sorted by outcome.
#[derive(Debug, Clone)]
pub struct Classified {
    pub intermediate: Vec<State>,
    pub draws: Vec<State>,
    pub x_wins: Vec<State>,
    pub o_wins: Vec<State>,
}

/// The test whether a record has the outcome `outcome`.
pub open spec fn has_outcome(outcome: TicTacToeState) -> spec_fn(GameRecord) -> bool {
    |rec: GameRecord| outcome_of(rec) == outcome
}

/// The records of `records` whose outcome is `outcome`, in their order.
pub open spec fn with_outcome(records: Seq<GameRecord>, outcome: TicTacToeState) -> Seq<
    GameRecord,
> {
    records.filter(has_outcome(outcome))
}

/// A record appended to a sequence is appended to the bucket of its outcome
/// and to no other.
pub proof fn lemma_with_outcome_push(records: Seq<GameRecord>, rec: GameRecord)
    ensures
        forall|outcome: TicTacToeState| #[trigger]
            with_outcome(records.push(rec), outcome) == if outcome_of(rec) == outcome {
                with_outcome(records, outcome).push(rec)
            } else {
                with_outcome(records, outcome)
            },
{
    assert forall|outcome: TicTacToeState| #[trigger]
        with_outcome(records.push(rec), outcome) == if outcome_of(rec) == outcome {
            with_outcome(records, outcome).push(rec)
        } else {
            with_outcome(records, outcome)
        } by {
        records.lemma_filter_push(rec, has_outcome(outcome));
    }
}

/// Sorts records into four buckets by outcome, keeping their order.
pub fn classify(states: Vec<State>) -> (result: Classified)
    requires
        all_on_boards(states.deep_view()),
    ensures
        result.intermediate.deep_view() == with_outcome(
            states.deep_view(),
            TicTacToeState::Intermediate,
        ),
        result.draws.deep_view() == with_outcome(states.deep_view(), TicTacToeState::Draw),
        result.x_wins.deep_view() == with_outcome(states.deep_view(), TicTacToeState::XWin),
        result.o_wins.deep_view() == with_outcome(states.deep_view(), TicTacToeState::OWin),
        all_on_boards(result.intermediate.deep_view()),
        all_on_boards(result.draws.deep_view()),
        all_on_boards(result.x_wins.deep_view()),
        all_on_boards(result.o_wins.deep_view()),
{
    let mut result = Classified {
        intermediate: Vec::new(),
        draws: Vec::new(),
        x_wins: Vec::new(),
        o_wins: Vec::new(),
    };
    let ghost all = states.deep_view();
    for state in it: states.into_iter()
        invariant
            it.seq() == states@,
            all == states.deep_view(),
            all_on_boards(states.deep_view()),
            all_on_boards(result.intermediate.deep_view()),
            all_on_boards(result.draws.deep_view()),
            all_on_boards(result.x_wins.deep_view()),
            all_on_boards(result.o_wins.deep_view()),
            result.intermediate.deep_view() == with_outcome(
                all.take(it.index() as int),
                TicTacToeState::Intermediate,
            ),
            result.draws.deep_view() == with_outcome(
                all.take(it.index() as int),
                TicTacToeState::Draw,
            ),
            result.x_wins.deep_view() == with_outcome(
                all.take(it.index() as int),
                TicTacToeState::XWin,
            ),
            result.o_wins.deep_view() == with_outcome(
                all.take(it.index() as int),
                TicTacToeState::OWin,
            ),
    {
        let ghost at = it.index() as int;
        let ghost before = result;
        proof {
            assert(all[at] == state@);
            assert(all.take(at + 1) =~= all.take(at).push(state@));
            lemma_with_outcome_push(all.take(at), state@);
        }
        match get_end_state(&state) {
            TicTacToeState::Intermediate => {
                result.intermediate.push(state);
                assert(result.intermediate.deep_view() =~= before.intermediate.deep_view().push(
                    state@,
                ));
            },
            TicTacToeState::Draw => {
                result.draws.push(state);
                assert(result.draws.deep_view() =~= before.draws.deep_view().push(state@));
            },
            TicTacToeState::XWin => {
                result.x_wins.push(state);
                assert(result.x_wins.deep_view() =~= before.x_wins.deep_view().push(state@));
            },
            TicTacToeState::OWin => {
                result.o_wins.push(state);
                assert(result.o_wins.deep_view() =~= before.o_wins.deep_view().push(state@));
            },
        }
    }
    proof {
        assert(all.take(all.len() as int) =~= all);
    }
    result
}

/// How many records a ply has put into each bucket.
#[derive(Debug, Clone, Copy, PartialEq, Eq, Structural)]
pub struct TurnCounts {
    pub turn: u8,
    pub intermediate: usize,
    pub draws: usize,
    pub x_wins: usize,
    pub o_wins: usize,
}

/// What a walk yields: the finished games by outcome, each bucket in the
/// order of the plies and within a ply in the order of expansion, and the
/// counts of each ply.
pub struct Walk {
    pub draws: Seq<GameRecord>,
    pub x_wins: Seq<GameRecord>,
    pub o_wins: Seq<GameRecord>,
    pub turns: Seq<TurnCounts>,
}

impl Walk {
    /// This walk followed by a later one.
    pub open spec fn followed_by(self, later: Walk) -> Walk {
        Walk {
            draws: self.draws + later.draws,
            x_wins: self.x_wins + later.x_wins,
            o_wins: self.o_wins + later.o_wins,
            turns: self.turns + later.turns,
        }
    }
}

/// All successors of the records of `frontier` for `player`: those of the
/// first record, then those of the second, and so on.
pub open spec fn expand(frontier: Seq<GameRecord>, player: char) -> Seq<GameRecord> {
    frontier.map_values(|rec: GameRecord| successors(rec, player)).flatten()
}

/// The counts of the ply numbered `turn` that produced `produced`.
pub open spec fn counts_of(turn: int, produced: Seq<GameRecord>) -> TurnCounts {
    TurnCounts {
        turn: turn as u8,
        intermediate: with_outcome(produced, TicTacToeState::Intermediate).len() as usize,
        draws: with_outcome(produced, TicTacToeState::Draw).len() as usize,
        x_wins: with_outcome(produced, TicTacToeState::XWin).len() as usize,
        o_wins: with_outcome(produced, TicTacToeState::OWin).len() as usize,
    }
}

/// What one ply yields: the successors of `frontier` that are finished, by
/// outcome, and the counts of the ply.
pub open spec fn ply(frontier: Seq<GameRecord>, player: char, turn: int) -> Walk {
    let produced = expand(frontier, player);
    Walk {
        draws: with_outcome(produced, TicTacToeState::Draw),
        x_wins: with_outcome(produced, TicTacToeState::XWin),
        o_wins: with_outcome(produced, TicTacToeState::OWin),
        turns: seq![counts_of(turn, produced)],
    }
}

/// The records that are still open after `player` has moved in every record
/// of `frontier`.
pub open spec fn open_after(frontier: Seq<GameRecord>, player: char) -> Seq<GameRecord> {
    with_outcome(expand(frontier, player), TicTacToeState::Intermediate)
}

/// The largest number of empty cells on a board of `frontier`.
pub open spec fn max_open(frontier: Seq<GameRecord>) -> int
    decreases frontier.len(),
{
    if frontier.len() == 0 {
        0
    } else {
        let rest = max_open(frontier.drop_last());
        let last = open_count(frontier.last().board);
        if last > rest {
            last
        } else {
            rest
        }
    }
}

/// The walk from `frontier` with `player` to move at the ply numbered
/// `turn`: what this ply yields, followed, if records are still open after
/// it, by the walk from those with the other player to move.
pub open spec fn walk(frontier: Seq<GameRecord>, player: char, turn: int) -> Walk
    decreases max_open(frontier),
    when is_player(player)
    via walk_decreases
{
    let open = open_after(frontier, player);
    if open.len() == 0 {
        ply(frontier, player, turn)
    } else {
        ply(frontier, player, turn).followed_by(walk(open, other_player(player), turn + 1))
    }
}

#[via_fn]
proof fn walk_decreases(frontier: Seq<GameRecord>, player: char, turn: int) {
    lemma_open_after_decreases(frontier, player);
    lemma_max_open(open_after(frontier, player));
}

/// No board of `frontier` has more empty cells than `max_open(frontier)`,
/// and none has fewer than zero.
pub proof fn lemma_max_open(frontier: Seq<GameRecord>)
    ensures
        0 <= max_open(frontier) <= 9,
        forall|i: int|
            0 <= i < frontier.len() ==> open_count(#[trigger] frontier[i].board) <= max_open(
                frontier,
            ),
    decreases frontier.len(),
{
    if frontier.len() > 0 {
        lemma_max_open(frontier.drop_last());
        lemma_open_count_bounds(frontier.last().board);
        assert forall|i: int| 0 <= i < frontier.len() implies open_count(
            #[trigger] frontier[i].board,
        ) <= max_open(frontier) by {
            if i < frontier.len() - 1 {
                assert(frontier[i] == frontier.drop_last()[i]);
            }
        }
    }
}

/// If no board of `frontier` has more than `bound` empty cells, neither has
/// the one with the most.
pub proof fn lemma_max_open_bound(frontier: Seq<GameRecord>, bound: int)
    requires
        0 <= bound,
        forall|i: int|
            0 <= i < frontier.len() ==> open_count(#[trigger] frontier[i].board) <= bound,
    ensures
        max_open(frontier) <= bound,
    decreases frontier.len(),
{
    if frontier.len() > 0 {
        lemma_max_open_bound(frontier.drop_last(), bound);
    }
}

/// `next` follows some record of `frontier` by a move of `player`.
pub open spec fn follows_one_of(frontier: Seq<GameRecord>, player: char, next: GameRecord) -> bool {
    exists|i: int| 0 <= i < frontier.len() && follows(#[trigger] frontier[i], player, next)
}

/// Every record of `expand(frontier, player)` follows some record of `frontier`.
pub proof fn lemma_expand_follows(frontier: Seq<GameRecord>, player: char)
    ensures
        forall|j: int|
            0 <= j < expand(frontier, player).len() ==> follows_one_of(
                frontier,
                player,
                #[trigger] expand(frontier, player)[j],
            ),
    decreases frontier.len(),
{
    let f = |rec: GameRecord| successors(rec, player);
    if frontier.len() > 0 {
        let head = frontier.drop_last();
        let last = frontier.last();
        lemma_expand_follows(head, player);
        lemma_successors_before(last, player, 9);
        assert(frontier.map_values(f) =~= head.map_values(f).push(f(last)));
        head.map_values(f).lemma_flatten_push(f(last));
        let all = expand(frontier, player);
        assert forall|j: int| 0 <= j < all.len() implies follows_one_of(
            frontier,
            player,
            #[trigger] all[j],
        ) by {
            if j < expand(head, player).len() {
                let i = choose|i: int|
                    0 <= i < head.len() && follows(#[trigger] head[i], player, all[j]);
            }
        }
    }
}

/// A ply fills one cell: if records are open after it, each has fewer
/// empty cells than some record before it had.
pub proof fn lemma_open_after_decreases(frontier: Seq<GameRecord>, player: char)
    requires
        is_player(player),
    ensures
        open_after(frontier, player).len() > 0 ==> max_open(open_after(frontier, player))
            < max_open(frontier),
        forall|j: int|
            0 <= j < expand(frontier, player).len() ==> 0 <= open_count(
                #[trigger] expand(frontier, player)[j].board,
            ) < max_open(frontier),
{
    let produced = expand(frontier, player);
    let open = open_after(frontier, player);
    lemma_expand_follows(frontier, player);
    lemma_max_open(frontier);
    assert forall|j: int| 0 <= j < produced.len() implies 0 <= open_count(
        #[trigger] produced[j].board,
    ) < max_open(frontier) by {
        let i = choose|i: int|
            0 <= i < frontier.len() && follows(#[trigger] frontier[i], player, produced[j]);
        let (row, col) = choose|row: int, col: int|
            0 <= row < 3 && 0 <= col < 3 && frontier[i].board[row][col] == ' ' && produced[j]
                == #[trigger] successor(frontier[i], row, col, player);
        lemma_placed_fills_one(frontier[i].board, row, col, player);
    }
    if open.len() > 0 {
        assert forall|k: int| 0 <= k < open.len() implies open_count(#[trigger] open[k].board)
            <= max_open(frontier) - 1 by {
            produced.lemma_filter_contains_rev(
                has_outcome(TicTacToeState::Intermediate),
                open[k],
            );
            let j = choose|j: int| 0 <= j < produced.len() && produced[j] == open[k];
        }
        produced.lemma_filter_contains_rev(has_outcome(TicTacToeState::Intermediate), open[0]);
        lemma_max_open_bound(open, max_open(frontier) - 1);
    }
}

/// All successors of the records of `states` for `player`: those of the
/// first record, then those of the second, and so on.
pub fn expand_states(states: Vec<State>, player: char) -> (next_turns: Vec<State>)
    requires
        all_on_boards(states.deep_view()),
        is_player(player),
    ensures
        next_turns.deep_view() == expand(states.deep_view(), player),
        all_on_boards(next_turns.deep_view()),
{
    let ghost all = states.deep_view();
    let ghost f = |rec: GameRecord| successors(rec, player);
    let mut next_turns: Vec<State> = Vec::new();
    for state in it: states.into_iter()
        invariant
            it.seq() == states@,
            all == states.deep_view(),
            f == |rec: GameRecord| successors(rec, player),
            all_on_boards(states.deep_view()),
            is_player(player),
            all_on_boards(next_turns.deep_view()),
            next_turns.deep_view() == expand(all.take(it.index() as int), player),
    {
        let ghost at = it.index() as int;
        let ghost before = next_turns.deep_view();
        proof {
            assert(all[at] == state@);
            assert(all.take(at + 1).map_values(f) =~= all.take(at).map_values(f).push(f(state@)));
            all.take(at).map_values(f).lemma_flatten_push(f(state@));
        }
        let mut following = generate_next_turns(state, player);
        let ghost added = following.deep_view();
        next_turns.append(&mut following);
        assert(next_turns.deep_view() =~= before + added);
    }
    proof {
        assert(all.take(all.len() as int) =~= all);
    }
    next_turns
}

/// How many records each bucket of `states` holds, under the number of the
/// ply that filled them.
pub fn count_states(turn: u8, states: &Classified) -> (counts: TurnCounts)
    ensures
        counts == (TurnCounts {
            turn,
            intermediate: states.intermediate@.len() as usize,
            draws: states.draws@.len() as usize,
            x_wins: states.x_wins@.len() as usize,
            o_wins: states.o_wins@.len() as usize,
        }),
{
    TurnCounts {
        turn,
        intermediate: states.intermediate.len(),
        draws: states.draws.len(),
        x_wins: states.x_wins.len(),
        o_wins: states.o_wins.len(),
    }
}

/// Walks the game tree from `states` with `player` to move at the ply
/// numbered `turn`, until no record is open. Returns the finished games by
/// outcome, with no record left in the bucket of the open ones, and the
/// counts of each ply.
pub fn play_games(states: Vec<State>, player: char, turn: u8) -> (result: (
    Classified,
    Vec<TurnCounts>,
))
    requires
        all_on_boards(states.deep_view()),
        is_player(player),
        turn <= 246,
    ensures
        result.0.intermediate@.len() == 0,
        result.0.draws.deep_view() == walk(states.deep_view(), player, turn as int).draws,
        result.0.x_wins.deep_view() == walk(states.deep_view(), player, turn as int).x_wins,
        result.0.o_wins.deep_view() == walk(states.deep_view(), player, turn as int).o_wins,
        result.1@ == walk(states.deep_view(), player, turn as int).turns,
        all_on_boards(result.0.draws.deep_view()),
        all_on_boards(result.0.x_wins.deep_view()),
        all_on_boards(result.0.o_wins.deep_view()),
{
    let ghost whole = walk(states.deep_view(), player, turn as int);
    let mut result = Classified {
        intermediate: Vec::new(),
        draws: Vec::new(),
        x_wins: Vec::new(),
        o_wins: Vec::new(),
    };
    let mut turns: Vec<TurnCounts> = Vec::new();
    let mut frontier = states;
    let mut mover = player;
    let mut number = turn;
    proof {
        lemma_max_open(frontier.deep_view());
    }
    loop
        invariant
            all_on_boards(frontier.deep_view()),
            is_player(mover),
            whole == walk(states.deep_view(), player, turn as int),
            number + max_open(frontier.deep_view()) <= 255,
            result.intermediate@.len() == 0,
            all_on_boards(result.draws.deep_view()),
            all_on_boards(result.x_wins.deep_view()),
            all_on_boards(result.o_wins.deep_view()),
            whole.draws == result.draws.deep_view() + walk(
                frontier.deep_view(),
                mover,
                number as int,
            ).draws,
            whole.x_wins == result.x_wins.deep_view() + walk(
                frontier.deep_view(),
                mover,
                number as int,
            ).x_wins,
            whole.o_wins == result.o_wins.deep_view() + walk(
                frontier.deep_view(),
                mover,
                number as int,
            ).o_wins,
            whole.turns == turns@ + walk(frontier.deep_view(), mover, number as int).turns,
        decreases max_open(frontier.deep_view()),
    {
        let ghost before = frontier.deep_view();
        let ghost here = ply(before, mover, number as int);
        let ghost done = result;
        let next_turns = expand_states(frontier, mover);
        let mut classified = classify(next_turns);
        let counts = count_states(number, &classified);
        turns.push(counts);
        result.draws.append(&mut classified.draws);
        result.x_wins.append(&mut classified.x_wins);
        result.o_wins.append(&mut classified.o_wins);
        proof {
            lemma_open_after_decreases(before, mover);
            lemma_max_open(open_after(before, mover));
            assert(result.draws.deep_view() =~= done.draws.deep_view() + here.draws);
            assert(result.x_wins.deep_view() =~= done.x_wins.deep_view() + here.x_wins);
            assert(result.o_wins.deep_view() =~= done.o_wins.deep_view() + here.o_wins);
        }
        if classified.intermediate.is_empty() {
            return (result, turns);
        }
        frontier = classified.intermediate;
        mover = get_next_player(mover);
        number = number + 1;
    }
}

} // verus!
