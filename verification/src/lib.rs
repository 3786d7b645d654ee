//! Exhaustive enumeration of the games of tic-tac-toe, their outcomes, and
//! their classes under the symmetries of the square.

pub mod board;
pub mod encode;
pub mod exhaustive;
pub mod games;
pub mod hash_laws;
pub mod order;
pub mod outcome;
pub mod pipeline;
pub mod rearranged;
pub mod reduce;
pub mod reduce_laws;
pub mod sort;
pub mod symmetry;
pub mod symmetry_laws;
pub mod turns;
pub mod walk;
pub mod walk_laws;

pub use board::{apply_mark, get_hash, get_ord, is_valid_board, set_cell, Board};
pub use encode::{
    checked_collapse_game, collapse_class, collapse_classes, collapse_game, GameData,
};
pub use order::path_in_order;
pub use outcome::{check_win_for, get_end_state, State, TicTacToeState};
pub use pipeline::{
    empty_board, enumerate_games, export_games, initial_state, Enumeration, Totals,
};
pub use reduce::reduce_states;
pub use sort::{merge_runs, sort_range};
pub use symmetry::{
    get_smallest_hash, reflect_board, reflect_board_backward_diag, reflect_board_forward_diag,
    reflect_board_x, reflect_board_y, rotate_board,
};
pub use turns::{generate_next_turns, get_next_player, get_ord_from_coords};
pub use walk::{classify, count_states, expand_states, play_games, Classified, TurnCounts};
