//! A Minesweeper board: bomb placement, mine counts, cursor movement,
//! flagging and the flood-fill reveal, each with a verified contract.
mod board;
mod cell;
mod grid;
mod laws;
mod random;

pub use board::{as_points, queued, Board};
pub use cell::{Cell, CellState, Command, ConfigurationError, GameResult};
pub use grid::{adjacent, cells_of, dir, in_bounds, lemma_cells_len, lemma_dirs_cover, neighbor, step};
pub use laws::{
    law_cursor_stays_on_board, law_fill_counts_each_cell_once, law_last_safe_cell_wins,
    law_reveal_numbered_cell, law_reveal_revealed_is_noop,
};
pub use random::choose_bomb_cells;
