use crate::board::Board;
use crate::cell::{CellState, Command, GameResult};
use crate::grid::in_bounds;
use vstd::prelude::*;

verus! {

/// Revealing a cell that is already revealed changes no cell and leaves the
/// count of hidden safe cells as it was.
pub proof fn law_reveal_revealed_is_noop(prev: Board, next: Board, p: (int, int), r: GameResult)
    requires
        prev.wf(),
        in_bounds(prev.w(), prev.h(), p),
        prev.cell(p).state == CellState::Revealed,
        next.revealed_from(&prev, p, r),
    ensures
        next.remaining() == prev.remaining(),
        forall|q: (int, int)|
            in_bounds(prev.w(), prev.h(), q) ==> (#[trigger] next.cell(q)).state == prev.cell(q).state,
{
    assert(prev.flood_region(p) =~= Set::empty()) by {
        assert forall|c: (int, int)| !prev.flood_region(p).contains(c) by {
            if prev.flood_region(p).contains(c) {
                let s = choose|s: Seq<(int, int)>| prev.is_fill_path(s, p) && s.last() == c;
                assert(s[0] == p);
            }
        }
    }
}

/// Revealing a hidden safe cell with a bomb around it reveals that cell alone
/// and lowers the count of hidden safe cells by exactly one.
pub proof fn law_reveal_numbered_cell(prev: Board, next: Board, p: (int, int), r: GameResult)
    requires
        prev.wf(),
        prev.hidden_safe().contains(p),
        prev.bombs_around(p) > 0,
        next.revealed_from(&prev, p, r),
    ensures
        next.remaining() == prev.remaining() - 1,
        next.cell(p).state == CellState::Revealed,
        forall|q: (int, int)|
            in_bounds(prev.w(), prev.h(), q) && q != p ==> (#[trigger] next.cell(q)).state
                == prev.cell(q).state,
{
    assert(prev.flood_region(p) =~= set![p]) by {
        let s = seq![p];
        assert(prev.is_fill_path(s, p) && s.last() == p);
        assert forall|c: (int, int)| prev.flood_region(p).contains(c) implies c == p by {
            let t = choose|t: Seq<(int, int)>| prev.is_fill_path(t, p) && t.last() == c;
            if t.len() > 1 {
                assert(t[0] == p);
                assert(prev.bombs_around(t[0]) == 0);
            }
        }
    }
    assert(set![p].len() == 1);
}

/// Revealing the last hidden safe cell wins the game.
pub proof fn law_last_safe_cell_wins(prev: Board, next: Board, p: (int, int), r: GameResult)
    requires
        prev.wf(),
        prev.remaining() == 1,
        prev.hidden_safe().contains(p),
        next.revealed_from(&prev, p, r),
    ensures
        r == GameResult::Win,
        next.remaining() == 0,
{
    prev.lemma_hidden_safe_finite();
    prev.lemma_region_subset(p);
    let s = seq![p];
    assert(prev.is_fill_path(s, p) && s.last() == p);
    assert(prev.flood_region(p).contains(p));
    vstd::set_lib::lemma_len_subset(prev.flood_region(p), prev.hidden_safe());
    if prev.flood_region(p).len() == 0 {
        prev.flood_region(p).lemma_len0_is_empty();
    }
}

/// However often the cursor is moved, it stays on the board.
pub proof fn law_cursor_stays_on_board(b: Board, c: Command)
    requires
        b.wf(),
    ensures
        in_bounds(b.w(), b.h(), Board::cursor_after(&b, c)),
{
}

/// A reveal of a safe cell lowers the count of hidden safe cells by exactly
/// the number of cells it turned to revealed: no cell is counted twice.
pub proof fn law_fill_counts_each_cell_once(prev: Board, next: Board, p: (int, int), r: GameResult)
    requires
        prev.wf(),
        in_bounds(prev.w(), prev.h(), p),
        !prev.cell(p).has_bomb,
        next.revealed_from(&prev, p, r),
    ensures
        next.remaining() == prev.remaining() - Set::new(
            |q: (int, int)|
                in_bounds(prev.w(), prev.h(), q) && next.cell(q).state == CellState::Revealed
                    && prev.cell(q).state != CellState::Revealed,
        ).len(),
{
    prev.lemma_region_subset(p);
    let newly = Set::new(
        |q: (int, int)|
            in_bounds(prev.w(), prev.h(), q) && next.cell(q).state == CellState::Revealed
                && prev.cell(q).state != CellState::Revealed,
    );
    assert forall|q: (int, int)| newly.contains(q) <==> prev.flood_region(p).contains(q) by {
        if prev.flood_region(p).contains(q) {
            assert(prev.hidden_safe().contains(q));
        }
        if newly.contains(q) {
            assert(next.cell(q).state == CellState::Revealed);
        }
    }
    assert(newly =~= prev.flood_region(p));
}

} // verus!
