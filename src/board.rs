use crate::cell::{Cell, CellState, Command, ConfigurationError, GameResult};
use crate::grid::{adjacent, cells_of, in_bounds, lemma_cells_len, lemma_dirs_cover, neighbor, step};
use vstd::prelude::*;
use std::collections::VecDeque;

verus! {

/// The bomb positions of a list, as points.
pub open spec fn as_points(s: Seq<(usize, usize)>) -> Seq<(int, int)> {
    s.map_values(|p: (usize, usize)| (p.0 as int, p.1 as int))
}

/// A Minesweeper board: the cells, their mine counts, the cursor and the
/// number of safe cells still hidden.
pub struct Board {
    x: usize,
    y: usize,
    cursor_x: usize,
    cursor_y: usize,
    left_to_reveal: usize,
    fields: Vec<Vec<Cell>>,
    mine_counter: Vec<Vec<u8>>,
}

impl Board {
    /// Number of columns.
    pub closed spec fn w(&self) -> int {
        self.x as int
    }

    /// Number of rows.
    pub closed spec fn h(&self) -> int {
        self.y as int
    }

    /// The cursor position, column first.
    pub closed spec fn cursor(&self) -> (int, int) {
        (self.cursor_x as int, self.cursor_y as int)
    }

    /// The stored number of safe cells not yet revealed.
    pub closed spec fn remaining(&self) -> int {
        self.left_to_reveal as int
    }

    /// The cell at column `p.0`, row `p.1`.
    pub closed spec fn cell(&self, p: (int, int)) -> Cell {
        self.fields@[p.1]@[p.0]
    }

    /// The stored mine count of the cell at `p`.
    pub closed spec fn count(&self, p: (int, int)) -> int {
        self.mine_counter@[p.1]@[p.0] as int
    }

    /// The cell grid is a `w` by `h` rectangle.
    pub closed spec fn fields_shape(&self) -> bool {
        &&& self.fields@.len() == self.y
        &&& forall|r: int| 0 <= r < self.y ==> (#[trigger] self.fields@[r])@.len() == self.x
    }

    /// Both grids are `w` by `h` rectangles.
    pub closed spec fn shape(&self) -> bool {
        &&& self.fields_shape()
        &&& self.mine_counter@.len() == self.y
        &&& forall|r: int| 0 <= r < self.y ==> (#[trigger] self.mine_counter@[r])@.len() == self.x
    }

    /// 1 where the neighbour of `p` at offset `k` is on the board and holds a bomb, else 0.
    pub open spec fn bomb_toward(&self, p: (int, int), k: int) -> int {
        if in_bounds(self.w(), self.h(), step(p, k)) && self.cell(step(p, k)).has_bomb {
            1
        } else {
            0
        }
    }

    /// The bombs among the neighbours of `p` at the first `k` offsets.
    pub open spec fn bombs_toward(&self, p: (int, int), k: nat) -> int
        decreases k,
    {
        if k == 0 {
            0
        } else {
            self.bombs_toward(p, (k - 1) as nat) + self.bomb_toward(p, k - 1)
        }
    }

    /// The number of bombs among the on-board neighbours of `p`.
    pub open spec fn bombs_around(&self, p: (int, int)) -> int {
        self.bombs_toward(p, 8)
    }

    /// The positions that hold a bomb.
    pub open spec fn bomb_cells(&self) -> Set<(int, int)> {
        Set::new(|p: (int, int)| in_bounds(self.w(), self.h(), p) && self.cell(p).has_bomb)
    }

    /// The safe positions not yet revealed.
    pub open spec fn hidden_safe(&self) -> Set<(int, int)> {
        Set::new(
            |p: (int, int)|
                in_bounds(self.w(), self.h(), p) && !self.cell(p).has_bomb && self.cell(p).state
                    != CellState::Revealed,
        )
    }

    /// The board's invariant: the shape, the cursor on the board, every mine
    /// count exact, and the stored number of hidden safe cells exact.
    pub open spec fn wf(&self) -> bool {
        &&& self.shape()
        &&& self.w() > 0
        &&& self.h() > 0
        &&& in_bounds(self.w(), self.h(), self.cursor())
        &&& forall|p: (int, int)|
            in_bounds(self.w(), self.h(), p) ==> #[trigger] self.count(p) == self.bombs_around(p)
        &&& self.remaining() == self.hidden_safe().len()
    }

    /// The two boards differ at most in the states of their cells.
    pub open spec fn same_layout(&self, other: &Board) -> bool {
        &&& self.w() == other.w()
        &&& self.h() == other.h()
        &&& self.cursor() == other.cursor()
        &&& forall|p: (int, int)|
            in_bounds(self.w(), self.h(), p) ==> (#[trigger] self.cell(p)).has_bomb == other.cell(
                p,
            ).has_bomb && self.count(p) == other.count(p)
    }

    /// `s` is a walk from `start` over hidden cells, each step from a cell
    /// with no bomb around it to a neighbour.
    pub open spec fn is_fill_path(&self, s: Seq<(int, int)>, start: (int, int)) -> bool {
        &&& s.len() > 0
        &&& s[0] == start
        &&& forall|i: int|
            0 <= i < s.len() ==> in_bounds(self.w(), self.h(), #[trigger] s[i]) && self.cell(
                s[i],
            ).state != CellState::Revealed
        &&& forall|i: int|
            0 <= i < s.len() - 1 ==> self.bombs_around(#[trigger] s[i]) == 0 && adjacent(
                s[i],
                s[i + 1],
            )
    }

    /// The cells that a reveal at `start` uncovers: the hidden cells reached
    /// from `start` through hidden cells with no bomb around them.
    pub open spec fn flood_region(&self, start: (int, int)) -> Set<(int, int)> {
        Set::new(|c: (int, int)| exists|s: Seq<(int, int)>| self.is_fill_path(s, start) && s.last() == c)
    }

    /// The hidden safe cells are finite, as the board is.
    pub proof fn lemma_hidden_safe_finite(&self)
        requires
            self.w() >= 0,
            self.h() >= 0,
        ensures
            self.hidden_safe().finite(),
            self.hidden_safe().subset_of(cells_of(self.w(), self.h())),
    {
        lemma_cells_len(self.w(), self.h());
        vstd::set_lib::lemma_len_subset(self.hidden_safe(), cells_of(self.w(), self.h()));
    }

    /// A bomb next to `p` adds one to the bombs around `p`.
    pub proof fn lemma_bombs_toward_ge(&self, p: (int, int), n: nat, k: int)
        requires
            0 <= k < n,
        ensures
            self.bombs_toward(p, n) >= self.bomb_toward(p, k),
            self.bombs_toward(p, n) >= 0,
        decreases n,
    {
        assert(self.bombs_toward(p, 0) == 0);
        assert(self.bombs_toward(p, n) == self.bombs_toward(p, (n - 1) as nat) + self.bomb_toward(p, n - 1));
        if k < n - 1 {
            self.lemma_bombs_toward_ge(p, (n - 1) as nat, k);
        } else if n > 1 {
            self.lemma_bombs_toward_ge(p, (n - 1) as nat, 0);
        }
    }

    /// No neighbour of a cell with no bomb around it holds a bomb.
    pub proof fn lemma_zero_around_safe(&self, p: (int, int), q: (int, int))
        requires
            self.bombs_around(p) == 0,
            in_bounds(self.w(), self.h(), q),
            adjacent(p, q),
        ensures
            !self.cell(q).has_bomb,
    {
        lemma_dirs_cover(p, q);
        let k = choose|k: int| 0 <= k < 8 && q == step(p, k);
        self.lemma_bombs_toward_ge(p, 8, k);
    }

    /// Every cell of the flood region of a safe start is hidden and safe.
    pub proof fn lemma_region_hidden_safe(&self, start: (int, int), c: (int, int))
        requires
            in_bounds(self.w(), self.h(), start),
            !self.cell(start).has_bomb,
            self.flood_region(start).contains(c),
        ensures
            self.hidden_safe().contains(c),
    {
        let s = choose|s: Seq<(int, int)>| self.is_fill_path(s, start) && s.last() == c;
        assert(s[s.len() - 1] == c);
        if s.len() > 1 {
            let i = s.len() - 2;
            assert(s[i + 1] == c);
            self.lemma_zero_around_safe(s[i], c);
        }
    }

    /// The flood region of a safe start lies within the hidden safe cells.
    pub proof fn lemma_region_subset(&self, start: (int, int))
        requires
            in_bounds(self.w(), self.h(), start),
            !self.cell(start).has_bomb,
        ensures
            self.flood_region(start).subset_of(self.hidden_safe()),
    {
        assert forall|c: (int, int)| self.flood_region(start).contains(c) implies self.hidden_safe().contains(c) by {
            self.lemma_region_hidden_safe(start, c);
        }
    }

    /// A hidden neighbour of a region cell with no bomb around it is in the region.
    proof fn lemma_region_extend(&self, start: (int, int), c: (int, int), n: (int, int))
        requires
            self.flood_region(start).contains(c),
            self.bombs_around(c) == 0,
            adjacent(c, n),
            in_bounds(self.w(), self.h(), n),
            self.cell(n).state != CellState::Revealed,
        ensures
            self.flood_region(start).contains(n),
    {
        let s = choose|s: Seq<(int, int)>| self.is_fill_path(s, start) && s.last() == c;
        let t = s.push(n);
        assert forall|i: int| 0 <= i < t.len() implies in_bounds(self.w(), self.h(), #[trigger] t[i])
            && self.cell(t[i]).state != CellState::Revealed by {
            if i < s.len() {
                assert(t[i] == s[i]);
            }
        }
        assert forall|i: int| 0 <= i < t.len() - 1 implies self.bombs_around(#[trigger] t[i]) == 0
            && adjacent(t[i], t[i + 1]) by {
            assert(t[i] == s[i]);
            if i < s.len() - 1 {
                assert(t[i + 1] == s[i + 1]);
            }
        }
        assert(self.is_fill_path(t, start) && t.last() == n);
    }

    /// A board where the start is revealed, and every cell newly revealed with
    /// no bomb around it has all its neighbours revealed, has revealed all of
    /// the walk `s`.
    proof fn lemma_path_revealed(init: Board, b: Board, start: (int, int), s: Seq<(int, int)>, i: int)
        requires
            init.is_fill_path(s, start),
            0 <= i < s.len(),
            b.w() == init.w(),
            b.h() == init.h(),
            b.cell(start).state == CellState::Revealed,
            forall|p: (int, int)|
                in_bounds(init.w(), init.h(), p) && (#[trigger] b.cell(p)).state == CellState::Revealed
                    && init.cell(p).state != CellState::Revealed && init.bombs_around(p) == 0
                    ==> forall|k: int|
                    0 <= k < 8 && in_bounds(init.w(), init.h(), step(p, k)) ==> (#[trigger] b.cell(
                        step(p, k),
                    )).state == CellState::Revealed,
        ensures
            b.cell(s[i]).state == CellState::Revealed,
        decreases i,
    {
        if i > 0 {
            Board::lemma_path_revealed(init, b, start, s, i - 1);
            let prev = s[i - 1];
            assert(adjacent(prev, s[i]));
            lemma_dirs_cover(prev, s[i]);
            let k = choose|k: int| 0 <= k < 8 && s[i] == step(prev, k);
            assert(in_bounds(init.w(), init.h(), prev));
        }
    }

    /// A board of `width` by `height` cells, all unmarked, with bombs at the
    /// listed positions (a position listed twice holds one bomb).
    pub fn with_bombs(width: usize, height: usize, bombs: &Vec<(usize, usize)>) -> (r: Result<
        Board,
        ConfigurationError,
    >)
        requires
            width > 0,
            height > 0,
            width * height <= usize::MAX,
        ensures
            match r {
                Ok(b) => {
                    &&& forall|k: int|
                        0 <= k < bombs@.len() ==> in_bounds(
                            width as int,
                            height as int,
                            #[trigger] as_points(bombs@)[k],
                        )
                    &&& b.wf()
                    &&& b.w() == width
                    &&& b.h() == height
                    &&& b.cursor() == ((width / 2) as int, (height / 2) as int)
                    &&& b.bomb_cells() == as_points(bombs@).to_set()
                    &&& forall|p: (int, int)|
                        in_bounds(width as int, height as int, p) ==> (#[trigger] b.cell(
                            p,
                        )).state == CellState::Unmarked
                    &&& b.remaining() == width * height - b.bomb_cells().len()
                },
                Err(e) => {
                    &&& e == ConfigurationError::BombOutOfBounds
                    &&& exists|k: int|
                        0 <= k < bombs@.len() && !in_bounds(
                            width as int,
                            height as int,
                            #[trigger] as_points(bombs@)[k],
                        )
                },
            },
    {
        let empty = Cell { has_bomb: false, state: CellState::Unmarked };
        let mut fields: Vec<Vec<Cell>> = Vec::new();
        let mut j: usize = 0;
        while j < height
            invariant
                j <= height,
                fields@.len() == j,
                forall|r: int| 0 <= r < j ==> (#[trigger] fields@[r])@.len() == width,
                forall|r: int, c: int| 0 <= r < j && 0 <= c < width ==> #[trigger] fields@[r]@[c] == empty,
            decreases height - j,
        {
            let mut row: Vec<Cell> = Vec::new();
            let mut i: usize = 0;
            while i < width
                invariant
                    i <= width,
                    row@.len() == i,
                    forall|c: int| 0 <= c < i ==> #[trigger] row@[c] == empty,
                decreases width - i,
            {
                row.push(empty);
                i = i + 1;
            }
            fields.push(row);
            j = j + 1;
        }
        let ghost placed: Set<(int, int)> = Set::empty();
        let mut n: usize = 0;
        let mut i: usize = 0;
        while i < bombs.len()
            invariant
                i <= bombs@.len(),
                n <= i,
                fields@.len() == height,
                forall|r: int| 0 <= r < height ==> (#[trigger] fields@[r])@.len() == width,
                forall|r: int, c: int|
                    0 <= r < height && 0 <= c < width ==> (#[trigger] fields@[r]@[c]).state
                        == CellState::Unmarked,
                forall|r: int, c: int|
                    0 <= r < height && 0 <= c < width ==> ((#[trigger] fields@[r]@[c]).has_bomb
                        <==> placed.contains((c, r))),
                placed.finite(),
                placed.len() == n,
                placed.subset_of(cells_of(width as int, height as int)),
                placed == as_points(bombs@.take(i as int)).to_set(),
                forall|k: int|
                    0 <= k < i ==> in_bounds(width as int, height as int, #[trigger] as_points(bombs@)[k]),
            decreases bombs@.len() - i,
        {
            let (bx, by) = bombs[i];
            proof {
                assert(as_points(bombs@)[i as int] == (bx as int, by as int));
            }
            if bx >= width || by >= height {
                return Err(ConfigurationError::BombOutOfBounds);
            }
            proof {
                assert(as_points(bombs@.take(i + 1)) == as_points(bombs@.take(i as int)).push(
                    (bx as int, by as int),
                ));
                as_points(bombs@.take(i as int)).lemma_push_to_set_commute((bx as int, by as int));
            }
            if !fields[by][bx].has_bomb {
                fields[by][bx].has_bomb = true;
                proof {
                    placed = placed.insert((bx as int, by as int));
                }
                n = n + 1;
            }
            i = i + 1;
        }
        proof {
            assert(bombs@.take(bombs@.len() as int) == bombs@);
        }
        let mut board = Board {
            x: width,
            y: height,
            cursor_x: width / 2,
            cursor_y: height / 2,
            left_to_reveal: 0,
            fields,
            mine_counter: Vec::new(),
        };
        assert(board.bomb_cells() =~= placed);
        let ghost pre = board;
        assert(n <= width * height) by {
            lemma_cells_len(width as int, height as int);
            vstd::set_lib::lemma_len_subset(placed, cells_of(width as int, height as int));
        }
        let mut counts: Vec<Vec<u8>> = Vec::new();
        let mut j: usize = 0;
        while j < height
            invariant
                j <= height,
                board.fields_shape(),
                board.w() == width,
                board.h() == height,
                counts@.len() == j,
                forall|r: int| 0 <= r < j ==> (#[trigger] counts@[r])@.len() == width,
                forall|r: int, c: int|
                    0 <= r < j && 0 <= c < width ==> #[trigger] counts@[r]@[c] as int
                        == board.bombs_around((c, r)),
            decreases height - j,
        {
            let mut row: Vec<u8> = Vec::new();
            let mut i: usize = 0;
            while i < width
                invariant
                    i <= width,
                    j < height,
                    board.fields_shape(),
                    board.w() == width,
                    board.h() == height,
                    row@.len() == i,
                    forall|c: int|
                        0 <= c < i ==> #[trigger] row@[c] as int == board.bombs_around((c, j as int)),
                decreases width - i,
            {
                row.push(board.bombs_near(i, j));
                i = i + 1;
            }
            counts.push(row);
            j = j + 1;
        }
        board.mine_counter = counts;
        board.left_to_reveal = width * height - n;
        proof {
            lemma_cells_len(width as int, height as int);
            assert(board.hidden_safe() =~= cells_of(width as int, height as int).difference(placed));
            vstd::set_lib::lemma_set_difference_len(cells_of(width as int, height as int), placed);
            assert(cells_of(width as int, height as int).intersect(placed) =~= placed);
            assert forall|p: (int, int)| in_bounds(width as int, height as int, p) implies #[trigger] board.count(p) == board.bombs_around(p) by {
                Board::lemma_same_bombs_same_counts(pre, board, p, 8);
            }
        }
        assert(board.shape());
        assert(board.hidden_safe().len() == board.remaining());
        assert(board.bomb_cells() == as_points(bombs@).to_set());
        assert(forall|p: (int, int)| in_bounds(width as int, height as int, p) ==> #[trigger] board.count(p) == board.bombs_around(p));
        Ok(board)
    }

    /// Boards with the same dimensions and bombs have the same bomb counts.
    pub proof fn lemma_same_bombs_same_counts(a: Board, b: Board, p: (int, int), k: nat)
        requires
            a.w() == b.w(),
            a.h() == b.h(),
            forall|q: (int, int)|
                in_bounds(a.w(), a.h(), q) ==> (#[trigger] a.cell(q)).has_bomb == b.cell(q).has_bomb,
        ensures
            a.bombs_toward(p, k) == b.bombs_toward(p, k),
        decreases k,
    {
        if k > 0 {
            Board::lemma_same_bombs_same_counts(a, b, p, (k - 1) as nat);
        }
    }

    /// `self` is what revealing `p` on `old` leaves, and `r` what it returns:
    /// a bomb is revealed alone and loses; otherwise the flood region of `p`
    /// is revealed, the count of hidden safe cells drops by its size, and the
    /// game is won exactly when that count reaches zero.
    pub open spec fn revealed_from(&self, prev: &Board, p: (int, int), r: GameResult) -> bool {
        &&& prev.cell(p).has_bomb ==> {
            &&& r == GameResult::Loss
            &&& self.remaining() == prev.remaining()
            &&& forall|q: (int, int)|
                in_bounds(prev.w(), prev.h(), q) ==> (#[trigger] self.cell(q)).state == if q == p {
                    CellState::Revealed
                } else {
                    prev.cell(q).state
                }
        }
        &&& !prev.cell(p).has_bomb ==> {
            &&& forall|q: (int, int)|
                in_bounds(prev.w(), prev.h(), q) ==> (#[trigger] self.cell(q)).state
                    == if prev.flood_region(p).contains(q) {
                    CellState::Revealed
                } else {
                    prev.cell(q).state
                }
            &&& self.remaining() == prev.remaining() - prev.flood_region(p).len()
            &&& r == if self.remaining() == 0 {
                GameResult::Win
            } else {
                GameResult::InProgress
            }
        }
    }

    /// `self` is what flagging the cursor cell of `prev` leaves: an unmarked
    /// cell becomes flagged, nothing else changes.
    pub open spec fn marked_from(&self, prev: &Board) -> bool {
        &&& self.remaining() == prev.remaining()
        &&& forall|q: (int, int)|
            in_bounds(prev.w(), prev.h(), q) ==> (#[trigger] self.cell(q)).state == if q
                == prev.cursor() && prev.cell(q).state == CellState::Unmarked {
                CellState::Flagged
            } else {
                prev.cell(q).state
            }
    }

    /// Where the cursor of `prev` goes on `c`: one step in its direction,
    /// unless that leaves the board; other commands leave it in place.
    pub open spec fn cursor_after(prev: &Board, c: Command) -> (int, int) {
        let (cx, cy) = prev.cursor();
        match c {
            Command::Up => (cx, if cy > 0 { cy - 1 } else { cy }),
            Command::Down => (cx, if cy < prev.h() - 1 { cy + 1 } else { cy }),
            Command::Left => (if cx > 0 { cx - 1 } else { cx }, cy),
            Command::Right => (if cx < prev.w() - 1 { cx + 1 } else { cx }, cy),
            _ => (cx, cy),
        }
    }

    /// All cells and the count of hidden safe cells are as on `prev`.
    pub open spec fn same_cells(&self, prev: &Board) -> bool {
        &&& self.remaining() == prev.remaining()
        &&& forall|q: (int, int)| in_bounds(prev.w(), prev.h(), q) ==> #[trigger] self.cell(q) == prev.cell(q)
    }

    /// Reveals the cell at `(x, y)`. A bomb is revealed alone and loses the
    /// game. Otherwise the flood region of `(x, y)` is revealed, breadth
    /// first from a worklist, and the game is won once no safe cell is hidden.
    pub fn reveal_cell(&mut self, x: usize, y: usize) -> (r: GameResult)
        requires
            old(self).wf(),
            x < old(self).w(),
            y < old(self).h(),
        ensures
            final(self).wf(),
            final(self).same_layout(old(self)),
            final(self).revealed_from(old(self), (x as int, y as int), r),
    {
        let ghost init = *self;
        let ghost start = (x as int, y as int);
        proof {
            init.lemma_hidden_safe_finite();
        }
        if self.fields[y][x].has_bomb {
            self.fields[y][x].state = CellState::Revealed;
            proof {
                assert(self.hidden_safe() =~= init.hidden_safe());
                assert forall|p: (int, int)| in_bounds(self.w(), self.h(), p) implies #[trigger] self.count(p) == self.bombs_around(p) by {
                    assert(self.count(p) == init.count(p));
                    Board::lemma_same_bombs_same_counts(init, *self, p, 8);
                }
            }
            return GameResult::Loss;
        }
        let ghost region = init.flood_region(start);
        proof {
            init.lemma_region_subset(start);
            if init.cell(start).state != CellState::Revealed {
                let s = seq![start];
                assert(init.is_fill_path(s, start) && s.last() == start);
            }
        }
        let mut queue: VecDeque<(usize, usize)> = VecDeque::new();
        queue.push_back((x, y));
        proof {
            lemma_queued_push(Seq::empty(), (x, y));
            assert(Seq::<(usize, usize)>::empty().push((x, y)) == queue@);
        }
        while queue.len() > 0
            invariant
                init.wf(),
                x < init.w(),
                y < init.h(),
                start == (x as int, y as int),
                region == init.flood_region(start),
                region.subset_of(init.hidden_safe()),
                init.hidden_safe().finite(),
                !init.cell(start).has_bomb,
                self.fields_shape(),
                self.x == init.x,
                self.y == init.y,
                self.cursor_x == init.cursor_x,
                self.cursor_y == init.cursor_y,
                self.mine_counter == init.mine_counter,
                forall|p: (int, int)|
                    in_bounds(init.w(), init.h(), p) ==> (#[trigger] self.cell(p)).has_bomb
                        == init.cell(p).has_bomb,
                forall|p: (int, int)|
                    in_bounds(init.w(), init.h(), p) ==> (#[trigger] self.cell(p)).state
                        == init.cell(p).state || (self.cell(p).state == CellState::Revealed
                        && region.contains(p)),
                self.hidden_safe().finite(),
                self.remaining() == self.hidden_safe().len(),
                forall|i: int|
                    0 <= i < queue@.len() ==> in_bounds(
                        init.w(),
                        init.h(),
                        ((#[trigger] queue@[i]).0 as int, queue@[i].1 as int),
                    ) && (init.cell((queue@[i].0 as int, queue@[i].1 as int)).state
                        == CellState::Revealed || region.contains(
                        (queue@[i].0 as int, queue@[i].1 as int),
                    )),
                self.cell(start).state == CellState::Revealed || queued(queue@, start),
                forall|p: (int, int)|
                    in_bounds(init.w(), init.h(), p) && (#[trigger] self.cell(p)).state
                        == CellState::Revealed && init.cell(p).state != CellState::Revealed
                        && init.bombs_around(p) == 0 ==> forall|k: int|
                        0 <= k < 8 && in_bounds(init.w(), init.h(), step(p, k)) ==> (
                        #[trigger] self.cell(step(p, k))).state == CellState::Revealed || queued(
                            queue@,
                            step(p, k),
                        ),
            decreases self.left_to_reveal, queue@.len(),
        {
            let ghost q0 = queue@;
            let ghost before = *self;
            let (cx, cy) = match queue.pop_front() {
                Some(c) => c,
                None => (x, y),  // ruled out by the loop condition
            };
            let ghost cur = (cx as int, cy as int);
            proof {
                lemma_queued_pop(q0);
                assert(q0[0] == (cx, cy));
                assert(queue@ == q0.subrange(1, q0.len() as int));
            }
            if self.fields[cy][cx].state != CellState::Revealed {
                proof {
                    assert(before.cell(cur).state != CellState::Revealed);
                    assert(init.cell(cur).state != CellState::Revealed);
                    assert(region.contains(cur));
                    assert(before.hidden_safe().contains(cur));
                }
                self.fields[cy][cx].state = CellState::Revealed;
                proof {
                    assert forall|p: (int, int)| in_bounds(init.w(), init.h(), p) && p != cur implies #[trigger] self.cell(p) == before.cell(p) by {
                        if p.1 == cur.1 {
                            assert(self.fields@[p.1]@[p.0] == before.fields@[p.1]@[p.0]);
                        }
                    }
                    assert(self.cell(cur).has_bomb == before.cell(cur).has_bomb);
                }
                self.left_to_reveal = self.left_to_reveal - 1;
                proof {
                    assert(self.hidden_safe() =~= before.hidden_safe().remove(cur));
                    assert forall|p: (int, int)| in_bounds(init.w(), init.h(), p) implies (#[trigger] self.cell(p)).state
                        == init.cell(p).state || (self.cell(p).state == CellState::Revealed
                        && region.contains(p)) by {
                        if p != cur {
                            assert(self.cell(p) == before.cell(p));
                        }
                    }
                }
                if self.mine_counter[cy][cx] == 0 {
                    assert(init.count(cur) == 0);
                    let ghost mid = *self;
                    let mut k: usize = 0;
                    while k < 8
                        invariant
                            k <= 8,
                            cx < init.w(),
                            cy < init.h(),
                            cur == (cx as int, cy as int),
                            init.wf(),
                            init.bombs_around(cur) == 0,
                            region == init.flood_region(start),
                            region.contains(cur),
                            *self == mid,
                            self.x == init.x,
                            self.y == init.y,
                            forall|p: (int, int)|
                                in_bounds(init.w(), init.h(), p) ==> (#[trigger] self.cell(p)).state
                                    == init.cell(p).state || (self.cell(p).state == CellState::Revealed
                                    && region.contains(p)),
                            forall|i: int|
                                0 <= i < queue@.len() ==> in_bounds(
                                    init.w(),
                                    init.h(),
                                    ((#[trigger] queue@[i]).0 as int, queue@[i].1 as int),
                                ) && (init.cell((queue@[i].0 as int, queue@[i].1 as int)).state
                                    == CellState::Revealed || region.contains(
                                    (queue@[i].0 as int, queue@[i].1 as int),
                                )),
                            forall|j: int|
                                0 <= j < k && in_bounds(init.w(), init.h(), step(cur, j))
                                    ==> #[trigger] queued(queue@, step(cur, j)),
                            forall|p: (int, int)| queued(q0, p) && p != cur ==> #[trigger] queued(queue@, p),
                        decreases 8 - k,
                    {
                        match neighbor(self.x, self.y, cx, cy, k) {
                            Some((nx, ny)) => {
                                let ghost qb = queue@;
                                let ghost np = (nx as int, ny as int);
                                proof {
                                    assert(adjacent(cur, np));
                                    if init.cell(np).state != CellState::Revealed {
                                        init.lemma_region_extend(start, cur, np);
                                    }
                                }
                                queue.push_back((nx, ny));
                                proof {
                                    lemma_queued_push(qb, (nx, ny));
                                    assert(queue@[queue@.len() - 1] == (nx, ny));
                                }
                            },
                            None => {},
                        }
                        k = k + 1;
                    }
                }
            }
            proof {
                assert forall|p: (int, int)| queued(q0, p) && p != cur implies #[trigger] queued(queue@, p) by {}
                assert forall|p: (int, int)| in_bounds(init.w(), init.h(), p) && p != cur implies #[trigger] self.cell(p) == before.cell(p) by {}
                assert(self.cell(cur).state == CellState::Revealed);
                assert forall|p: (int, int), k: int|
                    in_bounds(init.w(), init.h(), p) && (#[trigger] self.cell(p)).state
                        == CellState::Revealed && init.cell(p).state != CellState::Revealed
                        && init.bombs_around(p) == 0 && 0 <= k < 8 && in_bounds(init.w(), init.h(), step(p, k))
                        implies (#[trigger] self.cell(step(p, k))).state == CellState::Revealed || queued(queue@, step(p, k)) by {
                    let n = step(p, k);
                    if p != cur {
                        assert(before.cell(p) == self.cell(p));
                        if n != cur {
                            assert(before.cell(n) == self.cell(n));
                        }
                    } else if before.cell(cur).state != CellState::Revealed {
                        assert(init.count(cur) == init.bombs_around(cur));
                    }
                }
            }
        }
        proof {
            assert forall|p: (int, int)| in_bounds(self.w(), self.h(), p) implies #[trigger] self.count(p) == self.bombs_around(p) by {
                assert(self.count(p) == init.count(p));
                Board::lemma_same_bombs_same_counts(init, *self, p, 8);
            }
            assert forall|p: (int, int)| in_bounds(init.w(), init.h(), p) implies (#[trigger] self.cell(p)).state
                == if region.contains(p) { CellState::Revealed } else { init.cell(p).state } by {
                if region.contains(p) {
                    let s = choose|s: Seq<(int, int)>| init.is_fill_path(s, start) && s.last() == p;
                    Board::lemma_path_revealed(init, *self, start, s, s.len() - 1);
                }
            }
            assert(self.hidden_safe() =~= init.hidden_safe().difference(region));
            vstd::set_lib::lemma_set_difference_len(init.hidden_safe(), region);
            assert(init.hidden_safe().intersect(region) =~= region);
        }
        if self.left_to_reveal == 0 {
            GameResult::Win
        } else {
            GameResult::InProgress
        }
    }

    /// A board of `width` by `height` cells, all unmarked, with `bombs` bombs
    /// on distinct cells drawn at random and the cursor at the centre. Fails
    /// when there are more bombs than cells.
    pub fn new(width: usize, height: usize, bombs: u32) -> (r: Result<Board, ConfigurationError>)
        requires
            width > 0,
            height > 0,
            width * height <= usize::MAX,
        ensures
            match r {
                Ok(b) => {
                    &&& bombs <= width * height
                    &&& b.wf()
                    &&& b.w() == width
                    &&& b.h() == height
                    &&& b.cursor() == ((width / 2) as int, (height / 2) as int)
                    &&& b.bomb_cells().len() == bombs
                    &&& forall|p: (int, int)|
                        in_bounds(width as int, height as int, p) ==> (#[trigger] b.cell(
                            p,
                        )).state == CellState::Unmarked
                    &&& b.remaining() == width * height - bombs
                },
                Err(e) => e == ConfigurationError::TooManyBombs && bombs > width * height,
            },
    {
        if bombs as usize > width * height {
            return Err(ConfigurationError::TooManyBombs);
        }
        let positions = crate::random::choose_bomb_cells(width, height, bombs as usize);
        proof {
            let pts = as_points(positions@);
            assert forall|i: int, j: int| 0 <= i < pts.len() && 0 <= j < pts.len() && i != j implies pts[i]
                != pts[j] by {
                assert(positions@[i] != positions@[j]);
            }
            assert(pts.no_duplicates());
            pts.unique_seq_to_set();
            assert forall|k: int| 0 <= k < pts.len() implies in_bounds(width as int, height as int, #[trigger] pts[k]) by {
                assert(positions@[k].0 < width);
            }
        }
        Board::with_bombs(width, height, &positions)
    }

    /// Flags the cell under the cursor if it is unmarked; a flagged or
    /// revealed cell is left as it is.
    pub fn mark(&mut self)
        requires
            old(self).wf(),
        ensures
            final(self).wf(),
            final(self).same_layout(old(self)),
            final(self).marked_from(old(self)),
    {
        let ghost prev = *self;
        let (x, y) = (self.cursor_x, self.cursor_y);
        if self.fields[y][x].state == CellState::Unmarked {
            self.fields[y][x].state = CellState::Flagged;
            proof {
                let cur = prev.cursor();
                assert forall|p: (int, int)| in_bounds(prev.w(), prev.h(), p) && p != cur implies #[trigger] self.cell(p) == prev.cell(p) by {
                    if p.1 == cur.1 {
                        assert(self.fields@[p.1]@[p.0] == prev.fields@[p.1]@[p.0]);
                    }
                }
                assert(self.hidden_safe() =~= prev.hidden_safe());
                assert forall|p: (int, int)| in_bounds(self.w(), self.h(), p) implies #[trigger] self.count(p) == self.bombs_around(p) by {
                    assert(self.count(p) == prev.count(p));
                    Board::lemma_same_bombs_same_counts(prev, *self, p, 8);
                }
            }
        }
    }

    /// Moves the cursor one step for a movement command, staying on the
    /// board; any other command leaves it in place.
    pub fn move_cursor(&mut self, command: Command)
        requires
            old(self).wf(),
        ensures
            final(self).wf(),
            final(self).w() == old(self).w(),
            final(self).h() == old(self).h(),
            final(self).cursor() == Board::cursor_after(old(self), command),
            final(self).same_cells(old(self)),
            forall|p: (int, int)|
                in_bounds(old(self).w(), old(self).h(), p) ==> #[trigger] final(self).count(p) == old(self).count(p),
    {
        let ghost prev = *self;
        match command {
            Command::Up => {
                if self.cursor_y > 0 {
                    self.cursor_y = self.cursor_y - 1;
                }
            },
            Command::Down => {
                if self.cursor_y < self.y - 1 {
                    self.cursor_y = self.cursor_y + 1;
                }
            },
            Command::Left => {
                if self.cursor_x > 0 {
                    self.cursor_x = self.cursor_x - 1;
                }
            },
            Command::Right => {
                if self.cursor_x < self.x - 1 {
                    self.cursor_x = self.cursor_x + 1;
                }
            },
            _ => {},
        }
        proof {
            assert(self.hidden_safe() =~= prev.hidden_safe());
            assert forall|p: (int, int)| in_bounds(self.w(), self.h(), p) implies #[trigger] self.count(p) == self.bombs_around(p) by {
                assert(self.count(p) == prev.count(p));
                Board::lemma_same_bombs_same_counts(prev, *self, p, 8);
            }
        }
    }

    /// Carries out one command: a move steps the cursor, `Reveal` reveals the
    /// cell under it, `Flag` flags it; anything else changes nothing. Only a
    /// reveal can end the game.
    pub fn update(&mut self, command: Command) -> (r: GameResult)
        requires
            old(self).wf(),
        ensures
            final(self).wf(),
            final(self).w() == old(self).w(),
            final(self).h() == old(self).h(),
            match command {
                Command::Reveal => final(self).same_layout(old(self)) && final(self).revealed_from(
                    old(self),
                    old(self).cursor(),
                    r,
                ),
                Command::Flag => final(self).same_layout(old(self)) && final(self).marked_from(
                    old(self),
                ) && r == GameResult::InProgress,
                _ => final(self).cursor() == Board::cursor_after(old(self), command)
                    && final(self).same_cells(old(self)) && r == GameResult::InProgress,
            },
    {
        match command {
            Command::Reveal => {
                let (x, y) = (self.cursor_x, self.cursor_y);
                self.reveal_cell(x, y)
            },
            Command::Flag => {
                self.mark();
                GameResult::InProgress
            },
            _ => {
                self.move_cursor(command);
                GameResult::InProgress
            },
        }
    }

    /// The character that shows the cell at `(x, y)`: `.` unmarked, `?`
    /// flagged, `X` a revealed bomb, else the digit of its mine count.
    pub fn glyph(&self, x: usize, y: usize) -> (r: char)
        requires
            self.wf(),
            x < self.w(),
            y < self.h(),
        ensures
            r == Board::glyph_of(self.cell((x as int, y as int)), self.bombs_around((x as int, y as int))),
    {
        let cell = self.fields[y][x];
        match cell.state {
            CellState::Unmarked => '.',
            CellState::Flagged => '?',
            CellState::Revealed => {
                if cell.has_bomb {
                    'X'
                } else {
                    proof {
                        assert(self.count((x as int, y as int)) == self.bombs_around((x as int, y as int)));
                        self.lemma_bombs_toward_le(((x as int, y as int)), 8);
                    }
                    ((self.mine_counter[y][x] + 48u8) as char)
                }
            },
        }
    }

    /// The character for a cell with `n` bombs around it.
    pub open spec fn glyph_of(c: Cell, n: int) -> char {
        match c.state {
            CellState::Unmarked => '.',
            CellState::Flagged => '?',
            CellState::Revealed => if c.has_bomb {
                'X'
            } else {
                ((n + 48) as u8) as char
            },
        }
    }

    /// At most `n` of the first `n` neighbours hold a bomb.
    pub proof fn lemma_bombs_toward_le(&self, p: (int, int), n: nat)
        ensures
            self.bombs_toward(p, n) <= n,
        decreases n,
    {
        if n > 0 {
            self.lemma_bombs_toward_le(p, (n - 1) as nat);
        }
    }

    /// Number of columns.
    pub fn width(&self) -> (r: usize)
        ensures
            r == self.w(),
    {
        self.x
    }

    /// Number of rows.
    pub fn height(&self) -> (r: usize)
        ensures
            r == self.h(),
    {
        self.y
    }

    /// The cursor's column.
    pub fn cursor_x(&self) -> (r: usize)
        ensures
            r == self.cursor().0,
    {
        self.cursor_x
    }

    /// The cursor's row.
    pub fn cursor_y(&self) -> (r: usize)
        ensures
            r == self.cursor().1,
    {
        self.cursor_y
    }

    /// The number of safe cells not yet revealed.
    pub fn left_to_reveal(&self) -> (r: usize)
        requires
            self.wf(),
        ensures
            r == self.remaining(),
            r == self.hidden_safe().len(),
    {
        self.left_to_reveal
    }

    /// The cell at `(x, y)`.
    pub fn cell_at(&self, x: usize, y: usize) -> (r: Cell)
        requires
            self.wf(),
            x < self.w(),
            y < self.h(),
        ensures
            r == self.cell((x as int, y as int)),
    {
        self.fields[y][x]
    }

    /// The number of bombs around `(x, y)`.
    pub fn mine_count(&self, x: usize, y: usize) -> (r: u8)
        requires
            self.wf(),
            x < self.w(),
            y < self.h(),
        ensures
            r as int == self.bombs_around((x as int, y as int)),
    {
        assert(self.count((x as int, y as int)) == self.bombs_around((x as int, y as int)));
        self.mine_counter[y][x]
    }

    /// Counts the bombs among the on-board neighbours of `(x, y)`.
    fn bombs_near(&self, x: usize, y: usize) -> (r: u8)
        requires
            self.fields_shape(),
            x < self.w(),
            y < self.h(),
        ensures
            r as int == self.bombs_around((x as int, y as int)),
    {
        let mut c: u8 = 0;
        let mut k: usize = 0;
        while k < 8
            invariant
                k <= 8,
                x < self.w(),
                y < self.h(),
                self.fields_shape(),
                c as int == self.bombs_toward((x as int, y as int), k as nat),
                c <= k,
            decreases 8 - k,
        {
            match neighbor(self.x, self.y, x, y, k) {
                Some((nx, ny)) => {
                    if self.fields[ny][nx].has_bomb {
                        c = c + 1;
                    }
                },
                None => {},
            }
            k = k + 1;
        }
        c
    }
}


/// `p` is one of the positions waiting in the worklist `q`.
pub open spec fn queued(q: Seq<(usize, usize)>, p: (int, int)) -> bool {
    exists|i: int| 0 <= i < q.len() && q[i].0 as int == p.0 && q[i].1 as int == p.1
}

proof fn lemma_queued_push(q: Seq<(usize, usize)>, v: (usize, usize))
    ensures
        queued(q.push(v), (v.0 as int, v.1 as int)),
        forall|p: (int, int)| queued(q, p) ==> #[trigger] queued(q.push(v), p),
{
    assert(q.push(v)[q.len() as int] == v);
    assert forall|p: (int, int)| queued(q, p) implies #[trigger] queued(q.push(v), p) by {
        let i = choose|i: int| 0 <= i < q.len() && q[i].0 as int == p.0 && q[i].1 as int == p.1;
        assert(q.push(v)[i] == q[i]);
    }
}

proof fn lemma_queued_pop(q: Seq<(usize, usize)>)
    requires
        q.len() > 0,
    ensures
        forall|p: (int, int)|
            queued(q, p) && p != (q[0].0 as int, q[0].1 as int) ==> #[trigger] queued(
                q.subrange(1, q.len() as int),
                p,
            ),
{
    assert forall|p: (int, int)| queued(q, p) && p != (q[0].0 as int, q[0].1 as int) implies #[trigger] queued(
        q.subrange(1, q.len() as int),
        p,
    ) by {
        let i = choose|i: int| 0 <= i < q.len() && q[i].0 as int == p.0 && q[i].1 as int == p.1;
        assert(q.subrange(1, q.len() as int)[i - 1] == q[i]);
    }
}

} // verus!
