use vstd::prelude::*;

verus! {

/// `(x, y)` lies on a board of `w` columns and `h` rows.
pub open spec fn in_bounds(w: int, h: int, p: (int, int)) -> bool {
    0 <= p.0 < w && 0 <= p.1 < h
}

/// Every position of a board of `w` columns and `h` rows.
pub open spec fn cells_of(w: int, h: int) -> Set<(int, int)> {
    Set::new(|p: (int, int)| in_bounds(w, h, p))
}

/// Two distinct positions that touch, diagonals included.
pub open spec fn adjacent(a: (int, int), b: (int, int)) -> bool {
    a != b && -1 <= a.0 - b.0 <= 1 && -1 <= a.1 - b.1 <= 1
}

/// The eight neighbour offsets, column offset first.
pub open spec fn dir(k: int) -> (int, int) {
    if k == 0 {
        (-1, -1)
    } else if k == 1 {
        (-1, 0)
    } else if k == 2 {
        (-1, 1)
    } else if k == 3 {
        (0, -1)
    } else if k == 4 {
        (0, 1)
    } else if k == 5 {
        (1, -1)
    } else if k == 6 {
        (1, 0)
    } else {
        (1, 1)
    }
}

/// The position at offset `dir(k)` from `p`.
pub open spec fn step(p: (int, int), k: int) -> (int, int) {
    (p.0 + dir(k).0, p.1 + dir(k).1)
}

/// Each offset leads to an adjacent position, and each adjacent position is reached by one.
pub proof fn lemma_dirs_cover(p: (int, int), q: (int, int))
    ensures
        adjacent(p, q) <==> exists|k: int| 0 <= k < 8 && q == step(p, k),
{
    if adjacent(p, q) {
        let dx = q.0 - p.0;
        let dy = q.1 - p.1;
        let k: int = if dx == -1 {
            dy + 1
        } else if dx == 0 {
            if dy == -1 { 3 } else { 4 }
        } else {
            dy + 6
        };
        assert(q == step(p, k));
    }
    if exists|k: int| 0 <= k < 8 && q == step(p, k) {
        let k = choose|k: int| 0 <= k < 8 && q == step(p, k);
        assert(adjacent(p, q));
    }
}

/// The neighbour of `(x, y)` at offset `dir(k)`, or `None` where it falls off the board.
pub fn neighbor(w: usize, h: usize, x: usize, y: usize, k: usize) -> (r: Option<(usize, usize)>)
    requires
        x < w,
        y < h,
        k < 8,
    ensures
        match r {
            Some(q) => in_bounds(w as int, h as int, step((x as int, y as int), k as int))
                && (q.0 as int, q.1 as int) == step((x as int, y as int), k as int),
            None => !in_bounds(w as int, h as int, step((x as int, y as int), k as int)),
        },
{
    let dx: u8 = if k < 3 {
        0
    } else if k < 5 {
        1
    } else {
        2
    };
    let dy: u8 = if k == 0 || k == 3 || k == 5 {
        0
    } else if k == 1 || k == 6 {
        1
    } else {
        2
    };
    let nx: usize = if dx == 0 {
        if x == 0 {
            return None;
        }
        x - 1
    } else if dx == 1 {
        x
    } else {
        if x + 1 >= w {
            return None;
        }
        x + 1
    };
    let ny: usize = if dy == 0 {
        if y == 0 {
            return None;
        }
        y - 1
    } else if dy == 1 {
        y
    } else {
        if y + 1 >= h {
            return None;
        }
        y + 1
    };
    Some((nx, ny))
}

spec fn row_of(w: int, y: int) -> Set<(int, int)> {
    Set::new(|p: (int, int)| 0 <= p.0 < w && p.1 == y)
}

proof fn lemma_row_len(w: int, y: int)
    requires
        w >= 0,
    ensures
        row_of(w, y).finite(),
        row_of(w, y).len() == w,
    decreases w,
{
    if w == 0 {
        assert(row_of(w, y) =~= Set::empty());
    } else {
        lemma_row_len(w - 1, y);
        assert(row_of(w, y) =~= row_of(w - 1, y).insert((w - 1, y)));
        assert(!row_of(w - 1, y).contains((w - 1, y)));
    }
}

/// A board of `w` columns and `h` rows has `w * h` positions.
pub proof fn lemma_cells_len(w: int, h: int)
    requires
        w >= 0,
        h >= 0,
    ensures
        cells_of(w, h).finite(),
        cells_of(w, h).len() == w * h,
    decreases h,
{
    if h == 0 {
        assert(cells_of(w, h) =~= Set::empty());
    } else {
        lemma_cells_len(w, h - 1);
        lemma_row_len(w, h - 1);
        assert(cells_of(w, h) =~= cells_of(w, h - 1) + row_of(w, h - 1));
        assert(cells_of(w, h - 1).disjoint(row_of(w, h - 1)));
        vstd::set_lib::lemma_set_disjoint_lens(cells_of(w, h - 1), row_of(w, h - 1));
        assert(w * h == w * (h - 1) + w) by (nonlinear_arith);
    }
}

} // verus!
