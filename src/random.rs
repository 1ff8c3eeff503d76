use rand::Rng;
use vstd::prelude::*;

verus! {

/// Relies on `rand::thread_rng` and `rand::Rng::gen_range`: the value lies in
/// `[0, n)`; `gen_range` panics only on an empty range, which `n > 0` rules out.
#[verifier::external_body]
fn random_below(n: usize) -> (r: usize)
    requires
        n > 0,
    ensures
        r < n,
{
    rand::thread_rng().gen_range(0..n)
}

/// Picks `bombs` distinct positions of a `width` by `height` board at random:
/// each pick is drawn from the positions not picked yet.
pub fn choose_bomb_cells(width: usize, height: usize, bombs: usize) -> (r: Vec<(usize, usize)>)
    requires
        width * height <= usize::MAX,
        bombs <= width * height,
    ensures
        r@.len() == bombs,
        r@.no_duplicates(),
        forall|k: int| 0 <= k < r@.len() ==> (#[trigger] r@[k]).0 < width && r@[k].1 < height,
{
    let mut pool: Vec<(usize, usize)> = Vec::new();
    let mut j: usize = 0;
    while j < height
        invariant
            j <= height,
            pool@.len() == j * width,
            pool@.no_duplicates(),
            forall|k: int| 0 <= k < pool@.len() ==> (#[trigger] pool@[k]).0 < width && pool@[k].1 < j,
        decreases height - j,
    {
        let mut i: usize = 0;
        while i < width
            invariant
                i <= width,
                j < height,
                pool@.len() == j * width + i,
                pool@.no_duplicates(),
                forall|k: int|
                    0 <= k < pool@.len() ==> (#[trigger] pool@[k]).0 < width && (pool@[k].1 < j || (
                    pool@[k].1 == j && pool@[k].0 < i)),
            decreases width - i,
        {
            pool.push((i, j));
            i = i + 1;
        }
        assert((j + 1) * width == j * width + width) by (nonlinear_arith);
        j = j + 1;
    }
    assert(height * width == width * height) by (nonlinear_arith);
    let mut chosen: Vec<(usize, usize)> = Vec::new();
    let mut t: usize = 0;
    while t < bombs
        invariant
            t <= bombs,
            bombs <= width * height,
            chosen@.len() == t,
            pool@.len() + chosen@.len() == width * height,
            pool@.no_duplicates(),
            chosen@.no_duplicates(),
            forall|a: int, b: int|
                0 <= a < pool@.len() && 0 <= b < chosen@.len() ==> pool@[a] != chosen@[b],
            forall|k: int| 0 <= k < pool@.len() ==> (#[trigger] pool@[k]).0 < width && pool@[k].1 < height,
            forall|k: int| 0 <= k < chosen@.len() ==> (#[trigger] chosen@[k]).0 < width && chosen@[k].1 < height,
        decreases bombs - t,
    {
        let k = random_below(pool.len());
        let ghost before = pool@;
        let p = pool.remove(k);
        proof {
            assert forall|a: int| 0 <= a < pool@.len() implies #[trigger] pool@[a] == (if a < k {
                before[a]
            } else {
                before[a + 1]
            }) by {}
        }
        chosen.push(p);
        t = t + 1;
    }
    chosen
}

} // verus!
