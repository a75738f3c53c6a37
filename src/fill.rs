use crate::grid::{
    agrees, is_cell, is_completion, is_solution, locally_valid, no_completion, peers, several_completions,
    well_formed,
    are_peers, Grid, CELLS,
};
use crate::random::shuffle;
use rand::rngs::StdRng;
use vstd::prelude::*;

verus! {

/// Digit `d` may go in cell `p` of `g`: no peer of `p` already holds it.
pub open spec fn fits(g: Seq<u8>, p: int, d: int) -> bool {
    forall|q: int| is_cell(q) && peers(p, q) ==> g[q] != d
}

/// The grid whose cell in row `r`, column `c` holds `(3r + r/3 + c) mod 9 + 1`.
pub open spec fn shifted_rows() -> Seq<u8> {
    Seq::new(81, |p: int| ((3 * (p / 9) + (p / 9) / 3 + p % 9) % 9 + 1) as u8)
}

proof fn lemma_shifted_distinct(r1: int, c1: int, r2: int, c2: int)
    requires
        0 <= r1 < 9,
        0 <= c1 < 9,
        0 <= r2 < 9,
        0 <= c2 < 9,
        r1 != r2 || c1 != c2,
        r1 == r2 || c1 == c2 || (r1 / 3 == r2 / 3 && c1 / 3 == c2 / 3),
    ensures
        (3 * r1 + r1 / 3 + c1) % 9 != (3 * r2 + r2 / 3 + c2) % 9,
{
}

/// Some full grid exists, so a search from the empty grid cannot fail.
pub proof fn lemma_solution_exists()
    ensures
        is_solution(shifted_rows()),
{
    let g = shifted_rows();
    assert forall|p: int, q: int|
        is_cell(p) && is_cell(q) && peers(p, q) && #[trigger] g[p] != 0 implies g[p]
        != #[trigger] g[q] by {
        lemma_shifted_distinct(p / 9, p % 9, q / 9, q % 9);
    }
}

/// `shifted_rows` with every digit raised by one, 9 wrapping to 1.
pub open spec fn shifted_rows_relabelled() -> Seq<u8> {
    Seq::new(81, |p: int| ((3 * (p / 9) + (p / 9) / 3 + p % 9 + 1) % 9 + 1) as u8)
}

proof fn lemma_relabelled_distinct(r1: int, c1: int, r2: int, c2: int)
    requires
        0 <= r1 < 9,
        0 <= c1 < 9,
        0 <= r2 < 9,
        0 <= c2 < 9,
        r1 != r2 || c1 != c2,
        r1 == r2 || c1 == c2 || (r1 / 3 == r2 / 3 && c1 / 3 == c2 / 3),
    ensures
        (3 * r1 + r1 / 3 + c1 + 1) % 9 != (3 * r2 + r2 / 3 + c2 + 1) % 9,
{
}

/// The empty grid has two different completions, so no oracle may call it
/// uniquely solvable.
pub proof fn lemma_empty_grid_not_unique()
    ensures
        several_completions(Seq::new(81, |p: int| 0u8)),
{
    let empty = Seq::new(81, |p: int| 0u8);
    let a = shifted_rows();
    let b = shifted_rows_relabelled();
    lemma_solution_exists();
    assert forall|p: int, q: int|
        is_cell(p) && is_cell(q) && peers(p, q) && #[trigger] b[p] != 0 implies b[p]
        != #[trigger] b[q] by {
        lemma_relabelled_distinct(p / 9, p % 9, q / 9, q % 9);
    }
    assert(is_completion(empty, a));
    assert(is_completion(empty, b));
    assert(a[0] != b[0]);
}

/// Whether digit `d` may go in cell `p`: no peer of `p` holds it.
fn digit_fits(g: &Grid, p: usize, d: u8) -> (r: bool)
    requires
        g.wf(),
        p < 81,
    ensures
        r == fits(g@, p as int, d as int),
{
    let mut q: usize = 0;
    while q < CELLS
        invariant
            g.wf(),
            p < 81,
            q <= 81,
            forall|b: int| 0 <= b < q && peers(p as int, b) ==> #[trigger] g@[b] != d,
        decreases 81 - q,
    {
        if are_peers(p, q) && g.cell(q) == d {
            assert(is_cell(q as int) && peers(p as int, q as int) && g@[q as int] == d);
            return false;
        }
        q = q + 1;
    }
    true
}

/// The digits 1 to 9 that fit in cell `p`, in increasing order.
fn candidates(g: &Grid, p: usize) -> (r: Vec<u8>)
    requires
        g.wf(),
        p < 81,
    ensures
        forall|d: u8| r@.contains(d) <==> (1 <= d <= 9 && fits(g@, p as int, d as int)),
{
    let mut r: Vec<u8> = Vec::new();
    let mut d: u8 = 1;
    while d <= 9
        invariant
            g.wf(),
            p < 81,
            1 <= d <= 10,
            forall|x: u8| r@.contains(x) <==> (1 <= x < d && fits(g@, p as int, x as int)),
        decreases 10 - d,
    {
        let ghost before = r@;
        if digit_fits(g, p, d) {
            r.push(d);
            proof {
                assert forall|x: u8| r@.contains(x) <==> (1 <= x < d + 1 && fits(g@, p as int, x as int)) by {
                    if x == d {
                        assert(r@[before.len() as int] == d);
                    }
                    if r@.contains(x) && x != d {
                        let j = choose|j: int| 0 <= j < r@.len() && r@[j] == x;
                        assert(before[j] == x);
                    }
                    if before.contains(x) {
                        let j = choose|j: int| 0 <= j < before.len() && before[j] == x;
                        assert(r@[j] == x);
                    }
                }
            }
        }
        d = d + 1;
    }
    r
}

/// Placing a digit that fits keeps a grid free of repeated digits.
proof fn lemma_place_fitting(g: Seq<u8>, p: int, d: u8)
    requires
        well_formed(g),
        locally_valid(g),
        is_cell(p),
        1 <= d <= 9,
        fits(g, p, d as int),
    ensures
        well_formed(g.update(p, d)),
        locally_valid(g.update(p, d)),
{
    let h = g.update(p, d);
    assert forall|a: int, b: int|
        is_cell(a) && is_cell(b) && peers(a, b) && #[trigger] h[a] != 0 implies h[a]
        != #[trigger] h[b] by {
        if a == p {
            assert(g[b] != d);
        } else if b == p {
            assert(peers(b, a));
            assert(g[a] != d);
        } else {
            assert(g[a] != g[b]);
        }
    }
}

/// Extends `g` from cell `p` onward by backtracking; the digits tried at
/// each empty cell come in an order drawn from `rng`. Cells before `p` are
/// already filled. Recursion depth is at most 81.
fn fill_from(g: &mut Grid, p: usize, rng: &mut StdRng) -> (r: bool)
    requires
        old(g).wf(),
        locally_valid(old(g)@),
        p <= 81,
        forall|q: int| 0 <= q < p ==> #[trigger] old(g)@[q] != 0,
    ensures
        final(g).wf(),
        r ==> is_completion(old(g)@, final(g)@),
        !r ==> final(g)@ == old(g)@ && no_completion(old(g)@),
    decreases 81 - p, 1int,
{
    let ghost g0 = g@;
    if p == CELLS {
        assert forall|q: int| 0 <= q < 81 implies 1 <= #[trigger] g0[q] <= 9 by {
            assert(g0[q] != 0);
        }
        assert(agrees(g0, g0));
        return true;
    }
    if g.cell(p) != 0 {
        return fill_from(g, p + 1, rng);
    }
    let mut options = candidates(g, p);
    let ghost sorted = options@;
    shuffle(&mut options, rng);
    proof {
        sorted.to_multiset_ensures();
        options@.to_multiset_ensures();
        assert forall|d: u8| options@.contains(d) <==> sorted.contains(d) by {
            assert(options@.to_multiset().count(d) == sorted.to_multiset().count(d));
        }
        assert forall|d: u8|
            options@.contains(d) <==> (1 <= d <= 9 && fits(g0, p as int, d as int)) by {
            assert(options@.contains(d) <==> sorted.contains(d));
        }
        assert forall|j: int| 0 <= j < options@.len() implies 1 <= #[trigger] options@[j] <= 9
            && fits(g0, p as int, options@[j] as int) by {
            assert(options@.contains(options@[j]));
        }
    }
    if try_digits(g, p, &options, rng) {
        return true;
    }
    assert forall|c: Seq<u8>| !#[trigger] is_completion(g0, c) by {
        if is_completion(g0, c) {
            let d0 = c[p as int];
            assert forall|q: int| is_cell(q) && peers(p as int, q) implies g0[q] != d0 by {
                if g0[q] != 0 {
                    assert(c[q] == g0[q]);
                    assert(c[p as int] != c[q]);
                }
            }
            assert(options@.contains(d0));
            let j = choose|j: int| 0 <= j < options@.len() && options@[j] == d0;
            let h = g0.update(p as int, d0);
            assert forall|q: int| 0 <= q < 81 && #[trigger] h[q] != 0 implies c[q] == h[q] by {
                if q != p {
                    assert(g0[q] != 0);
                }
            }
            assert(is_completion(h, c));
            assert(no_completion(g0.update(p as int, options@[j])));
        }
    }
    false
}

/// Tries the digits of `options` at the empty cell `p`, in their order, and
/// for each one extends the grid past `p` by backtracking. The grid returned
/// holds the first digit of `options` from which the search succeeded: every
/// digit before it leaves no completion.
pub fn try_digits(g: &mut Grid, p: usize, options: &Vec<u8>, rng: &mut StdRng) -> (r: bool)
    requires
        old(g).wf(),
        locally_valid(old(g)@),
        p < 81,
        old(g)@[p as int] == 0,
        forall|q: int| 0 <= q < p ==> #[trigger] old(g)@[q] != 0,
        forall|j: int|
            0 <= j < options@.len() ==> 1 <= #[trigger] options@[j] <= 9 && fits(
                old(g)@,
                p as int,
                options@[j] as int,
            ),
    ensures
        final(g).wf(),
        r ==> is_completion(old(g)@, final(g)@),
        r ==> exists|k: int|
            0 <= k < options@.len() && final(g)@[p as int] == options@[k] && forall|j: int|
                0 <= j < k ==> no_completion(#[trigger] old(g)@.update(p as int, options@[j])),
        !r ==> final(g)@ == old(g)@ && forall|j: int|
            0 <= j < options@.len() ==> no_completion(
                #[trigger] old(g)@.update(p as int, options@[j]),
            ),
    decreases 81 - p, 0int,
{
    let ghost g0 = g@;
    let mut i: usize = 0;
    while i < options.len()
        invariant
            g.wf(),
            g@ == g0,
            old(g)@ == g0,
            p < 81,
            g0[p as int] == 0,
            well_formed(g0),
            locally_valid(g0),
            forall|q: int| 0 <= q < p ==> #[trigger] g0[q] != 0,
            i <= options.len(),
            forall|j: int|
                0 <= j < options@.len() ==> 1 <= #[trigger] options@[j] <= 9 && fits(
                    g0,
                    p as int,
                    options@[j] as int,
                ),
            forall|j: int| 0 <= j < i ==> no_completion(#[trigger] g0.update(p as int, options@[j])),
        decreases options.len() - i,
    {
        let d = options[i];
        proof {
            lemma_place_fitting(g0, p as int, d);
        }
        g.set_cell(p, d);
        let ghost g1 = g@;
        assert forall|q: int| 0 <= q < p + 1 implies #[trigger] g1[q] != 0 by {
            if q < p {
                assert(g0[q] != 0);
            }
        }
        if fill_from(g, p + 1, rng) {
            assert(is_completion(g1, g@));
            assert(is_solution(g@));
            assert(agrees(g0, g@)) by {
                assert forall|q: int| 0 <= q < 81 && #[trigger] g0[q] != 0 implies g@[q] == g0[q] by {
                    assert(g1[q] != 0);
                }
            }
            assert(is_completion(g0, g@));
            assert(g1[p as int] != 0);
            assert(g@[p as int] == options@[i as int]);
            return true;
        }
        g.set_cell(p, 0);
        assert(g@ =~= g0);
        i = i + 1;
    }
    false
}

/// A full grid built by randomized backtracking from the empty grid; the
/// order in which digits are tried at each cell is drawn from `rng`.
pub fn fill_grid(rng: &mut StdRng) -> (g: Grid)
    ensures
        g.wf(),
        is_solution(g@),
{
    let mut g = Grid::new();
    let ghost empty = g@;
    assert(locally_valid(empty));
    let ok = fill_from(&mut g, 0, rng);
    if !ok {
        // the empty grid has a completion, so the search cannot have failed
        proof {
            lemma_solution_exists();
            assert(agrees(empty, shifted_rows()));
            assert(is_completion(empty, shifted_rows()));
        }
    }
    g
}

} // verus!
