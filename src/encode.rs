use crate::grid::{are_peers, is_cell, is_completion, is_solution, peers, well_formed, Grid, CELLS};
use vstd::prelude::*;

verus! {

/// The boolean variable "cell `p` holds digit `d`", numbered from 1 to 729.
pub open spec fn var(p: int, d: int) -> int {
    p * 9 + d
}

/// Literal `l` is true under assignment `a` (a negative literal negates
/// variable `-l`).
pub open spec fn lit_true(a: spec_fn(int) -> bool, l: int) -> bool {
    if l > 0 {
        a(l)
    } else {
        !a(-l)
    }
}

/// Some literal of clause `cl` is true under `a`.
pub open spec fn clause_true(a: spec_fn(int) -> bool, cl: Seq<i32>) -> bool {
    exists|j: int| 0 <= j < cl.len() && lit_true(a, #[trigger] cl[j] as int)
}

/// Every clause of `cnf` is true under `a`.
pub open spec fn cnf_true(a: spec_fn(int) -> bool, cnf: Seq<Seq<i32>>) -> bool {
    forall|i: int| 0 <= i < cnf.len() ==> clause_true(a, #[trigger] cnf[i])
}

/// The clauses of `cnf`, each as a sequence of literals.
pub open spec fn clauses_of(cnf: Seq<Vec<i32>>) -> Seq<Seq<i32>> {
    cnf.map_values(|cl: Vec<i32>| cl@)
}

/// The assignment that a full grid `c` stands for: variable `var(p, d)` is
/// true exactly when cell `p` of `c` holds `d`.
pub open spec fn grid_assignment(c: Seq<u8>) -> spec_fn(int) -> bool {
    |v: int| 1 <= v <= 729 && c[(v - 1) / 9] == (v - 1) % 9 + 1
}

/// Every completion of `puzzle` makes clause `cl` true.
pub open spec fn kept_by_completions(puzzle: Seq<u8>, cl: Seq<i32>) -> bool {
    forall|c: Seq<u8>| #[trigger] is_completion(puzzle, c) ==> clause_true(grid_assignment(c), cl)
}

/// `l` names one of the variables 1 to 729, positively or negatively.
pub open spec fn lit_in_range(l: i32) -> bool {
    (1 <= l <= 729) || (-729 <= l <= -1)
}

/// Every literal of `cl` is in range.
pub open spec fn clause_in_range(cl: Seq<i32>) -> bool {
    forall|j: int| 0 <= j < cl.len() ==> lit_in_range(#[trigger] cl[j])
}

/// Every literal of every clause of `cnf` is in range.
pub open spec fn cnf_in_range(cnf: Seq<Seq<i32>>) -> bool {
    forall|i: int| 0 <= i < cnf.len() ==> clause_in_range(#[trigger] cnf[i])
}

/// Every clause of `cnf` has its literals in range, and every completion of
/// `puzzle` makes it true.
pub open spec fn all_kept(puzzle: Seq<u8>, cnf: Seq<Vec<i32>>) -> bool {
    forall|i: int|
        0 <= i < cnf.len() ==> kept_by_completions(puzzle, #[trigger] cnf[i]@) && clause_in_range(
            cnf[i]@,
        )
}

/// The clauses of a list whose clauses all hold literals in range.
pub proof fn lemma_all_kept_in_range(puzzle: Seq<u8>, cnf: Seq<Vec<i32>>)
    requires
        all_kept(puzzle, cnf),
    ensures
        cnf_in_range(clauses_of(cnf)),
{
    assert forall|i: int| 0 <= i < clauses_of(cnf).len() implies clause_in_range(
        #[trigger] clauses_of(cnf)[i],
    ) by {
        assert(clauses_of(cnf)[i] == cnf[i]@);
    }
}

/// The clause "cell `p` holds some digit".
pub open spec fn some_digit(p: int) -> Seq<i32> {
    Seq::new(9, |k: int| var(p, k + 1) as i32)
}

/// The clause "not both: cell `p` holds `d1` and cell `q` holds `d2`".
pub open spec fn exclusion(p: int, d1: int, q: int, d2: int) -> Seq<i32> {
    seq![(-var(p, d1)) as i32, (-var(q, d2)) as i32]
}

/// The clause "cell `p` holds `d`".
pub open spec fn holds(p: int, d: int) -> Seq<i32> {
    seq![var(p, d) as i32]
}

/// `cl` is one of the clauses of `cnf`.
pub open spec fn has_clause(cnf: Seq<Vec<i32>>, cl: Seq<i32>) -> bool {
    exists|i: int| 0 <= i < cnf.len() && cnf[i]@ == cl
}

/// The rules that concern cell `p` are among the clauses of `cnf`: it
/// holds some digit, never two, no later peer holds the same digit, and it
/// keeps its clue if `puzzle` gives one.
pub open spec fn cell_rules_present(puzzle: Seq<u8>, cnf: Seq<Vec<i32>>, p: int) -> bool {
    &&& has_clause(cnf, some_digit(p))
    &&& forall|d1: int, d2: int|
        1 <= d1 < d2 <= 9 ==> #[trigger] has_clause(cnf, exclusion(p, d1, p, d2))
    &&& forall|q: int, d: int|
        p < q < 81 && peers(p, q) && 1 <= d <= 9 ==> #[trigger] has_clause(
            cnf,
            exclusion(p, d, q, d),
        )
    &&& puzzle[p] != 0 ==> has_clause(cnf, holds(p, puzzle[p] as int))
}

/// Growing a clause list keeps the clauses it had.
pub open spec fn keeps_clauses(before: Seq<Vec<i32>>, after: Seq<Vec<i32>>) -> bool {
    forall|cl: Seq<i32>| #[trigger] has_clause(before, cl) ==> has_clause(after, cl)
}

pub proof fn lemma_keeps_rules(puzzle: Seq<u8>, before: Seq<Vec<i32>>, after: Seq<Vec<i32>>, p: int)
    requires
        keeps_clauses(before, after),
        cell_rules_present(puzzle, before, p),
    ensures
        cell_rules_present(puzzle, after, p),
{
    assert(has_clause(before, some_digit(p)));
    assert forall|d1: int, d2: int| 1 <= d1 < d2 <= 9 implies #[trigger] has_clause(
        after,
        exclusion(p, d1, p, d2),
    ) by {
        assert(has_clause(before, exclusion(p, d1, p, d2)));
    }
    assert forall|q: int, d: int| p < q < 81 && peers(p, q) && 1 <= d <= 9 implies #[trigger] has_clause(
        after,
        exclusion(p, d, q, d),
    ) by {
        assert(has_clause(before, exclusion(p, d, q, d)));
    }
    if puzzle[p] != 0 {
        assert(has_clause(before, holds(p, puzzle[p] as int)));
    }
}

pub proof fn lemma_var(c: Seq<u8>, p: int, d: int)
    requires
        0 <= p < 81,
        1 <= d <= 9,
    ensures
        1 <= var(p, d) <= 729,
        (var(p, d) - 1) / 9 == p,
        (var(p, d) - 1) % 9 + 1 == d,
        grid_assignment(c)(var(p, d)) == (c[p] == d),
{
    assert((p * 9 + d - 1) / 9 == p && (p * 9 + d - 1) % 9 == d - 1) by (nonlinear_arith)
        requires
            0 <= p < 81,
            1 <= d <= 9,
    ;
}

/// The literal of variable `var(p, d)`.
pub fn lit(p: usize, d: u8) -> (l: i32)
    requires
        p < 81,
        1 <= d <= 9,
    ensures
        l == var(p as int, d as int),
        1 <= l <= 729,
{
    (p as i32) * 9 + d as i32
}

fn add_clause(puzzle: &Grid, cnf: &mut Vec<Vec<i32>>, cl: Vec<i32>)
    requires
        all_kept(puzzle@, old(cnf)@),
        kept_by_completions(puzzle@, cl@),
        clause_in_range(cl@),
    ensures
        all_kept(puzzle@, final(cnf)@),
        final(cnf)@ == old(cnf)@.push(cl),
        keeps_clauses(old(cnf)@, final(cnf)@),
        has_clause(final(cnf)@, cl@),
{
    let ghost l = cnf@.len();
    cnf.push(cl);
    assert(forall|i: int| 0 <= i < old(cnf)@.len() ==> cnf@[i] == old(cnf)@[i]);
    assert(cnf@[l as int]@ == cl@);
    assert forall|c: Seq<i32>| #[trigger] has_clause(old(cnf)@, c) implies has_clause(cnf@, c) by {
        let i = choose|i: int| 0 <= i < old(cnf)@.len() && old(cnf)@[i]@ == c;
        assert(cnf@[i]@ == c);
    }
}

/// The clause "cell `p` holds some digit".
fn some_digit_clause(puzzle: &Grid, p: usize) -> (cl: Vec<i32>)
    requires
        p < 81,
    ensures
        kept_by_completions(puzzle@, cl@),
        clause_in_range(cl@),
        cl@ == some_digit(p as int),
{
    let mut cl: Vec<i32> = Vec::new();
    let mut d: u8 = 1;
    while d <= 9
        invariant
            p < 81,
            1 <= d <= 10,
            cl@.len() == d - 1,
            forall|k: int| 0 <= k < cl@.len() ==> #[trigger] cl@[k] == var(p as int, k + 1),
            clause_in_range(cl@),
        decreases 10 - d,
    {
        cl.push(lit(p, d));
        d = d + 1;
    }
    assert forall|c: Seq<u8>| #[trigger] is_completion(puzzle@, c) implies clause_true(
        grid_assignment(c),
        cl@,
    ) by {
        let v = c[p as int] as int;
        lemma_var(c, p as int, v);
        assert(lit_true(grid_assignment(c), cl@[v - 1] as int));
    }
    assert(cl@ =~= some_digit(p as int));
    cl
}

/// The clause "not both: cell `p` holds `d1` and cell `q` holds `d2`".
fn exclusion_clause(puzzle: &Grid, p: usize, d1: u8, q: usize, d2: u8) -> (cl: Vec<i32>)
    requires
        p < 81,
        q < 81,
        1 <= d1 <= 9,
        1 <= d2 <= 9,
        forall|c: Seq<u8>| #[trigger]
            is_completion(puzzle@, c) ==> !(c[p as int] == d1 && c[q as int] == d2),
    ensures
        kept_by_completions(puzzle@, cl@),
        clause_in_range(cl@),
        cl@ == exclusion(p as int, d1 as int, q as int, d2 as int),
{
    let first: i32 = -lit(p, d1);
    let second: i32 = -lit(q, d2);
    let cl = vec![first, second];
    assert forall|c: Seq<u8>| #[trigger] is_completion(puzzle@, c) implies clause_true(
        grid_assignment(c),
        cl@,
    ) by {
        lemma_var(c, p as int, d1 as int);
        lemma_var(c, q as int, d2 as int);
        if c[p as int] != d1 {
            assert(lit_true(grid_assignment(c), cl@[0] as int));
        } else {
            assert(lit_true(grid_assignment(c), cl@[1] as int));
        }
    }
    assert(cl@ =~= exclusion(p as int, d1 as int, q as int, d2 as int));
    cl
}

/// The clause "cell `p` holds its clue".
fn clue_clause(puzzle: &Grid, p: usize) -> (cl: Vec<i32>)
    requires
        puzzle.wf(),
        p < 81,
        puzzle@[p as int] != 0,
    ensures
        kept_by_completions(puzzle@, cl@),
        clause_in_range(cl@),
        cl@ == holds(p as int, puzzle@[p as int] as int),
{
    let d = puzzle.cell(p);
    let cl = vec![lit(p, d)];
    assert forall|c: Seq<u8>| #[trigger] is_completion(puzzle@, c) implies clause_true(
        grid_assignment(c),
        cl@,
    ) by {
        lemma_var(c, p as int, d as int);
        assert(lit_true(grid_assignment(c), cl@[0] as int));
    }
    assert(cl@ =~= holds(p as int, d as int));
    cl
}

/// Adds the rules that concern cell `p`: it holds exactly one digit, no
/// later peer holds the same digit, and it keeps its clue if it has one.
fn add_cell_rules(puzzle: &Grid, p: usize, cnf: &mut Vec<Vec<i32>>)
    requires
        puzzle.wf(),
        p < 81,
        all_kept(puzzle@, old(cnf)@),
    ensures
        all_kept(puzzle@, final(cnf)@),
        keeps_clauses(old(cnf)@, final(cnf)@),
        cell_rules_present(puzzle@, final(cnf)@, p as int),
{
    let ghost start = cnf@;
    add_clause(puzzle, cnf, some_digit_clause(puzzle, p));
    let mut d1: u8 = 1;
    while d1 <= 9
        invariant
            puzzle.wf(),
            p < 81,
            1 <= d1 <= 10,
            all_kept(puzzle@, cnf@),
            keeps_clauses(start, cnf@),
            has_clause(cnf@, some_digit(p as int)),
            forall|e1: int, e2: int|
                1 <= e1 < e2 <= 9 && e1 < d1 ==> #[trigger] has_clause(
                    cnf@,
                    exclusion(p as int, e1, p as int, e2),
                ),
        decreases 10 - d1,
    {
        let mut d2: u8 = d1 + 1;
        while d2 <= 9
            invariant
                puzzle.wf(),
                p < 81,
                1 <= d1 <= 9,
                d1 < d2 <= 10,
                all_kept(puzzle@, cnf@),
                keeps_clauses(start, cnf@),
                has_clause(cnf@, some_digit(p as int)),
                forall|e1: int, e2: int|
                    1 <= e1 < e2 <= 9 && (e1 < d1 || (e1 == d1 && e2 < d2)) ==> #[trigger] has_clause(
                        cnf@,
                        exclusion(p as int, e1, p as int, e2),
                    ),
            decreases 10 - d2,
        {
            let ghost before = cnf@;
            add_clause(puzzle, cnf, exclusion_clause(puzzle, p, d1, p, d2));
            assert forall|e1: int, e2: int|
                1 <= e1 < e2 <= 9 && (e1 < d1 || (e1 == d1 && e2 < d2 + 1)) implies #[trigger] has_clause(
                    cnf@,
                    exclusion(p as int, e1, p as int, e2),
                ) by {
                if e1 < d1 || e2 < d2 {
                    assert(has_clause(before, exclusion(p as int, e1, p as int, e2)));
                }
            }
            assert(has_clause(before, some_digit(p as int)));
            assert forall|cl: Seq<i32>| #[trigger] has_clause(start, cl) implies has_clause(cnf@, cl) by {
                assert(has_clause(before, cl));
            }
            d2 = d2 + 1;
        }
        d1 = d1 + 1;
    }
    let mut q: usize = p + 1;
    while q < CELLS
        invariant
            puzzle.wf(),
            p < 81,
            p < q <= 81,
            all_kept(puzzle@, cnf@),
            keeps_clauses(start, cnf@),
            has_clause(cnf@, some_digit(p as int)),
            forall|e1: int, e2: int|
                1 <= e1 < e2 <= 9 ==> #[trigger] has_clause(
                    cnf@,
                    exclusion(p as int, e1, p as int, e2),
                ),
            forall|r: int, d: int|
                p < r < q && peers(p as int, r) && 1 <= d <= 9 ==> #[trigger] has_clause(
                    cnf@,
                    exclusion(p as int, d, r, d),
                ),
        decreases 81 - q,
    {
        if are_peers(p, q) {
            let mut d: u8 = 1;
            while d <= 9
                invariant
                    puzzle.wf(),
                    p < 81,
                    p < q < 81,
                    peers(p as int, q as int),
                    1 <= d <= 10,
                    all_kept(puzzle@, cnf@),
                    keeps_clauses(start, cnf@),
                    has_clause(cnf@, some_digit(p as int)),
                    forall|e1: int, e2: int|
                        1 <= e1 < e2 <= 9 ==> #[trigger] has_clause(
                            cnf@,
                            exclusion(p as int, e1, p as int, e2),
                        ),
                    forall|r: int, e: int|
                        p < r <= q && peers(p as int, r) && 1 <= e <= 9 && (r < q || e < d)
                            ==> #[trigger] has_clause(cnf@, exclusion(p as int, e, r, e)),
                decreases 10 - d,
            {
                assert forall|c: Seq<u8>| #[trigger] is_completion(puzzle@, c) implies !(c[p as int]
                    == d && c[q as int] == d) by {
                    assert(is_cell(p as int) && is_cell(q as int) && c[p as int] != 0);
                }
                let ghost before = cnf@;
                add_clause(puzzle, cnf, exclusion_clause(puzzle, p, d, q, d));
                assert(has_clause(before, some_digit(p as int)));
                assert forall|e1: int, e2: int| 1 <= e1 < e2 <= 9 implies #[trigger] has_clause(
                    cnf@,
                    exclusion(p as int, e1, p as int, e2),
                ) by {
                    assert(has_clause(before, exclusion(p as int, e1, p as int, e2)));
                }
                assert forall|r: int, e: int|
                    p < r <= q && peers(p as int, r) && 1 <= e <= 9 && (r < q || e < d + 1)
                        implies #[trigger] has_clause(cnf@, exclusion(p as int, e, r, e)) by {
                    if r < q || e < d {
                        assert(has_clause(before, exclusion(p as int, e, r, e)));
                    }
                }
                assert forall|cl: Seq<i32>| #[trigger] has_clause(start, cl) implies has_clause(cnf@, cl) by {
                    assert(has_clause(before, cl));
                }
                d = d + 1;
            }
        }
        q = q + 1;
    }
    if puzzle.cell(p) != 0 {
        let ghost before = cnf@;
        add_clause(puzzle, cnf, clue_clause(puzzle, p));
        proof {
            assert forall|cl: Seq<i32>| #[trigger] has_clause(start, cl) implies has_clause(cnf@, cl) by {
                assert(has_clause(before, cl));
            }
            assert(has_clause(before, some_digit(p as int)));
            lemma_keeps_rules_partial(before, cnf@, p as int);
        }
    }
}

proof fn lemma_keeps_rules_partial(before: Seq<Vec<i32>>, after: Seq<Vec<i32>>, p: int)
    requires
        keeps_clauses(before, after),
        has_clause(before, some_digit(p)),
        forall|d1: int, d2: int|
            1 <= d1 < d2 <= 9 ==> #[trigger] has_clause(before, exclusion(p, d1, p, d2)),
        forall|q: int, d: int|
            p < q < 81 && peers(p, q) && 1 <= d <= 9 ==> #[trigger] has_clause(
                before,
                exclusion(p, d, q, d),
            ),
    ensures
        has_clause(after, some_digit(p)),
        forall|d1: int, d2: int|
            1 <= d1 < d2 <= 9 ==> #[trigger] has_clause(after, exclusion(p, d1, p, d2)),
        forall|q: int, d: int|
            p < q < 81 && peers(p, q) && 1 <= d <= 9 ==> #[trigger] has_clause(
                after,
                exclusion(p, d, q, d),
            ),
{
    assert forall|d1: int, d2: int| 1 <= d1 < d2 <= 9 implies #[trigger] has_clause(
        after,
        exclusion(p, d1, p, d2),
    ) by {
        assert(has_clause(before, exclusion(p, d1, p, d2)));
    }
    assert forall|q: int, d: int| p < q < 81 && peers(p, q) && 1 <= d <= 9 implies #[trigger] has_clause(
        after,
        exclusion(p, d, q, d),
    ) by {
        assert(has_clause(before, exclusion(p, d, q, d)));
    }
}

/// Clauses over the variables `var(p, d)` that state the Sudoku rules for
/// `puzzle`: each cell holds exactly one digit, two cells that share a row,
/// column or box hold different digits, and each clue is kept. All of these
/// rules are among the clauses, and every completion of `puzzle` satisfies
/// every clause.
pub fn encode(puzzle: &Grid) -> (cnf: Vec<Vec<i32>>)
    requires
        puzzle.wf(),
    ensures
        all_kept(puzzle@, cnf@),
        forall|p: int| 0 <= p < 81 ==> #[trigger] cell_rules_present(puzzle@, cnf@, p),
{
    let mut cnf: Vec<Vec<i32>> = Vec::new();
    let mut p: usize = 0;
    while p < CELLS
        invariant
            puzzle.wf(),
            p <= 81,
            all_kept(puzzle@, cnf@),
            forall|a: int| 0 <= a < p ==> #[trigger] cell_rules_present(puzzle@, cnf@, a),
        decreases 81 - p,
    {
        let ghost before = cnf@;
        add_cell_rules(puzzle, p, &mut cnf);
        proof {
            assert forall|a: int| 0 <= a < p + 1 implies #[trigger] cell_rules_present(
                puzzle@,
                cnf@,
                a,
            ) by {
                if a < p {
                    lemma_keeps_rules(puzzle@, before, cnf@, a);
                }
            }
        }
        p = p + 1;
    }
    cnf
}

/// The grid that assignment `a` names: in each cell, a digit whose variable
/// `a` makes true.
pub open spec fn grid_of(a: spec_fn(int) -> bool) -> Seq<u8> {
    Seq::new(81, |p: int| (choose|d: int| 1 <= d <= 9 && a(var(p, d))) as u8)
}

pub proof fn lemma_present_clause_true(a: spec_fn(int) -> bool, cnf: Seq<Vec<i32>>, cl: Seq<i32>)
    requires
        cnf_true(a, clauses_of(cnf)),
        has_clause(cnf, cl),
    ensures
        clause_true(a, cl),
{
    let i = choose|i: int| 0 <= i < cnf.len() && cnf[i]@ == cl;
    assert(clauses_of(cnf)[i] == cl);
}

pub proof fn lemma_exclusion_true(a: spec_fn(int) -> bool, p: int, d1: int, q: int, d2: int)
    requires
        0 <= p < 81,
        0 <= q < 81,
        1 <= d1 <= 9,
        1 <= d2 <= 9,
        clause_true(a, exclusion(p, d1, q, d2)),
    ensures
        !(a(var(p, d1)) && a(var(q, d2))),
{
    let cl = exclusion(p, d1, q, d2);
    lemma_var(Seq::empty(), p, d1);
    lemma_var(Seq::empty(), q, d2);
    let j = choose|j: int| 0 <= j < cl.len() && lit_true(a, #[trigger] cl[j] as int);
    assert(cl[0] as int == -var(p, d1));
    assert(cl[1] as int == -var(q, d2));
}

/// Every assignment that satisfies the clauses of `encode` names a
/// completion of the puzzle: together with `all_kept`, the satisfying
/// assignments are exactly those of the completions.
pub proof fn lemma_satisfying_assignment_completes(
    puzzle: Seq<u8>,
    cnf: Seq<Vec<i32>>,
    a: spec_fn(int) -> bool,
)
    requires
        well_formed(puzzle),
        forall|p: int| 0 <= p < 81 ==> #[trigger] cell_rules_present(puzzle, cnf, p),
        cnf_true(a, clauses_of(cnf)),
    ensures
        is_completion(puzzle, grid_of(a)),
{
    let g = grid_of(a);
    assert forall|p: int| 0 <= p < 81 implies 1 <= #[trigger] g[p] <= 9 && a(var(p, g[p] as int)) by {
        assert(cell_rules_present(puzzle, cnf, p));
        lemma_present_clause_true(a, cnf, some_digit(p));
        let cl = some_digit(p);
        let j = choose|j: int| 0 <= j < cl.len() && lit_true(a, #[trigger] cl[j] as int);
        lemma_var(Seq::empty(), p, j + 1);
        assert(a(var(p, j + 1)));
    }
    assert forall|p: int, q: int|
        is_cell(p) && is_cell(q) && peers(p, q) && #[trigger] g[p] != 0 implies g[p] != #[trigger] g[q] by {
        assert(1 <= g[p] <= 9 && a(var(p, g[p] as int)));
        assert(1 <= g[q] <= 9 && a(var(q, g[q] as int)));
        if g[p] == g[q] {
            let d = g[p] as int;
            if p < q {
                assert(cell_rules_present(puzzle, cnf, p));
                assert(has_clause(cnf, exclusion(p, d, q, d)));
                lemma_present_clause_true(a, cnf, exclusion(p, d, q, d));
                lemma_exclusion_true(a, p, d, q, d);
            } else {
                assert(cell_rules_present(puzzle, cnf, q));
                assert(peers(q, p));
                assert(has_clause(cnf, exclusion(q, d, p, d)));
                lemma_present_clause_true(a, cnf, exclusion(q, d, p, d));
                lemma_exclusion_true(a, q, d, p, d);
            }
        }
    }
    assert forall|p: int| 0 <= p < 81 && #[trigger] puzzle[p] != 0 implies g[p] == puzzle[p] by {
        assert(cell_rules_present(puzzle, cnf, p));
        let v = puzzle[p] as int;
        lemma_present_clause_true(a, cnf, holds(p, v));
        let cl = holds(p, v);
        lemma_var(Seq::empty(), p, v);
        let j = choose|j: int| 0 <= j < cl.len() && lit_true(a, #[trigger] cl[j] as int);
        assert(a(var(p, v)));
        assert(1 <= g[p] <= 9 && a(var(p, g[p] as int)));
        let d = g[p] as int;
        if d < v {
            lemma_present_clause_true(a, cnf, exclusion(p, d, p, v));
            lemma_exclusion_true(a, p, d, p, v);
        } else if v < d {
            lemma_present_clause_true(a, cnf, exclusion(p, v, p, d));
            lemma_exclusion_true(a, p, v, p, d);
        }
    }
}

} // verus!
