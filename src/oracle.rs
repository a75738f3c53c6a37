use crate::encode::{
    cell_rules_present, exclusion, grid_of, has_clause, lemma_exclusion_true, lemma_keeps_rules,
    lemma_present_clause_true, lemma_satisfying_assignment_completes, some_digit,
    all_kept, clause_in_range, cnf_in_range, lemma_all_kept_in_range, clause_true, clauses_of, cnf_true, encode, grid_assignment, kept_by_completions,
    lemma_var, lit, lit_true, var,
};
use crate::grid::{
    has_unique_completion, is_completion, is_solution, lemma_completion_counts_exclusive,
    lemma_full_grid_unique, well_formed, no_completion, several_completions, unique_completion, Grid, CELLS,
};
use splr::Certificate;
use vstd::prelude::*;

verus! {

/// What the SAT solver answered on a clause set.
pub enum SatAnswer {
    /// An assignment, as one signed literal per variable.
    Sat(Vec<i32>),
    /// No assignment satisfies the clauses.
    Unsat,
    /// The solver gave up or rejected the input.
    Failed,
}

/// The literals of `model` are those of variables 1, 2, ... in order.
pub open spec fn in_var_order(model: Seq<i32>) -> bool {
    forall|i: int| 0 <= i < model.len() ==> #[trigger] model[i] == i + 1 || model[i] == -(i + 1)
}

/// The assignment a model in variable order stands for: a variable is true
/// when its literal in the model is positive.
pub open spec fn model_assignment(model: Seq<i32>) -> spec_fn(int) -> bool {
    |v: int| 1 <= v <= model.len() && model[v - 1] > 0
}

/// Relies on splr's `Certificate::try_from` for a clause list (every literal
/// non-zero, so that taking its absolute value cannot overflow): UNSAT only
/// when no assignment satisfies every clause, and SAT with one literal per
/// variable in variable order, an assignment that satisfies every clause.
#[verifier::external_body]
fn solve_clauses(cnf: Vec<Vec<i32>>) -> (r: SatAnswer)
    requires
        cnf_in_range(clauses_of(cnf@)),
    ensures
        r is Unsat ==> forall|a: spec_fn(int) -> bool| !#[trigger] cnf_true(a, clauses_of(cnf@)),
        r matches SatAnswer::Sat(model) ==> in_var_order(model@) && cnf_true(
            model_assignment(model@),
            clauses_of(cnf@),
        ),
{
    match Certificate::try_from(cnf) {
        Ok(Certificate::SAT(model)) => SatAnswer::Sat(model),
        Ok(Certificate::UNSAT) => SatAnswer::Unsat,
        Err(_) => SatAnswer::Failed,
    }
}

/// The outcome of a uniqueness check.
pub enum Verdict {
    /// The puzzle has exactly one completion, given here.
    Unique(Grid),
    /// The puzzle has at least two completions.
    NotUnique,
    /// The puzzle has no completion.
    Unsolvable,
    /// The solver failed, or answered with an assignment that is no completion.
    SolverFailure,
}

/// The grid that the positive literals of `model` name, read from first to
/// last: a positive literal `var(p, d)` puts `d` in cell `p`, so the last
/// one for a cell wins; a cell that none names stays 0.
pub open spec fn model_grid(model: Seq<i32>) -> Seq<u8>
    decreases model.len(),
{
    if model.len() == 0 {
        Seq::new(81, |p: int| 0u8)
    } else {
        let g = model_grid(model.drop_last());
        let l = model.last() as int;
        if 1 <= l <= 729 {
            g.update((l - 1) / 9, ((l - 1) % 9 + 1) as u8)
        } else {
            g
        }
    }
}

/// The grid that the positive literals of `model` name.
fn decode(model: &Vec<i32>) -> (m: Grid)
    ensures
        m.wf(),
        m@ == model_grid(model@),
{
    let mut m = Grid::new();
    let mut i: usize = 0;
    assert(model@.subrange(0, 0).len() == 0);
    while i < model.len()
        invariant
            m.wf(),
            i <= model.len(),
            m@ == model_grid(model@.subrange(0, i as int)),
        decreases model.len() - i,
    {
        let l = model[i];
        assert(model@.subrange(0, i + 1).drop_last() =~= model@.subrange(0, i as int));
        if 1 <= l && l <= 729 {
            m.set_cell(((l - 1) / 9) as usize, ((l - 1) % 9 + 1) as u8);
        }
        i = i + 1;
    }
    assert(model@.subrange(0, model@.len() as int) =~= model@);
    m
}

/// The clause "some cell differs from `m`": for each cell, the negated
/// variable of the digit `m` holds there.
fn blocking_clause(m: &Grid) -> (cl: Vec<i32>)
    requires
        m.wf(),
        is_solution(m@),
    ensures
        cl@ == Seq::new(81, |k: int| (-var(k, m@[k] as int)) as i32),
        clause_in_range(cl@),
        !clause_true(grid_assignment(m@), cl@),
        forall|c: Seq<u8>|
            #[trigger] is_solution(c) && c != m@ ==> clause_true(grid_assignment(c), cl@),
{
    let mut cl: Vec<i32> = Vec::new();
    let mut p: usize = 0;
    while p < CELLS
        invariant
            m.wf(),
            is_solution(m@),
            p <= 81,
            cl@.len() == p,
            forall|k: int| 0 <= k < p ==> #[trigger] cl@[k] == -var(k, m@[k] as int),
            clause_in_range(cl@),
        decreases 81 - p,
    {
        let neg: i32 = -lit(p, m.cell(p));
        cl.push(neg);
        p = p + 1;
    }
    assert(cl@ =~= Seq::new(81, |k: int| (-var(k, m@[k] as int)) as i32));
    assert forall|j: int| 0 <= j < cl@.len() implies !lit_true(grid_assignment(m@), #[trigger] cl@[j] as int) by {
        lemma_var(m@, j, m@[j] as int);
    }
    assert forall|c: Seq<u8>| #[trigger] is_solution(c) && c != m@ implies clause_true(
        grid_assignment(c),
        cl@,
    ) by {
        if forall|k: int| 0 <= k < 81 ==> #[trigger] c[k] == m@[k] {
            assert(c =~= m@);
        }
        let k = choose|k: int| 0 <= k < 81 && #[trigger] c[k] != m@[k];
        lemma_var(c, k, m@[k] as int);
        assert(lit_true(grid_assignment(c), cl@[k] as int));
    }
    cl
}

/// The step that follows the first solve: UNSAT means no completion; a model
/// that names a completion gives that completion; any other answer is a
/// solver failure.
pub fn first_outcome(puzzle: &Grid, first: SatAnswer) -> (r: Result<Grid, Verdict>)
    requires
        puzzle.wf(),
    ensures
        first is Unsat ==> r matches Err(Verdict::Unsolvable),
        first is Failed ==> r matches Err(Verdict::SolverFailure),
        first matches SatAnswer::Sat(s) ==> ((r is Ok) == is_completion(puzzle@, model_grid(s@)))
            && (r matches Ok(m) ==> m.wf() && m@ == model_grid(s@)) && (r is Err ==> r matches Err(
            Verdict::SolverFailure,
        )),
{
    match first {
        SatAnswer::Sat(model) => {
            let m = decode(&model);
            if m.completes(puzzle) {
                Ok(m)
            } else {
                Err(Verdict::SolverFailure)
            }
        },
        SatAnswer::Unsat => Err(Verdict::Unsolvable),
        SatAnswer::Failed => Err(Verdict::SolverFailure),
    }
}

/// The verdict that follows from the second solve, once a first completion
/// `m` is known: UNSAT means `m` is the only completion; a model that names
/// another completion means there are several; any other answer is a solver
/// failure.
pub fn second_verdict(puzzle: &Grid, m: Grid, second: SatAnswer) -> (r: Verdict)
    requires
        puzzle.wf(),
        m.wf(),
    ensures
        second is Unsat ==> (r matches Verdict::Unique(x) && x@ == m@),
        second matches SatAnswer::Sat(s) ==> ((r is NotUnique) == (is_completion(
            puzzle@,
            model_grid(s@),
        ) && model_grid(s@) != m@)) && (r is NotUnique || r is SolverFailure),
        second is Failed ==> r is SolverFailure,
{
    match second {
        SatAnswer::Sat(model) => {
            let other = decode(&model);
            if other.completes(puzzle) && !other.same_cells(&m) {
                Verdict::NotUnique
            } else {
                Verdict::SolverFailure
            }
        },
        SatAnswer::Unsat => Verdict::Unique(m),
        SatAnswer::Failed => Verdict::SolverFailure,
    }
}

/// What the first `n` literals of a model in variable order leave in cell
/// `p`: 0 when none of the cell's variables among them is true, otherwise a
/// digit whose variable is among them and true.
pub open spec fn prefix_reads(model: Seq<i32>, n: int, p: int) -> bool {
    let g = model_grid(model.subrange(0, n));
    (g[p] == 0 && forall|d: int| 1 <= d <= 9 && var(p, d) <= n ==> #[trigger] model[var(p, d) - 1] < 0)
        || (1 <= g[p] <= 9 && var(p, g[p] as int) <= n && model[var(p, g[p] as int) - 1] > 0)
}

proof fn lemma_model_grid_prefix(model: Seq<i32>, n: int)
    requires
        in_var_order(model),
        0 <= n <= model.len(),
    ensures
        model_grid(model.subrange(0, n)).len() == 81,
        forall|p: int| 0 <= p < 81 ==> #[trigger] prefix_reads(model, n, p),
    decreases n,
{
    if n == 0 {
        assert(model.subrange(0, 0).len() == 0);
        assert forall|p: int| 0 <= p < 81 implies #[trigger] prefix_reads(model, n, p) by {
            assert forall|d: int| 1 <= d <= 9 && var(p, d) <= n implies #[trigger] model[var(p, d) - 1] < 0 by {
                lemma_var(Seq::empty(), p, d);
            }
        }
    } else {
        lemma_model_grid_prefix(model, n - 1);
        let s = model.subrange(0, n);
        assert(s.drop_last() =~= model.subrange(0, n - 1));
        let prev = model_grid(model.subrange(0, n - 1));
        let g = model_grid(s);
        let l = model[n - 1] as int;
        assert(l == n || l == -n);
        let p0 = (n - 1) / 9;
        let d0 = (n - 1) % 9 + 1;
        assert(var(p0, d0) == n);
        assert forall|p: int| 0 <= p < 81 implies #[trigger] prefix_reads(model, n, p) by {
            assert(prefix_reads(model, n - 1, p));
            assert forall|d: int| 1 <= d <= 9 && var(p, d) == n implies p == p0 && d == d0 by {
                lemma_var(Seq::empty(), p, d);
            }
            if 1 <= l <= 729 && p == p0 {
                assert(g[p] == d0);
            } else {
                if 1 <= l <= 729 {
                    assert(g[p] == prev[p]);
                } else {
                    assert(g == prev);
                }
                if prev[p] == 0 {
                    assert forall|d: int| 1 <= d <= 9 && var(p, d) <= n implies #[trigger] model[var(p, d) - 1] < 0 by {
                        if var(p, d) == n {
                            assert(p == p0 && d == d0);
                        } else {
                            assert(var(p, d) <= n - 1);
                        }
                    }
                }
            }
        }
    }
}

/// A model in variable order that satisfies the clauses `encode` gives for
/// `puzzle` names, through `model_grid`, a completion of `puzzle`, and in
/// each cell the one digit whose variable the model makes true.
pub proof fn lemma_model_completes(puzzle: Seq<u8>, cnf: Seq<Vec<i32>>, model: Seq<i32>)
    requires
        well_formed(puzzle),
        forall|p: int| 0 <= p < 81 ==> #[trigger] cell_rules_present(puzzle, cnf, p),
        in_var_order(model),
        cnf_true(model_assignment(model), clauses_of(cnf)),
    ensures
        is_completion(puzzle, model_grid(model)),
        forall|p: int| 0 <= p < 81 ==> model_assignment(model)(var(p, #[trigger] model_grid(model)[p] as int)),
{
    let a = model_assignment(model);
    let n = model.len() as int;
    lemma_model_grid_prefix(model, n);
    assert(model.subrange(0, n) =~= model);
    let g = model_grid(model);
    let h = grid_of(a);
    lemma_satisfying_assignment_completes(puzzle, cnf, a);
    assert forall|p: int| 0 <= p < 81 implies #[trigger] g[p] == h[p] && a(var(p, g[p] as int)) by {
        assert(prefix_reads(model, n, p));
        assert(cell_rules_present(puzzle, cnf, p));
        lemma_present_clause_true(a, cnf, some_digit(p));
        let cl = some_digit(p);
        let j = choose|j: int| 0 <= j < cl.len() && lit_true(a, #[trigger] cl[j] as int);
        lemma_var(Seq::empty(), p, j + 1);
        assert(a(var(p, j + 1)));
        assert(model[var(p, j + 1) - 1] > 0);
        assert(1 <= g[p] <= 9);
        let d = g[p] as int;
        lemma_var(Seq::empty(), p, d);
        assert(a(var(p, d)));
        let e = choose|e: int| 1 <= e <= 9 && a(var(p, e));
        assert(h[p] == e as u8);
        if d < e {
            lemma_present_clause_true(a, cnf, exclusion(p, d, p, e));
            lemma_exclusion_true(a, p, d, p, e);
        } else if e < d {
            lemma_present_clause_true(a, cnf, exclusion(p, e, p, d));
            lemma_exclusion_true(a, p, e, p, d);
        }
    }
    assert(g =~= h);
}

/// Pushing a clause keeps the rules already present.
proof fn lemma_rules_after_push(puzzle: Seq<u8>, cnf: Seq<Vec<i32>>, cl: Vec<i32>)
    requires
        forall|p: int| 0 <= p < 81 ==> #[trigger] cell_rules_present(puzzle, cnf, p),
    ensures
        forall|p: int| 0 <= p < 81 ==> #[trigger] cell_rules_present(puzzle, cnf.push(cl), p),
{
    assert forall|c: Seq<i32>| #[trigger] has_clause(cnf, c) implies has_clause(cnf.push(cl), c) by {
        let i = choose|i: int| 0 <= i < cnf.len() && cnf[i]@ == c;
        assert(cnf.push(cl)[i]@ == c);
    }
    assert forall|p: int| 0 <= p < 81 implies #[trigger] cell_rules_present(puzzle, cnf.push(cl), p) by {
        lemma_keeps_rules(puzzle, cnf, cnf.push(cl), p);
    }
}

proof fn lemma_completion_satisfies(puzzle: Seq<u8>, cnf: Seq<Vec<i32>>, c: Seq<u8>)
    requires
        all_kept(puzzle, cnf),
        is_completion(puzzle, c),
    ensures
        cnf_true(grid_assignment(c), clauses_of(cnf)),
{
    assert forall|i: int| 0 <= i < clauses_of(cnf).len() implies clause_true(
        grid_assignment(c),
        #[trigger] clauses_of(cnf)[i],
    ) by {
        assert(kept_by_completions(puzzle, cnf[i]@));
    }
}

/// Decides whether `puzzle` has exactly one completion: solve its clauses,
/// then solve them again with the added clause that some cell differs from
/// the first answer. Each solve works on freshly built clauses. Given what
/// the solver promises of its answers, `SolverFailure` comes back only when
/// one of the two solves failed (`first_outcome`, `second_verdict`).
pub fn check_unique(puzzle: &Grid) -> (r: Verdict)
    requires
        puzzle.wf(),
    ensures
        r matches Verdict::Unique(m) ==> m.wf() && unique_completion(puzzle@, m@),
        r is NotUnique ==> several_completions(puzzle@),
        r is Unsolvable ==> no_completion(puzzle@),
        is_solution(puzzle@) ==> r is SolverFailure || (r matches Verdict::Unique(m) && m@
            == puzzle@),
        has_unique_completion(puzzle@) ==> r is Unique || r is SolverFailure,
        several_completions(puzzle@) ==> r is NotUnique || r is SolverFailure,
        no_completion(puzzle@) ==> r is Unsolvable || r is SolverFailure,
{
    proof {
        lemma_completion_counts_exclusive(puzzle@);
        if is_solution(puzzle@) {
            lemma_full_grid_unique(puzzle@);
        }
    }
    let first = encode(puzzle);
    let ghost first_view = first@;
    proof {
        lemma_all_kept_in_range(puzzle@, first_view);
    }
    let answer = solve_clauses(first);
    proof {
        if answer is Unsat {
            assert forall|c: Seq<u8>| !#[trigger] is_completion(puzzle@, c) by {
                if is_completion(puzzle@, c) {
                    lemma_completion_satisfies(puzzle@, first_view, c);
                }
            }
        }
        if let SatAnswer::Sat(model) = &answer {
            lemma_model_completes(puzzle@, first_view, model@);
        }
    }
    let m = match first_outcome(puzzle, answer) {
        Ok(m) => m,
        Err(v) => {
            return v;
        },
    };
    let mut second = encode(puzzle);
    let ghost kept_view = second@;
    let block = blocking_clause(&m);
    let ghost block_view = block@;
    second.push(block);
    let ghost second_view = second@;
    proof {
        lemma_all_kept_in_range(puzzle@, kept_view);
        assert forall|i: int| 0 <= i < clauses_of(second_view).len() implies clause_in_range(
            #[trigger] clauses_of(second_view)[i],
        ) by {
            if i < kept_view.len() {
                assert(clauses_of(second_view)[i] == clauses_of(kept_view)[i]);
            } else {
                assert(clauses_of(second_view)[i] == block_view);
            }
        }
    }
    let answer = solve_clauses(second);
    proof {
        if let SatAnswer::Sat(other) = &answer {
            lemma_rules_after_push(puzzle@, kept_view, block);
            assert(second_view == kept_view.push(block));
            lemma_model_completes(puzzle@, second_view, other@);
            let a = model_assignment(other@);
            assert(clauses_of(second_view)[kept_view.len() as int] == block_view);
            let j = choose|j: int| 0 <= j < block_view.len() && lit_true(a, #[trigger] block_view[j] as int);
            lemma_var(m@, j, m@[j] as int);
            assert(!a(var(j, m@[j] as int)));
            assert(a(var(j, model_grid(other@)[j] as int)));
            assert(model_grid(other@)[j] != m@[j]);
        }
        if answer is Unsat {
            assert forall|c: Seq<u8>| #[trigger] is_completion(puzzle@, c) implies c == m@ by {
                if c != m@ {
                    lemma_completion_satisfies(puzzle@, kept_view, c);
                    let a = grid_assignment(c);
                    assert forall|i: int| 0 <= i < clauses_of(second_view).len() implies clause_true(
                        a,
                        #[trigger] clauses_of(second_view)[i],
                    ) by {
                        if i < kept_view.len() {
                            assert(clauses_of(second_view)[i] == clauses_of(kept_view)[i]);
                        } else {
                            assert(clauses_of(second_view)[i] == block_view);
                            assert(is_solution(c));
                        }
                    }
                    assert(cnf_true(a, clauses_of(second_view)));
                }
            }
        }
    }
    second_verdict(puzzle, m, answer)
}

} // verus!
