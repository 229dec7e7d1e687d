use vstd::prelude::*;

use good_lp::solvers::{ResolutionError, Solution, SolverModel};

use crate::asg::{
    area_sat, is_candidate, lemma_merge_solution, lemma_sum_values_congruence, no_conflicts,
    spec_conflict, spec_conflict_asg, values_in_range, Assignment,
};
use crate::kenken::{in_grid, same_axis, Area, Field, KenKen};
use crate::validate::Validator;

verus! {

/// Why a solve call failed.
#[derive(Debug, Clone, Copy, PartialEq, Eq, Structural)]
pub enum SolveError {
    /// The puzzle is not well-formed.
    MalformedCage,
    /// Some cage admits no locally valid filling.
    NoCandidates,
    /// The backend reported that no combination of candidates fits.
    Unsatisfiable,
    /// The backend failed, or returned an answer that does not stand up
    /// to checking.
    SolverBackendError,
}

#[verifier::external_type_specification]
#[verifier::external_body]
pub struct ExProblemVariables(good_lp::ProblemVariables);

#[verifier::external_type_specification]
#[verifier::external_body]
pub struct ExVariable(good_lp::Variable);

#[verifier::external_type_specification]
#[verifier::external_body]
pub struct ExExpression(good_lp::Expression);

#[verifier::external_type_specification]
#[verifier::external_body]
pub struct ExConstraint(good_lp::Constraint);

#[verifier::external_type_specification]
#[verifier::external_body]
pub struct ExMicroLpProblem(good_lp::solvers::microlp::MicroLpProblem);

#[verifier::external_type_specification]
#[verifier::external_body]
pub struct ExMicroLpSolution(good_lp::solvers::microlp::MicroLpSolution);

// Names for what the backend's opaque values hold. A valuation is a map
// from variable positions to the integer values a choice would give them.

/// The position of a decision variable in the pool that created it.
pub uninterp spec fn var_index(v: good_lp::Variable) -> int;

/// How many variables a pool holds.
pub uninterp spec fn pool_len(p: good_lp::ProblemVariables) -> int;

/// Every variable of the pool is a 0/1 integer variable.
pub uninterp spec fn pool_binary(p: good_lp::ProblemVariables) -> bool;

/// The value of a linear expression when each variable position takes
/// the value `vals` gives it.
pub uninterp spec fn expr_sum(e: good_lp::Expression, vals: Map<int, int>) -> int;

/// All variable positions of the expression lie below this bound.
pub uninterp spec fn expr_width(e: good_lp::Expression) -> int;

/// The expression's coefficients and constant are integers.
pub uninterp spec fn expr_integral(e: good_lp::Expression) -> bool;

/// The valuation `vals` satisfies the constraint.
pub uninterp spec fn constraint_holds(c: good_lp::Constraint, vals: Map<int, int>) -> bool;

/// All variable positions of the constraint lie below this bound.
pub uninterp spec fn constraint_width(c: good_lp::Constraint) -> int;

/// How many variables the model holds.
pub uninterp spec fn model_width(m: good_lp::solvers::microlp::MicroLpProblem) -> int;

/// Every variable of the model is a 0/1 integer variable.
pub uninterp spec fn model_binary(m: good_lp::solvers::microlp::MicroLpProblem) -> bool;

/// The valuation `vals` satisfies every constraint added to the model.
pub uninterp spec fn model_sat(
    m: good_lp::solvers::microlp::MicroLpProblem,
    vals: Map<int, int>,
) -> bool;

/// How many variables the solution assigns.
pub uninterp spec fn solution_width(s: good_lp::solvers::microlp::MicroLpSolution) -> int;

/// Every integer variable of the solution carries a value that rounds
/// cleanly to its integer.
pub uninterp spec fn solution_readable(s: good_lp::solvers::microlp::MicroLpSolution) -> bool;

/// `vals` gives every variable position below `n` a 0/1 value.
pub open spec fn binary_on(vals: Map<int, int>, n: int) -> bool {
    forall|i: int| 0 <= i < n ==> #[trigger] vals.dom().contains(i) && 0 <= vals[i] <= 1
}

/// Relies on good_lp::ProblemVariables::new: a fresh, empty variable pool.
#[verifier::external_body]
fn new_problem_variables() -> (r: good_lp::ProblemVariables)
    ensures
        pool_len(r) == 0,
        pool_binary(r),
{
    good_lp::ProblemVariables::new()
}

/// Relies on good_lp::variable and good_lp::ProblemVariables::add:
/// registers one fresh 0/1 decision variable at the next position of the
/// pool and hands back its handle.
#[verifier::external_body]
fn add_binary_variable(vars: &mut good_lp::ProblemVariables) -> (r: good_lp::Variable)
    ensures
        var_index(r) == pool_len(*old(vars)),
        pool_len(*final(vars)) == pool_len(*old(vars)) + 1,
        pool_binary(*old(vars)) ==> pool_binary(*final(vars)),
{
    vars.add(good_lp::variable().binary())
}

/// Relies on good_lp::Expression::from: the constant zero expression.
#[verifier::external_body]
fn zero_expression() -> (r: good_lp::Expression)
    ensures
        expr_width(r) == 0,
        expr_integral(r),
        forall|vals: Map<int, int>| #[trigger] expr_sum(r, vals) == 0,
{
    good_lp::Expression::from(0)
}

/// Relies on good_lp's `Add` impl for expressions: `e` extended by `v`
/// with coefficient one.
#[verifier::external_body]
fn expression_plus_var(e: good_lp::Expression, v: good_lp::Variable) -> (r: good_lp::Expression)
    ensures
        expr_width(r) == (if expr_width(e) >= var_index(v) + 1 {
            expr_width(e)
        } else {
            var_index(v) + 1
        }),
        expr_integral(e) ==> expr_integral(r),
        forall|vals: Map<int, int>|
            vals.dom().contains(var_index(v)) ==> #[trigger] expr_sum(r, vals) == expr_sum(
                e,
                vals,
            ) + vals[var_index(v)],
{
    e + v
}

/// Relies on good_lp::Expression::eq: the linear constraint `e == k`.
#[verifier::external_body]
fn expression_eq(e: good_lp::Expression, k: i32) -> (r: good_lp::Constraint)
    requires
        expr_integral(e),
    ensures
        constraint_width(r) == expr_width(e),
        forall|vals: Map<int, int>|
            #[trigger] constraint_holds(r, vals) <==> expr_sum(e, vals) == k,
{
    e.eq(k)
}

/// Relies on good_lp::Expression::leq: the linear constraint `e <= k`.
#[verifier::external_body]
fn expression_leq(e: good_lp::Expression, k: i32) -> (r: good_lp::Constraint)
    requires
        expr_integral(e),
    ensures
        constraint_width(r) == expr_width(e),
        forall|vals: Map<int, int>|
            #[trigger] constraint_holds(r, vals) <==> expr_sum(e, vals) <= k,
{
    e.leq(k)
}

/// Relies on good_lp::ProblemVariables::minimise and
/// good_lp::variable::UnsolvedProblem::using: a model for the microlp
/// backend over the pool's variables, minimising the given objective,
/// with no constraints yet.
#[verifier::external_body]
fn make_model(
    vars: good_lp::ProblemVariables,
    objective: good_lp::Expression,
) -> (r: good_lp::solvers::microlp::MicroLpProblem)
    ensures
        model_width(r) == pool_len(vars),
        pool_binary(vars) ==> model_binary(r),
        forall|vals: Map<int, int>| #[trigger] model_sat(r, vals),
{
    vars.minimise(objective).using(good_lp::solvers::microlp::microlp)
}

/// Relies on good_lp::solvers::SolverModel::add_constraint for the
/// microlp backend; the constraint must only name variables the model
/// holds, else the adapter indexes out of bounds.
#[verifier::external_body]
fn model_add_constraint(
    model: &mut good_lp::solvers::microlp::MicroLpProblem,
    c: good_lp::Constraint,
)
    requires
        constraint_width(c) <= model_width(*old(model)),
    ensures
        model_width(*final(model)) == model_width(*old(model)),
        model_binary(*old(model)) ==> model_binary(*final(model)),
        forall|vals: Map<int, int>|
            #[trigger] model_sat(*final(model), vals) <==> (model_sat(*old(model), vals)
                && constraint_holds(c, vals)),
{
    model.add_constraint(c);
}

/// Relies on good_lp::solvers::SolverModel::solve for the microlp
/// backend: hands back either a solution over the model's variables or
/// the backend's failure, with infeasibility mapped to `Unsatisfiable`
/// and everything else to `SolverBackendError`. Per microlp's contract,
/// infeasibility is reported only when no feasible assignment exists, so
/// for an all-binary model an `Unsatisfiable` answer rules out every 0/1
/// valuation; nothing is assumed of the values a returned solution holds.
#[verifier::external_body]
fn solve_model(model: good_lp::solvers::microlp::MicroLpProblem) -> (r: Result<
    good_lp::solvers::microlp::MicroLpSolution,
    SolveError,
>)
    ensures
        r matches Err(e) ==> (e == SolveError::Unsatisfiable || e
            == SolveError::SolverBackendError),
        (r matches Err(e) && e == SolveError::Unsatisfiable && model_binary(model)) ==> !(exists|
            vals: Map<int, int>,
        |
            binary_on(vals, model_width(model)) && #[trigger] model_sat(model, vals)),
        r matches Ok(s) ==> solution_width(s) == model_width(model) && solution_readable(s),
{
    match model.solve() {
        Ok(s) => Ok(s),
        Err(ResolutionError::Infeasible) => Err(SolveError::Unsatisfiable),
        Err(ResolutionError::Unbounded) => Err(SolveError::SolverBackendError),
        Err(ResolutionError::Other(_)) => Err(SolveError::SolverBackendError),
        Err(ResolutionError::Str(_)) => Err(SolveError::SolverBackendError),
    }
}

/// Relies on good_lp::solvers::Solution::value for the microlp backend:
/// the value the backend gave the variable, rounded to the nearest
/// integer. The variable must be one of the solution's and the solution
/// cleanly readable, else the read panics; nothing is assumed of the
/// value, the caller checks what it implies.
#[verifier::external_body]
fn solution_value_rounded(
    sol: &good_lp::solvers::microlp::MicroLpSolution,
    v: good_lp::Variable,
) -> i64
    requires
        0 <= var_index(v) < solution_width(*sol),
        solution_readable(*sol),
{
    sol.value(v).round() as i64
}

/// The cage admits at least one locally valid filling.
pub open spec fn area_has_candidate(area: Area, size: u16) -> bool {
    exists|m: Map<Field, u16>| is_candidate(area, size, m)
}

/// Every cage of the puzzle admits at least one candidate.
pub open spec fn all_areas_have_candidates(k: KenKen) -> bool {
    forall|i: int|
        0 <= i < k.areas@.len() ==> area_has_candidate(#[trigger] k.areas@[i], k.size)
}

/// A complete, consistent filling of the puzzle: a value on every grid
/// cell and nowhere else, every value within the playable range, no two
/// equal values on a shared row or column, and every cage's target met.
pub open spec fn is_solution(k: KenKen, m: Map<Field, u16>) -> bool {
    &&& forall|f: Field| #[trigger] m.dom().contains(f) <==> in_grid(f, k.size)
    &&& values_in_range(m, k.size)
    &&& no_conflicts(m)
    &&& forall|i: int| 0 <= i < k.areas@.len() ==> area_sat(#[trigger] k.areas@[i], m)
}

/// One cage's block in the flat candidate list: at least one entry, all
/// entries candidates of the cage, every candidate present, none twice.
spec fn group_ok(area: Area, size: u16, cands: Seq<Assignment>, g: (usize, usize)) -> bool {
    let s = g.0 as int;
    let l = g.1 as int;
    &&& l >= 1
    &&& s + l <= cands.len()
    &&& forall|t: int| s <= t < s + l ==> is_candidate(area, size, #[trigger] cands[t]@)
    &&& forall|m: Map<Field, u16>|
        #[trigger] is_candidate(area, size, m) ==> exists|t: int|
            s <= t < s + l && #[trigger] cands[t]@ == m
    &&& forall|t1: int, t2: int| s <= t1 < t2 < s + l ==> cands[t1]@ != cands[t2]@
}

/// The sum of the values a valuation gives the positions `s..s+l`.
spec fn group_sum(s: int, l: int, vals: Map<int, int>) -> int
    decreases l,
{
    if l <= 0 {
        0
    } else {
        group_sum(s, l - 1, vals) + vals[s + l - 1]
    }
}

/// What one model constraint demands of a valuation: a descriptor
/// `(0, s, l)` stands for "exactly one of the positions `s..s+l`", a
/// descriptor `(1, a, b)` for "at most one of positions `a` and `b`".
spec fn rule_holds(d: (int, int, int), vals: Map<int, int>) -> bool {
    if d.0 == 0 {
        group_sum(d.1, d.2, vals) == 1
    } else {
        vals[d.1] + vals[d.2] <= 1
    }
}

proof fn lemma_group_sum_zero(s: int, l: int, vals: Map<int, int>)
    requires
        forall|u: int| s <= u < s + l ==> #[trigger] vals[u] == 0,
    ensures
        group_sum(s, l, vals) == 0,
    decreases l,
{
    if l <= 0 {
    } else {
        lemma_group_sum_zero(s, l - 1, vals);
    }
}

proof fn lemma_group_sum_single(s: int, l: int, vals: Map<int, int>, t: int)
    requires
        s <= t < s + l,
        vals[t] == 1,
        forall|u: int| s <= u < s + l && u != t ==> #[trigger] vals[u] == 0,
    ensures
        group_sum(s, l, vals) == 1,
    decreases l,
{
    if t == s + l - 1 {
        lemma_group_sum_zero(s, l - 1, vals);
    } else {
        lemma_group_sum_single(s, l - 1, vals, t);
    }
}

/// The candidate at position `q` of the flat list is exactly what the
/// grid-wide filling `msol` places on that candidate's fields.
spec fn picks_candidate(cands: Seq<Assignment>, msol: Map<Field, u16>, q: int) -> bool {
    cands[q]@ == msol.restrict(cands[q]@.dom())
}

/// A grid-wide solution, cut down to one cage's fields, is one of that
/// cage's candidates.
proof fn lemma_solution_restricts_to_candidate(k: KenKen, msol: Map<Field, u16>, j: int)
    requires
        k.wf(),
        is_solution(k, msol),
        0 <= j < k.areas@.len(),
    ensures
        is_candidate(k.areas@[j], k.size, msol.restrict(k.areas@[j].fields@.to_set())),
{
    let area = k.areas@[j];
    let fs = area.fields@.to_set();
    let r = msol.restrict(fs);
    assert forall|f: Field| #[trigger] fs.contains(f) implies msol.dom().contains(f) by {
        assert(area.fields@.contains(f));
        let t = choose|t: int| 0 <= t < area.fields@.len() && area.fields@[t] == f;
        assert(in_grid(area.fields@[t], k.size));
    }
    assert(r.dom() =~= fs);
    assert forall|f: Field| #[trigger] area.fields@.contains(f) implies r[f] == msol[f] by {
        assert(fs.contains(f));
    }
    assert(area_sat(area, msol));
    lemma_sum_values_congruence(area.fields@, msol, r);
    assert(area.fields@.contains(area.fields@[0]));
    if area.fields@.len() >= 2 {
        assert(area.fields@.contains(area.fields@[1]));
    }
    assert(area_sat(area, r));
    assert forall|f: Field| r.dom().contains(f) implies 1 <= #[trigger] r[f] <= k.size by {
        assert(msol.dom().contains(f));
        assert(r[f] == msol[f]);
    }
    assert forall|f: Field, g: Field|
        r.dom().contains(f) && r.dom().contains(g) && f != g && same_axis(f, g) implies
        #[trigger] r[f] != #[trigger] r[g] by {
        assert(msol.dom().contains(f) && msol.dom().contains(g));
        assert(r[f] == msol[f] && r[g] == msol[g]);
    }
}

/// Builds the constraint "exactly one of the variables `s..s+l` is 1".
fn group_constraint(vars: &Vec<good_lp::Variable>, s: usize, l: usize) -> (c:
    good_lp::Constraint)
    requires
        s + l <= vars@.len(),
        forall|k: int| 0 <= k < vars@.len() ==> var_index(#[trigger] vars@[k]) == k,
    ensures
        constraint_width(c) <= vars@.len(),
        forall|vals: Map<int, int>|
            binary_on(vals, vars@.len() as int) ==> (#[trigger] constraint_holds(c, vals)
                <==> group_sum(s as int, l as int, vals) == 1),
{
    let ghost n = vars@.len() as int;
    // materialises that the variable list length fits a usize
    let _nv = vars.len();
    let mut e = zero_expression();
    let mut t: usize = s;
    while t < s + l
        invariant
            s + l <= vars@.len(),
            vars@.len() <= usize::MAX,
            s <= t <= s + l,
            forall|k: int| 0 <= k < vars@.len() ==> var_index(#[trigger] vars@[k]) == k,
            n == vars@.len(),
            expr_integral(e),
            expr_width(e) <= n,
            forall|vals: Map<int, int>|
                binary_on(vals, n) ==> #[trigger] expr_sum(e, vals) == group_sum(
                    s as int,
                    t - s,
                    vals,
                ),
        decreases s + l - t,
    {
        let ghost e0 = e;
        e = expression_plus_var(e, vars[t]);
        proof {
            assert(var_index(vars@[t as int]) == t);
            assert forall|vals: Map<int, int>| binary_on(vals, n) implies #[trigger] expr_sum(
                e,
                vals,
            ) == group_sum(s as int, t - s + 1, vals) by {
                assert(vals.dom().contains(t as int));
                assert(expr_sum(e0, vals) == group_sum(s as int, t - s, vals));
            }
        }
        t += 1;
    }
    let c = expression_eq(e, 1);
    proof {
        assert forall|vals: Map<int, int>| binary_on(vals, n) implies (
        #[trigger] constraint_holds(c, vals) <==> group_sum(s as int, l as int, vals) == 1) by {
            assert(expr_sum(e, vals) == group_sum(s as int, l as int, vals));
        }
    }
    c
}

/// Builds the constraint "at most one of the variables `a` and `b` is 1".
fn pair_constraint(vars: &Vec<good_lp::Variable>, a: usize, b: usize) -> (c: good_lp::Constraint)
    requires
        a < vars@.len(),
        b < vars@.len(),
        forall|k: int| 0 <= k < vars@.len() ==> var_index(#[trigger] vars@[k]) == k,
    ensures
        constraint_width(c) <= vars@.len(),
        forall|vals: Map<int, int>|
            binary_on(vals, vars@.len() as int) ==> (#[trigger] constraint_holds(c, vals)
                <==> vals[a as int] + vals[b as int] <= 1),
{
    let ghost n = vars@.len() as int;
    let e0 = zero_expression();
    let e1 = expression_plus_var(e0, vars[a]);
    let e = expression_plus_var(e1, vars[b]);
    let c = expression_leq(e, 1);
    proof {
        assert forall|vals: Map<int, int>| binary_on(vals, n) implies (
        #[trigger] constraint_holds(c, vals) <==> vals[a as int] + vals[b as int] <= 1) by {
            assert(vals.dom().contains(a as int));
            assert(vals.dom().contains(b as int));
            assert(expr_sum(e1, vals) == vals[a as int]);
            assert(expr_sum(e, vals) == vals[a as int] + vals[b as int]);
        }
    }
    c
}

/// Solves the puzzle: enumerates every cage's candidates, formulates
/// choosing exactly one candidate per cage without conflicts as a 0/1
/// linear program, asks the backend for a choice, re-checks that choice,
/// and merges it into one grid-wide assignment. An `Unsatisfiable`
/// answer is sound: it is returned only when the puzzle truly has no
/// solution.
pub fn solve(kenken: &KenKen) -> (r: Result<Assignment, SolveError>)
    ensures
        (r matches Err(e) && e == SolveError::MalformedCage) <==> !kenken.wf(),
        (r matches Err(e) && e == SolveError::NoCandidates) <==> (kenken.wf()
            && !all_areas_have_candidates(*kenken)),
        r matches Ok(a) ==> kenken.wf() && is_solution(*kenken, a@),
        (r matches Err(e) && e == SolveError::Unsatisfiable) ==> !(exists|m: Map<Field, u16>|
            is_solution(*kenken, m)),
        (r matches Err(e) && (e == SolveError::Unsatisfiable || e
            == SolveError::SolverBackendError)) ==> kenken.wf() && all_areas_have_candidates(
            *kenken,
        ),
{
    if kenken.validate().is_err() {
        return Err(SolveError::MalformedCage);
    }
    let na = kenken.areas.len();
    let size = kenken.size;

    // Candidate generation, one block of the flat list per cage.
    let mut cands: Vec<Assignment> = Vec::new();
    let mut groups: Vec<(usize, usize)> = Vec::new();
    let mut i: usize = 0;
    while i < na
        invariant
            0 <= i <= na,
            na == kenken.areas@.len(),
            size == kenken.size,
            kenken.wf(),
            groups@.len() == i,
            forall|j: int|
                0 <= j < i ==> group_ok(kenken.areas@[j], size, cands@, #[trigger] groups@[j]),
        decreases na - i,
    {
        let mut cs = kenken.areas[i].possible_assignments(size);
        if cs.len() == 0 {
            proof {
                assert(!area_has_candidate(kenken.areas@[i as int], size)) by {
                    if area_has_candidate(kenken.areas@[i as int], size) {
                        let m = choose|m: Map<Field, u16>|
                            is_candidate(kenken.areas@[i as int], size, m);
                        assert(is_candidate(kenken.areas@[i as int], size, m));
                    }
                }
            }
            return Err(SolveError::NoCandidates);
        }
        let s = cands.len();
        let l = cs.len();
        let ghost old_cands = cands@;
        let ghost block = cs@;
        cands.append(&mut cs);
        groups.push((s, l));
        proof {
            assert(cands@ == old_cands + block);
            assert forall|j: int|
                0 <= j < i + 1 implies group_ok(
                kenken.areas@[j],
                size,
                cands@,
                #[trigger] groups@[j],
            ) by {
                if j < i {
                    let g = groups@[j];
                    assert(group_ok(kenken.areas@[j], size, old_cands, g));
                    assert forall|t: int|
                        g.0 <= t < g.0 + g.1 implies is_candidate(
                        kenken.areas@[j],
                        size,
                        #[trigger] cands@[t]@,
                    ) by {
                        assert(cands@[t] == old_cands[t]);
                    }
                    assert forall|m: Map<Field, u16>|
                        #[trigger] is_candidate(kenken.areas@[j], size, m) implies exists|t: int|
                        g.0 <= t < g.0 + g.1 && #[trigger] cands@[t]@ == m by {
                        let t = choose|t: int|
                            g.0 <= t < g.0 + g.1 && #[trigger] old_cands[t]@ == m;
                        assert(cands@[t]@ == m);
                    }
                    assert forall|t1: int, t2: int|
                        g.0 <= t1 < t2 < g.0 + g.1 implies cands@[t1]@ != cands@[t2]@ by {
                        assert(cands@[t1] == old_cands[t1] && cands@[t2] == old_cands[t2]);
                    }
                } else {
                    assert(groups@[j] == (s, l));
                    assert forall|t: int|
                        s <= t < s + l implies is_candidate(
                        kenken.areas@[j],
                        size,
                        #[trigger] cands@[t]@,
                    ) by {
                        assert(cands@[t] == block[t - s]);
                    }
                    assert forall|m: Map<Field, u16>|
                        #[trigger] is_candidate(kenken.areas@[j], size, m) implies exists|t: int|
                        s <= t < s + l && #[trigger] cands@[t]@ == m by {
                        let t0 = choose|t0: int| 0 <= t0 < block.len() && #[trigger] block[t0]@ == m;
                        assert(cands@[s + t0]@ == m);
                    }
                    assert forall|t1: int, t2: int|
                        s <= t1 < t2 < s + l implies cands@[t1]@ != cands@[t2]@ by {
                        assert(cands@[t1] == block[t1 - s] && cands@[t2] == block[t2 - s]);
                    }
                }
            }
        }
        i += 1;
    }
    proof {
        assert(all_areas_have_candidates(*kenken)) by {
            assert forall|j: int|
                0 <= j < kenken.areas@.len() implies area_has_candidate(
                #[trigger] kenken.areas@[j],
                size,
            ) by {
                let g = groups@[j];
                assert(group_ok(kenken.areas@[j], size, cands@, g));
                assert(is_candidate(kenken.areas@[j], size, cands@[g.0 as int]@));
            }
        }
    }

    // One 0/1 decision variable per candidate.
    let mut pool = new_problem_variables();
    let nc = cands.len();
    let mut vars: Vec<good_lp::Variable> = Vec::new();
    let mut t: usize = 0;
    while t < nc
        invariant
            0 <= t <= nc,
            vars@.len() == t,
            pool_len(pool) == t,
            pool_binary(pool),
            forall|k: int| 0 <= k < t ==> var_index(#[trigger] vars@[k]) == k,
        decreases nc - t,
    {
        let v = add_binary_variable(&mut pool);
        vars.push(v);
        t += 1;
    }

    // Exactly one candidate per cage; at most one of any conflicting
    // pair. Each constraint's demand on a 0/1 valuation is recorded.
    let ghost mut cdesc: Seq<(int, int, int)> = Seq::empty();
    let mut constraints: Vec<good_lp::Constraint> = Vec::new();
    let mut i: usize = 0;
    while i < na
        invariant
            0 <= i <= na,
            na == groups@.len(),
            vars@.len() == nc,
            nc == cands@.len(),
            forall|j: int| 0 <= j < na ==> #[trigger] groups@[j].0 + groups@[j].1 <= nc,
            forall|k: int| 0 <= k < nc ==> var_index(#[trigger] vars@[k]) == k,
            cdesc.len() == constraints@.len(),
            constraints@.len() == i,
            forall|j: int|
                0 <= j < i ==> #[trigger] cdesc[j] == (0int, groups@[j].0 as int, groups@[j].1 as int),
            forall|k: int|
                0 <= k < constraints@.len() ==> constraint_width(#[trigger] constraints@[k]) <= nc,
            forall|k: int, vals: Map<int, int>|
                0 <= k < constraints@.len() && binary_on(vals, nc as int) ==> (
                #[trigger] constraint_holds(constraints@[k], vals) <==> rule_holds(
                    cdesc[k],
                    vals,
                )),
        decreases na - i,
    {
        let (s, l) = groups[i];
        let c = group_constraint(&vars, s, l);
        let ghost prev_cons = constraints@;
        constraints.push(c);
        proof {
            cdesc = cdesc.push((0int, s as int, l as int));
            assert forall|k: int, vals: Map<int, int>|
                0 <= k < constraints@.len() && binary_on(vals, nc as int) implies (
            #[trigger] constraint_holds(constraints@[k], vals) <==> rule_holds(
                cdesc[k],
                vals,
            )) by {
                if k < prev_cons.len() {
                    assert(constraints@[k] == prev_cons[k]);
                } else {
                    assert(constraints@[k] == c);
                    assert(cdesc[k] == (0int, s as int, l as int));
                }
            }
        }
        i += 1;
    }
    let mut a: usize = 0;
    while a < nc
        invariant
            0 <= a <= nc,
            nc == cands@.len(),
            vars@.len() == nc,
            na == groups@.len(),
            forall|k: int| 0 <= k < nc ==> var_index(#[trigger] vars@[k]) == k,
            cdesc.len() == constraints@.len(),
            cdesc.len() >= na,
            forall|j: int|
                0 <= j < na ==> #[trigger] cdesc[j] == (0int, groups@[j].0 as int, groups@[j].1 as int),
            forall|k: int|
                na <= k < cdesc.len() ==> (#[trigger] cdesc[k]).0 == 1 && 0 <= cdesc[k].1 < nc
                    && 0 <= cdesc[k].2 < nc && cdesc[k].1 != cdesc[k].2 && spec_conflict_asg(
                    cands@[cdesc[k].1]@,
                    cands@[cdesc[k].2]@,
                ),
            forall|k: int|
                0 <= k < constraints@.len() ==> constraint_width(#[trigger] constraints@[k]) <= nc,
            forall|k: int, vals: Map<int, int>|
                0 <= k < constraints@.len() && binary_on(vals, nc as int) ==> (
                #[trigger] constraint_holds(constraints@[k], vals) <==> rule_holds(
                    cdesc[k],
                    vals,
                )),
        decreases nc - a,
    {
        let mut b: usize = 0;
        while b < nc
            invariant
                0 <= a < nc,
                0 <= b <= nc,
                nc == cands@.len(),
                vars@.len() == nc,
                na == groups@.len(),
                forall|k: int| 0 <= k < nc ==> var_index(#[trigger] vars@[k]) == k,
                cdesc.len() == constraints@.len(),
                cdesc.len() >= na,
                forall|j: int|
                    0 <= j < na ==> #[trigger] cdesc[j] == (0int, groups@[j].0 as int, groups@[j].1 as int),
                forall|k: int|
                    na <= k < cdesc.len() ==> (#[trigger] cdesc[k]).0 == 1 && 0 <= cdesc[k].1 < nc
                        && 0 <= cdesc[k].2 < nc && cdesc[k].1 != cdesc[k].2 && spec_conflict_asg(
                        cands@[cdesc[k].1]@,
                        cands@[cdesc[k].2]@,
                    ),
                forall|k: int|
                    0 <= k < constraints@.len() ==> constraint_width(#[trigger] constraints@[k])
                        <= nc,
                forall|k: int, vals: Map<int, int>|
                    0 <= k < constraints@.len() && binary_on(vals, nc as int) ==> (
                    #[trigger] constraint_holds(constraints@[k], vals) <==> rule_holds(
                        cdesc[k],
                        vals,
                    )),
            decreases nc - b,
        {
            if a != b && cands[a].conflict_asg(&cands[b]) {
                let c = pair_constraint(&vars, a, b);
                let ghost prev_cons = constraints@;
                constraints.push(c);
                proof {
                    cdesc = cdesc.push((1int, a as int, b as int));
                    assert forall|k: int, vals: Map<int, int>|
                        0 <= k < constraints@.len() && binary_on(vals, nc as int) implies (
                    #[trigger] constraint_holds(constraints@[k], vals) <==> rule_holds(
                        cdesc[k],
                        vals,
                    )) by {
                        if k < prev_cons.len() {
                            assert(constraints@[k] == prev_cons[k]);
                        } else {
                            assert(constraints@[k] == c);
                            assert(cdesc[k] == (1int, a as int, b as int));
                        }
                    }
                }
            }
            b += 1;
        }
        a += 1;
    }

    let mut model = make_model(pool, zero_expression());
    let ghost ncon = cdesc.len() as int;
    while constraints.len() > 0
        invariant
            model_width(model) == nc,
            model_binary(model),
            nc == cands@.len(),
            na == groups@.len(),
            cdesc.len() == ncon,
            constraints@.len() <= ncon,
            forall|k: int|
                0 <= k < constraints@.len() ==> constraint_width(#[trigger] constraints@[k]) <= nc,
            forall|k: int, vals: Map<int, int>|
                0 <= k < constraints@.len() && binary_on(vals, nc as int) ==> (
                #[trigger] constraint_holds(constraints@[k], vals) <==> rule_holds(
                    cdesc[k],
                    vals,
                )),
            forall|vals: Map<int, int>|
                binary_on(vals, nc as int) ==> (#[trigger] model_sat(model, vals) <==> (forall|
                    k: int,
                |
                    constraints@.len() <= k < ncon ==> rule_holds(#[trigger] cdesc[k], vals))),
        decreases constraints@.len(),
    {
        let ghost prev_cons = constraints@;
        let ghost prev_model = model;
        let c = match constraints.pop() {
            Some(c) => c,
            None => {
                return Err(SolveError::SolverBackendError);
            },
        };
        model_add_constraint(&mut model, c);
        proof {
            let ln = constraints@.len() as int;
            assert(c == prev_cons[ln]);
            assert forall|vals: Map<int, int>| binary_on(vals, nc as int) implies (
            #[trigger] model_sat(model, vals) <==> (forall|k: int|
                ln <= k < ncon ==> rule_holds(#[trigger] cdesc[k], vals))) by {
                assert(model_sat(model, vals) <==> (model_sat(prev_model, vals)
                    && constraint_holds(c, vals)));
                assert(constraint_holds(prev_cons[ln], vals) <==> rule_holds(cdesc[ln], vals));
                if model_sat(model, vals) {
                    assert forall|k: int| ln <= k < ncon implies rule_holds(
                        #[trigger] cdesc[k],
                        vals,
                    ) by {
                        if k > ln {
                            assert(model_sat(prev_model, vals));
                        }
                    }
                }
                if forall|k: int| ln <= k < ncon ==> rule_holds(#[trigger] cdesc[k], vals) {
                    assert(rule_holds(cdesc[ln], vals));
                    assert forall|k: int| ln + 1 <= k < ncon implies rule_holds(
                        #[trigger] cdesc[k],
                        vals,
                    ) by {}
                    assert(model_sat(prev_model, vals));
                }
            }
        }
    }

    let sol = match solve_model(model) {
        Ok(s) => s,
        Err(e) => {
            proof {
                if e == SolveError::Unsatisfiable {
                    assert forall|msol: Map<Field, u16>| !is_solution(*kenken, msol) by {
                        if is_solution(*kenken, msol) {
                            let vals = Map::<int, int>::new(
                                |q: int| 0 <= q < nc,
                                |q: int|
                                    if picks_candidate(cands@, msol, q) {
                                        1int
                                    } else {
                                        0int
                                    },
                            );
                            assert(binary_on(vals, nc as int)) by {
                                assert forall|q: int| 0 <= q < nc implies #[trigger] vals.dom().contains(
                                    q,
                                ) && 0 <= vals[q] <= 1 by {}
                            }
                            assert forall|k: int| 0 <= k < ncon implies rule_holds(
                                #[trigger] cdesc[k],
                                vals,
                            ) by {
                                if k < na {
                                    let g = groups@[k];
                                    assert(cdesc[k] == (0int, g.0 as int, g.1 as int));
                                    assert(group_ok(kenken.areas@[k], size, cands@, g));
                                    lemma_solution_restricts_to_candidate(*kenken, msol, k);
                                    let fs = kenken.areas@[k].fields@.to_set();
                                    let rj = msol.restrict(fs);
                                    assert(is_candidate(kenken.areas@[k], size, rj));
                                    let t = choose|t: int|
                                        g.0 <= t < g.0 + g.1 && #[trigger] cands@[t]@ == rj;
                                    assert(is_candidate(kenken.areas@[k], size, cands@[t]@));
                                    assert(cands@[t]@.dom() == fs);
                                    assert(picks_candidate(cands@, msol, t));
                                    assert(vals[t] == 1);
                                    assert forall|u: int|
                                        g.0 <= u < g.0 + g.1 && u != t implies #[trigger] vals[u]
                                        == 0 by {
                                        if picks_candidate(cands@, msol, u) {
                                            assert(is_candidate(
                                                kenken.areas@[k],
                                                size,
                                                cands@[u]@,
                                            ));
                                            assert(cands@[u]@.dom() == fs);
                                            assert(cands@[u]@ == rj);
                                            assert(cands@[u]@ == cands@[t]@);
                                            if u < t {
                                                assert(cands@[u]@ != cands@[t]@);
                                            } else {
                                                assert(cands@[t]@ != cands@[u]@);
                                            }
                                        }
                                    }
                                    lemma_group_sum_single(g.0 as int, g.1 as int, vals, t);
                                } else {
                                    let pa = cdesc[k].1;
                                    let pb = cdesc[k].2;
                                    assert(vals.dom().contains(pa) && vals.dom().contains(pb));
                                    if vals[pa] + vals[pb] > 1 {
                                        assert(vals[pa] == 1 && vals[pb] == 1);
                                        assert(picks_candidate(cands@, msol, pa));
                                        assert(picks_candidate(cands@, msol, pb));
                                        assert(spec_conflict_asg(cands@[pa]@, cands@[pb]@));
                                        let f = choose|f: Field|
                                            cands@[pa]@.dom().contains(f) && spec_conflict(
                                                cands@[pb]@,
                                                f,
                                                cands@[pa]@[f],
                                            );
                                        let g2 = choose|g2: Field|
                                            cands@[pb]@.dom().contains(g2) && g2 != f && same_axis(
                                                g2,
                                                f,
                                            ) && cands@[pb]@[g2] == cands@[pa]@[f];
                                        assert(cands@[pa]@ == msol.restrict(cands@[pa]@.dom()));
                                        assert(msol.dom().contains(f));
                                        assert(msol[f] == cands@[pa]@[f]);
                                        assert(cands@[pb]@ == msol.restrict(cands@[pb]@.dom()));
                                        assert(msol.dom().contains(g2));
                                        assert(msol[g2] == cands@[pb]@[g2]);
                                        assert(msol[f] == msol[g2]);
                                        assert(same_axis(f, g2));
                                        assert(false);
                                    }
                                }
                            }
                            assert(model_sat(model, vals));
                            assert(exists|vals2: Map<int, int>|
                                binary_on(vals2, model_width(model)) && #[trigger] model_sat(
                                    model,
                                    vals2,
                                )) by {
                                assert(binary_on(vals, model_width(model)) && model_sat(
                                    model,
                                    vals,
                                ));
                            }
                            assert(false);
                        }
                    }
                }
            }
            return Err(e);
        },
    };

    // The backend's choice is not trusted: re-read it, demand exactly one
    // candidate per cage, and re-check freedom from conflicts.
    let mut chosen: Vec<Assignment> = Vec::new();
    let mut i: usize = 0;
    while i < na
        invariant
            0 <= i <= na,
            na == groups@.len(),
            na == kenken.areas@.len(),
            size == kenken.size,
            kenken.wf(),
            all_areas_have_candidates(*kenken),
            vars@.len() == nc,
            nc == cands@.len(),
            solution_width(sol) == nc,
            solution_readable(sol),
            forall|k: int| 0 <= k < nc ==> var_index(#[trigger] vars@[k]) == k,
            forall|j: int|
                0 <= j < na ==> group_ok(kenken.areas@[j], size, cands@, #[trigger] groups@[j]),
            chosen@.len() == i,
            forall|j: int|
                0 <= j < i ==> is_candidate(kenken.areas@[j], size, #[trigger] chosen@[j]@),
        decreases na - i,
    {
        let (s, l) = groups[i];
        proof {
            assert(group_ok(kenken.areas@[i as int], size, cands@, (s, l)));
        }
        let mut count: usize = 0;
        let mut pick: usize = s;
        let mut t: usize = s;
        while t < s + l
            invariant
                s + l <= nc,
                vars@.len() == nc,
                solution_width(sol) == nc,
                solution_readable(sol),
                forall|k: int| 0 <= k < nc ==> var_index(#[trigger] vars@[k]) == k,
                s <= t <= s + l,
                count <= t - s,
                s <= pick < s + l,
            decreases s + l - t,
        {
            if solution_value_rounded(&sol, vars[t]) == 1 {
                if count == 0 {
                    pick = t;
                }
                count += 1;
            }
            t += 1;
        }
        if count != 1 {
            return Err(SolveError::SolverBackendError);
        }
        let c = cands[pick].duplicate();
        chosen.push(c);
        i += 1;
    }
    let mut a: usize = 0;
    while a < na
        invariant
            0 <= a <= na,
            na == kenken.areas@.len(),
            kenken.wf(),
            all_areas_have_candidates(*kenken),
            chosen@.len() == na,
            forall|x: int, y: int|
                0 <= x < y < na && x < a ==> !spec_conflict_asg(
                    #[trigger] chosen@[x]@,
                    #[trigger] chosen@[y]@,
                ),
        decreases na - a,
    {
        let mut b: usize = a + 1;
        while b < na
            invariant
                0 <= a < na,
                a + 1 <= b <= na,
                na == kenken.areas@.len(),
                kenken.wf(),
                all_areas_have_candidates(*kenken),
                chosen@.len() == na,
                forall|x: int, y: int|
                    0 <= x < y < na && x < a ==> !spec_conflict_asg(
                        #[trigger] chosen@[x]@,
                        #[trigger] chosen@[y]@,
                    ),
                forall|y: int|
                    a < y < b ==> !spec_conflict_asg(
                        chosen@[a as int]@,
                        #[trigger] chosen@[y]@,
                    ),
            decreases na - b,
        {
            if chosen[a].conflict_asg(&chosen[b]) {
                return Err(SolveError::SolverBackendError);
            }
            b += 1;
        }
        a += 1;
    }

    let merged = Assignment::merge(&chosen);
    proof {
        let cs = chosen@.map_values(|c: Assignment| c@);
        assert forall|j: int|
            0 <= j < cs.len() implies is_candidate(kenken.areas@[j], size, #[trigger] cs[j]) by {
            assert(cs[j] == chosen@[j]@);
        }
        assert forall|x: int, y: int|
            0 <= x < y < cs.len() implies !spec_conflict_asg(
            #[trigger] cs[x],
            #[trigger] cs[y],
        ) by {
            assert(cs[x] == chosen@[x]@ && cs[y] == chosen@[y]@);
        }
        lemma_merge_solution(*kenken, cs);
        assert(is_solution(*kenken, merged@));
    }
    Ok(merged)
}

} // verus!
