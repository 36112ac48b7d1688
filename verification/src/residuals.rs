//! Layout of the residual vector of the Henyey scheme.
//!
//! A model of `n` shells has `4 n` residuals: two for the centre (radius and
//! luminosity), four for each of the `n - 1` intervals between neighbouring
//! shells (radius, pressure, luminosity and temperature equations), and two
//! for the surface (luminosity and pressure). Perturbing the variables of
//! one shell re-evaluates only the equations that involve that shell; this
//! module says which those are and where their residuals are stored.
use vstd::prelude::*;

verus! {

/// One group of structure equations.
#[derive(Clone, Copy, Debug, PartialEq, Eq, Structural)]
pub enum Equation {
    /// The central boundary conditions, on the innermost shell.
    InnerBoundary,
    /// The four difference equations between shell `j` and shell `j + 1`.
    Interval(usize),
    /// The surface boundary conditions, on the outermost shell.
    OuterBoundary,
}

/// The equation exists in a model of `n` shells.
pub open spec fn is_equation_of(eq: Equation, n: nat) -> bool {
    match eq {
        Equation::Interval(j) => j + 1 < n,
        _ => n >= 1,
    }
}

/// The equations that involve shell `i` of a model of `n` shells, in the
/// order in which they are evaluated: the centre (for the first shell), the
/// interval below the shell, the interval above it, and the surface (for
/// the last shell).
pub open spec fn equations_of_shell(i: nat, n: nat) -> Seq<Equation> {
    if n == 1 {
        seq![Equation::InnerBoundary, Equation::OuterBoundary]
    } else if i == 0 {
        seq![Equation::InnerBoundary, Equation::Interval(0)]
    } else if i + 1 == n {
        seq![Equation::Interval((i - 1) as usize), Equation::OuterBoundary]
    } else {
        seq![Equation::Interval((i - 1) as usize), Equation::Interval(i as usize)]
    }
}

/// The first residual row of an equation group.
pub open spec fn first_row(eq: Equation, n: nat) -> int {
    match eq {
        Equation::InnerBoundary => 0,
        Equation::Interval(j) => 4 * j + 2,
        Equation::OuterBoundary => 4 * n - 2,
    }
}

/// The number of residual rows of an equation group.
pub open spec fn row_count(eq: Equation) -> int {
    match eq {
        Equation::Interval(_) => 4,
        _ => 2,
    }
}

/// Row `r` holds a residual of equation group `eq`.
pub open spec fn holds_row(eq: Equation, n: nat, r: int) -> bool {
    first_row(eq, n) <= r < first_row(eq, n) + row_count(eq)
}

/// The equation group whose residual is stored in row `r`.
pub open spec fn owner_of_row(r: int, n: nat) -> Equation {
    if r < 2 {
        Equation::InnerBoundary
    } else if r >= 4 * n - 2 {
        Equation::OuterBoundary
    } else {
        Equation::Interval(((r - 2) / 4) as usize)
    }
}

/// The equations to evaluate when the variables of shell `i` change.
pub fn shell_equations(i: usize, n: usize) -> (eqs: Vec<Equation>)
    requires
        i < n,
    ensures
        eqs@ == equations_of_shell(i as nat, n as nat),
{
    let mut eqs: Vec<Equation> = Vec::new();
    if i == 0 {
        eqs.push(Equation::InnerBoundary);
    } else {
        eqs.push(Equation::Interval(i - 1));
    }
    if i + 1 < n {
        eqs.push(Equation::Interval(i));
    } else {
        eqs.push(Equation::OuterBoundary);
    }
    proof {
        assert(eqs@ =~= equations_of_shell(i as nat, n as nat));
    }
    eqs
}

/// The rows `[first, first + count)` of the residual vector that hold the
/// residuals of an equation group.
pub fn equation_rows(eq: Equation, n: usize) -> (rows: (usize, usize))
    requires
        is_equation_of(eq, n as nat),
        4 * n <= usize::MAX,
    ensures
        rows.0 == first_row(eq, n as nat),
        rows.1 == row_count(eq),
{
    match eq {
        Equation::InnerBoundary => (0, 2),
        Equation::Interval(j) => (4 * j + 2, 4),
        Equation::OuterBoundary => (4 * n - 2, 2),
    }
}

/// The residual rows of the equation groups of a model partition the
/// residual vector: each of the `4 n` rows belongs to exactly one group,
/// and no group reaches outside the vector.
pub proof fn rows_partition_residuals(n: nat, eq: Equation, r: int)
    requires
        n >= 1,
        4 * n <= usize::MAX,
        is_equation_of(eq, n),
    ensures
        holds_row(eq, n, r) ==> 0 <= r < 4 * n,
        0 <= r < 4 * n ==> is_equation_of(owner_of_row(r, n), n) && holds_row(owner_of_row(r, n), n, r),
        holds_row(eq, n, r) <==> (0 <= r < 4 * n && eq == owner_of_row(r, n)),
{
    if 0 <= r < 4 * n && 2 <= r < 4 * n - 2 {
        let j = (r - 2) / 4;
        assert(4 * j + 2 <= r < 4 * j + 6);
    }
}

/// The Jacobian is block tridiagonal: the equations that involve shell `i`
/// hold their residuals in the blocks of rows of shells `i - 1`, `i` and
/// `i + 1` only (block `k` being rows `4 k .. 4 k + 3`).
pub proof fn shell_touches_neighbouring_blocks(i: nat, n: nat, k: int, r: int)
    requires
        i < n,
        4 * n <= usize::MAX,
        0 <= k < equations_of_shell(i, n).len(),
        holds_row(equations_of_shell(i, n)[k], n, r),
    ensures
        i - 1 <= r / 4 <= i + 1,
        is_equation_of(equations_of_shell(i, n)[k], n),
{
    assert(k == 0 || k == 1);
}

/// An equation group is re-evaluated for exactly the shells it involves:
/// the centre for the first shell, the surface for the last, and the
/// interval between shells `j` and `j + 1` for those two shells.
pub proof fn equations_follow_shells(i: nat, n: nat, eq: Equation)
    requires
        i < n,
        4 * n <= usize::MAX,
        is_equation_of(eq, n),
    ensures
        equations_of_shell(i, n).contains(eq) <==> match eq {
            Equation::InnerBoundary => i == 0,
            Equation::OuterBoundary => i + 1 == n,
            Equation::Interval(j) => i == j || i == j + 1,
        },
{
    let s = equations_of_shell(i, n);
    assert(s.len() == 2);
    assert(s.contains(eq) <==> (s[0] == eq || s[1] == eq)) by {
        if s.contains(eq) {
            let k = choose|k: int| 0 <= k < s.len() && s[k] == eq;
            assert(k == 0 || k == 1);
        }
        if s[0] == eq {
            assert(s.contains(eq));
        }
        if s[1] == eq {
            assert(s.contains(eq));
        }
    }
}

} // verus!
