use stellar_sim::mixing::convective_zones;
use stellar_sim::order::order_key;
use stellar_sim::residuals::{equation_rows, shell_equations, Equation};

#[test]
fn zones_are_maximal_runs() {
    let f = vec![true, true, false, true, false, false, true];
    assert_eq!(convective_zones(&f), vec![(0, 2), (3, 4), (6, 7)]);
    assert_eq!(convective_zones(&vec![false; 4]), vec![]);
    assert_eq!(convective_zones(&vec![true; 4]), vec![(0, 4)]);
    assert_eq!(convective_zones(&vec![]), vec![]);
    assert_eq!(convective_zones(&vec![false, true]), vec![(1, 2)]);
}

#[test]
fn zones_cover_each_convective_shell_once() {
    let f = vec![false, true, true, true, false, true, false, true, true];
    let z = convective_zones(&f);
    for i in 0..f.len() {
        let n = z.iter().filter(|(a, b)| *a <= i && i < *b).count();
        assert_eq!(n, if f[i] { 1 } else { 0 });
    }
}

#[test]
fn shell_equation_groups() {
    assert_eq!(shell_equations(0, 1), vec![Equation::InnerBoundary, Equation::OuterBoundary]);
    assert_eq!(shell_equations(0, 5), vec![Equation::InnerBoundary, Equation::Interval(0)]);
    assert_eq!(shell_equations(2, 5), vec![Equation::Interval(1), Equation::Interval(2)]);
    assert_eq!(shell_equations(4, 5), vec![Equation::Interval(3), Equation::OuterBoundary]);
}

#[test]
fn equation_row_ranges() {
    assert_eq!(equation_rows(Equation::InnerBoundary, 5), (0, 2));
    assert_eq!(equation_rows(Equation::Interval(0), 5), (2, 4));
    assert_eq!(equation_rows(Equation::Interval(3), 5), (14, 4));
    assert_eq!(equation_rows(Equation::OuterBoundary, 5), (18, 2));
}

#[test]
fn rows_partition_and_stay_in_neighbouring_blocks() {
    let n = 6;
    let mut hits = vec![0usize; 4 * n];
    let mut eqs = vec![Equation::InnerBoundary, Equation::OuterBoundary];
    for j in 0..n - 1 {
        eqs.push(Equation::Interval(j));
    }
    for e in eqs {
        let (a, c) = equation_rows(e, n);
        for r in a..a + c {
            hits[r] += 1;
        }
    }
    assert!(hits.iter().all(|h| *h == 1));
    for i in 0..n {
        for e in shell_equations(i, n) {
            let (a, c) = equation_rows(e, n);
            for r in a..a + c {
                let b = r / 4;
                assert!(b + 1 >= i && b <= i + 1);
            }
        }
    }
}

#[test]
fn order_keys() {
    assert_eq!(order_key(0.0f64.to_bits()), 0x8000_0000_0000_0000);
    assert_eq!(order_key((-0.0f64).to_bits()), 0x8000_0000_0000_0000);
    assert_eq!(order_key(1.0f64.to_bits()), 0xBFF0_0000_0000_0000);
    assert_eq!(order_key((-1.0f64).to_bits()), 0x8000_0000_0000_0000 - 0x3FF0_0000_0000_0000);
    let xs = [f64::NEG_INFINITY, -1e300, -2.0, -1.0, -1e-300, 0.0, 5e-324, 1.0, 3.5, 1e300, f64::INFINITY];
    for w in xs.windows(2) {
        assert!(order_key(w[0].to_bits()) < order_key(w[1].to_bits()));
    }
}
