//! The constraint system of the fused verifier, rendered by the constraint trees of `p3_air`.

use lattica_prover::expr::{cur, minus, nxt, on_last, on_transition, per, plus, public, times, Expr, Wire};
use lattica_prover::fingerprint::fingerprint;
use lattica_prover::monolith::geometry::monolith_air;
use lattica_prover::monolith::layout::MonolithAir;
use lattica_prover::poseidon::{ext_linear, int_linear, periodic_table, pow7};
use p3_air::symbolic::get_symbolic_constraints;
use p3_air::{Air, AirBuilder, BaseAir, WindowAccess};
use p3_field::PrimeCharacteristicRing;
use p3_goldilocks::Goldilocks;
use p3_uni_stark::AirLayout;

struct Circuit {
    width: usize,
    pubs: usize,
    constraints: Vec<Wire>,
    periodic: Vec<Vec<u64>>,
}

fn render<AB: AirBuilder<F = Goldilocks>>(e: &Expr, b: &AB) -> AB::Expr {
    match e {
        Expr::Cur(i) => b.main().current_slice()[*i].into(),
        Expr::Nxt(i) => b.main().next_slice()[*i].into(),
        Expr::Periodic(i) => b.periodic_values()[*i].into(),
        Expr::Public(i) => b.public_values()[*i].into(),
        Expr::IsFirstRow => b.is_first_row(),
        Expr::IsLastRow => b.is_last_row(),
        Expr::IsTransition => b.is_transition(),
        Expr::Const(c) => AB::Expr::from(Goldilocks::from_u64(*c)),
        Expr::Sum(x, y) => render(x, b) + render(y, b),
        Expr::Difference(x, y) => render(x, b) - render(y, b),
        Expr::Negation(x) => -render(x, b),
        Expr::Product(x, y) => render(x, b) * render(y, b),
    }
}

impl BaseAir<Goldilocks> for Circuit {
    fn width(&self) -> usize {
        self.width
    }
    fn num_public_values(&self) -> usize {
        self.pubs
    }
    fn num_periodic_columns(&self) -> usize {
        self.periodic.len()
    }
}

impl<AB: AirBuilder<F = Goldilocks>> Air<AB> for Circuit {
    fn eval(&self, b: &mut AB) {
        for c in &self.constraints {
            let e = render(c, b);
            b.assert_zero(e);
        }
    }
}

fn print_of(air: &MonolithAir) -> (usize, usize, usize, usize, usize, u64, u64) {
    print_circuit(Circuit {
        width: air.width(),
        pubs: air.num_public_values(),
        constraints: air.eval(),
        periodic: air.periodic(),
    })
}

fn print_circuit(circuit: Circuit) -> (usize, usize, usize, usize, usize, u64, u64) {
    let layout = AirLayout::from_air::<Goldilocks>(&circuit);
    let cs = get_symbolic_constraints::<Goldilocks, Circuit>(&circuit, layout);
    let rendered: Vec<Vec<u8>> = cs.iter().map(|c| format!("{c:?}").into_bytes()).collect();
    let degrees: Vec<usize> = cs.iter().map(|c| c.degree_multiple()).collect();
    fingerprint(circuit.width, circuit.pubs, &rendered, &degrees, &circuit.periodic)
}

/// The permutation on its own: eight lanes, its rounds, and its output bound to the public values.
fn permutation_rows() -> Circuit {
    let lanes: Vec<Wire> = (0..8).map(cur).collect();
    let init = ext_linear(&lanes);
    let full = ext_linear(&(0..8).map(|i| pow7(&plus(&cur(i), &per(3 + i)))).collect());
    let mut part = lanes.clone();
    part[0] = pow7(&plus(&cur(0), &per(3)));
    let part = int_linear(&part);
    let mut constraints: Vec<Wire> = (0..8)
        .map(|i| {
            let step = |s: &Vec<Wire>, p: usize| times(&per(p), &minus(&nxt(i), &s[i]));
            on_transition(&plus(&plus(&step(&init, 0), &step(&full, 1)), &step(&part, 2)))
        })
        .collect();
    constraints.extend((0..8).map(|i| on_last(&minus(&cur(i), &public(i)))));
    Circuit { width: 8, pubs: 8, constraints, periodic: periodic_table() }
}

#[test]
fn pinned_constraint_fingerprints() {
    assert_eq!(
        print_circuit(permutation_rows()),
        (8, 11, 8, 16, 8, 4555829733017345773, 3694726246285696047),
        "permutation rows"
    );
    assert_eq!(
        print_of(&monolith_air(0)),
        (193, 56, 53, 380, 9, 8931234269209497483, 4845014777825624174),
        "plain inner of 2^6 rows"
    );
    assert_eq!(
        print_of(&monolith_air(1)),
        (619, 81, 2271, 875, 9, 5788871046264575537, 9300941697942390572),
        "hiding inner"
    );
}
