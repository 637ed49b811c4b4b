use num_complex::Complex64;
use rand::rngs::StdRng;
use rand::{Rng, SeedableRng};
use sparse_sim::arith::{Amplitude, Real};
use sparse_sim::ids::QubitError;
use sparse_sim::sim::QuantumSim;
use std::f64::consts::{FRAC_1_SQRT_2, PI};

#[derive(Clone, Copy, Debug, PartialEq)]
struct Num(f64);

#[derive(Clone, Copy, Debug, PartialEq)]
struct Amp(Complex64);

fn nearly_zero(x: f64) -> bool {
    x.abs() <= 1e-10
}

impl Real for Num {
    fn zero() -> Self {
        Num(0.0)
    }
    fn frac_1_sqrt_2() -> Self {
        Num(FRAC_1_SQRT_2)
    }
    fn negate(self) -> Self {
        Num(-self.0)
    }
    fn plus(self, other: Self) -> Self {
        Num(self.0 + other.0)
    }
    fn half(self) -> Self {
        Num(self.0 / 2.0)
    }
    fn sqrt(self) -> Self {
        Num(self.0.sqrt())
    }
    fn recip(self) -> Self {
        Num(1.0 / self.0)
    }
    fn sin(self) -> Self {
        Num(self.0.sin())
    }
    fn cos(self) -> Self {
        Num(self.0.cos())
    }
    fn less_than(self, other: Self) -> bool {
        self.0 < other.0
    }
    fn is_nearly_zero(self) -> bool {
        nearly_zero(self.0)
    }
    fn to_text(self) -> String {
        self.0.to_string()
    }
}

impl Amplitude for Amp {
    type Real = Num;

    fn new(re: Num, im: Num) -> Self {
        Amp(Complex64::new(re.0, im.0))
    }
    fn re(self) -> Num {
        Num(self.0.re)
    }
    fn im(self) -> Num {
        Num(self.0.im)
    }
    fn one() -> Self {
        Amp(Complex64::new(1.0, 0.0))
    }
    fn i() -> Self {
        Amp(Complex64::i())
    }
    fn negate(self) -> Self {
        Amp(-self.0)
    }
    fn plus(self, other: Self) -> Self {
        Amp(self.0 + other.0)
    }
    fn minus(self, other: Self) -> Self {
        Amp(self.0 - other.0)
    }
    fn times(self, other: Self) -> Self {
        Amp(self.0 * other.0)
    }
    fn scale(self, factor: Num) -> Self {
        Amp(self.0 * factor.0)
    }
    fn norm_sqr(self) -> Num {
        Num(self.0.norm_sqr())
    }
    fn exp(self) -> Self {
        Amp(self.0.exp())
    }
    fn is_nearly_zero(self) -> bool {
        nearly_zero(self.0.re) && nearly_zero(self.0.im)
    }
}

/// A simulator together with the source of its samples.
struct Sim {
    inner: QuantumSim<Amp>,
    rng: StdRng,
}

fn valid<T>(r: Result<T, QubitError>) -> T {
    match r {
        Ok(v) => v,
        Err(e) => panic!("{}", e.message()),
    }
}

impl Sim {
    fn new() -> Self {
        Sim {
            inner: QuantumSim::new(),
            rng: StdRng::from_entropy(),
        }
    }
    fn seeded(seed: u64) -> Self {
        Sim {
            inner: QuantumSim::new(),
            rng: StdRng::seed_from_u64(seed),
        }
    }
    fn check(&self, ctls: &[usize], target: usize) {
        valid(self.inner.resolve_and_check_qubits(target, ctls));
    }
    fn sample(&mut self) -> Num {
        Num(self.rng.gen::<f64>())
    }
    fn allocate(&mut self) -> usize {
        self.inner.allocate()
    }
    fn release(&mut self, id: usize) {
        self.check(&[], id);
        let sample = self.sample();
        self.inner.release(id, sample);
    }
    fn measure(&mut self, id: usize) -> bool {
        self.check(&[], id);
        let sample = self.sample();
        self.inner.measure(id, sample)
    }
    fn joint_measure(&mut self, ids: &[usize]) -> bool {
        valid(sparse_sim::ids::check_for_duplicates(ids));
        valid(self.inner.resolve_all(ids));
        let sample = self.sample();
        self.inner.joint_measure(ids, sample)
    }
    fn joint_probability(&mut self, ids: &[usize]) -> f64 {
        valid(sparse_sim::ids::check_for_duplicates(ids));
        valid(self.inner.resolve_all(ids));
        self.inner.joint_probability(ids).0
    }
    fn mcx(&mut self, ctls: &[usize], target: usize) {
        self.check(ctls, target);
        self.inner.mcx(ctls, target);
    }
}

fn almost_equal(a: f64, b: f64) -> bool {
    a.max(b) - b.min(a) <= 1e-10
}

// Test that basic allocation and release of qubits doesn't fail.
#[test]
fn test_alloc_release() {
    let sim = &mut Sim::new();
    for i in 0..16 {
        assert_eq!(sim.allocate(), i);
    }
    sim.release(4);
    sim.release(7);
    sim.release(12);
    assert_eq!(sim.allocate(), 4);
    for i in 0..7 {
        sim.release(i);
    }
    for i in 8..12 {
        sim.release(i);
    }
    for i in 13..16 {
        sim.release(i);
    }
}

/// Verifies that application of gates to a qubit results in the correct probabilities.
#[test]
fn test_probability() {
    let mut sim = Sim::new();
    let q = sim.allocate();
    let extra = sim.allocate();
    assert!(almost_equal(0.0, sim.joint_probability(&[q])));
    sim.inner.x(q);
    assert!(almost_equal(1.0, sim.joint_probability(&[q])));
    sim.inner.x(q);
    assert!(almost_equal(0.0, sim.joint_probability(&[q])));
    sim.inner.h(q);
    assert!(almost_equal(0.5, sim.joint_probability(&[q])));
    sim.inner.h(q);
    assert!(almost_equal(0.0, sim.joint_probability(&[q])));
    sim.inner.x(q);
    sim.inner.h(q);
    sim.inner.s(q);
    assert!(almost_equal(0.5, sim.joint_probability(&[q])));
    sim.inner.sadj(q);
    sim.inner.h(q);
    sim.inner.x(q);
    assert!(almost_equal(0.0, sim.joint_probability(&[q])));
    sim.release(extra);
    sim.release(q);
}

/// Verify that a qubit in superposition has probability corresponding the measured value and
/// can be operationally reset back into the ground state.
#[test]
fn test_measure() {
    let mut sim = Sim::new();
    let q = sim.allocate();
    let extra = sim.allocate();
    assert!(!sim.measure(q));
    sim.inner.x(q);
    assert!(sim.measure(q));
    let mut res = false;
    while !res {
        sim.inner.h(q);
        res = sim.measure(q);
        assert!(almost_equal(
            sim.joint_probability(&[q]),
            if res { 1.0 } else { 0.0 }
        ));
        if res {
            sim.inner.x(q);
        }
    }
    assert!(almost_equal(sim.joint_probability(&[q]), 0.0));
    sim.release(extra);
    sim.release(q);
}

// Verify that out of order release of non-zero qubits behaves as expected, namely qubits that
// are not released are still in the expected states, newly allocated qubits use the available spot
// and start in a zero state.
#[test]
fn test_out_of_order_release() {
    let sim = &mut Sim::new();
    for i in 0..5 {
        assert_eq!(sim.allocate(), i);
        sim.inner.x(i);
    }

    // Release out of order.
    sim.release(3);

    // Remaining qubits should all still be in one.
    assert_eq!(sim.inner.state_len(), 1);
    assert!(!nearly_zero(sim.joint_probability(&[0])));
    assert!(!nearly_zero(sim.joint_probability(&[1])));
    assert!(!nearly_zero(sim.joint_probability(&[2])));
    assert!(!nearly_zero(sim.joint_probability(&[4])));

    // Cheat and peak at the released location to make sure it has been zeroed out.
    assert!(nearly_zero(sim.inner.check_joint_probability(&[3]).0));

    // Next allocation should be the empty spot, and it should be in zero state.
    assert_eq!(sim.allocate(), 3);
    assert!(nearly_zero(sim.joint_probability(&[3])));

    for i in 0..5 {
        sim.release(i);
    }
    assert_eq!(sim.inner.state_len(), 1);
}

/// Verify joint probability works as expected, namely that it corresponds to the parity of the
/// qubits.
#[test]
fn test_joint_probability() {
    let mut sim = Sim::new();
    let q0 = sim.allocate();
    let q1 = sim.allocate();
    assert!(almost_equal(0.0, sim.joint_probability(&[q0, q1])));
    sim.inner.x(q0);
    assert!(almost_equal(1.0, sim.joint_probability(&[q0, q1])));
    sim.inner.x(q1);
    assert!(almost_equal(0.0, sim.joint_probability(&[q0, q1])));
    assert!(almost_equal(1.0, sim.joint_probability(&[q0])));
    assert!(almost_equal(1.0, sim.joint_probability(&[q1])));
    sim.inner.h(q0);
    assert!(almost_equal(0.5, sim.joint_probability(&[q0, q1])));
    sim.release(q1);
    sim.release(q0);
}

/// Verify joint measurement works as expected, namely that it corresponds to the parity of the
/// qubits.
#[test]
fn test_joint_measurement() {
    let mut sim = Sim::new();
    let q0 = sim.allocate();
    let q1 = sim.allocate();
    assert!(!sim.joint_measure(&[q0, q1]));
    sim.inner.x(q0);
    assert!(sim.joint_measure(&[q0, q1]));
    sim.inner.x(q1);
    assert!(!sim.joint_measure(&[q0, q1]));
    assert!(sim.joint_measure(&[q0]));
    assert!(sim.joint_measure(&[q1]));
    sim.inner.h(q0);
    let res = sim.joint_measure(&[q0, q1]);
    assert!(almost_equal(
        if res { 1.0 } else { 0.0 },
        sim.joint_probability(&[q0, q1])
    ));
    sim.release(q1);
    sim.release(q0);
}

/// Test multiple controls.
#[test]
fn test_multiple_controls() {
    let mut sim = Sim::new();
    let q0 = sim.allocate();
    let q1 = sim.allocate();
    let q2 = sim.allocate();
    assert!(almost_equal(0.0, sim.joint_probability(&[q0])));
    sim.inner.h(q0);
    assert!(almost_equal(0.5, sim.joint_probability(&[q0])));
    sim.inner.h(q0);
    assert!(almost_equal(0.0, sim.joint_probability(&[q0])));
    sim.inner.mch(&[q1], q0);
    assert!(almost_equal(0.0, sim.joint_probability(&[q0])));
    sim.inner.x(q1);
    sim.inner.mch(&[q1], q0);
    assert!(almost_equal(0.5, sim.joint_probability(&[q0])));
    sim.inner.mch(&[q2, q1], q0);
    assert!(almost_equal(0.5, sim.joint_probability(&[q0])));
    sim.inner.x(q2);
    sim.inner.mch(&[q2, q1], q0);
    assert!(almost_equal(0.0, sim.joint_probability(&[q0])));
    sim.inner.x(q0);
    sim.inner.x(q1);
    sim.release(q2);
    sim.release(q1);
    sim.release(q0);
}

/// Verify that targets cannot be duplicated.
#[test]
#[should_panic(expected = "Duplicate qubit id '0' found in application.")]
fn test_duplicate_target() {
    let mut sim = Sim::new();
    let q = sim.allocate();
    sim.mcx(&[q], q);
}

/// Verify that controls cannot be duplicated.
#[test]
#[should_panic(expected = "Duplicate qubit id '1' found in application.")]
fn test_duplicate_control() {
    let mut sim = Sim::new();
    let q = sim.allocate();
    let c = sim.allocate();
    sim.mcx(&[c, c], q);
}

/// Verify that targets aren't in controls.
#[test]
#[should_panic(expected = "Duplicate qubit id '0' found in application.")]
fn test_target_in_control() {
    let mut sim = Sim::new();
    let q = sim.allocate();
    let c = sim.allocate();
    sim.mcx(&[c, q], q);
}

/// Large, entangled state handling.
#[test]
fn test_large_state() {
    let mut sim = Sim::new();
    let ctl = sim.allocate();
    sim.inner.h(ctl);
    for _ in 0..4999 {
        let q = sim.allocate();
        sim.mcx(&[ctl], q);
    }
    let _ = sim.measure(ctl);
    for i in 0..5000 {
        sim.release(i);
    }
}

/// Verify seeded RNG is predictable.
#[test]
fn test_seeded_rng() {
    let mut sim = Sim::seeded(42);
    let q = sim.allocate();
    let mut val1 = 0_u64;
    for i in 0..64 {
        sim.inner.h(q);
        if sim.measure(q) {
            val1 += 1 << i;
        }
    }
    let mut sim = Sim::seeded(42);
    let q = sim.allocate();
    let mut val2 = 0_u64;
    for i in 0..64 {
        sim.inner.h(q);
        if sim.measure(q) {
            val2 += 1 << i;
        }
    }
    assert_eq!(val1, val2);
}

/// The gates that can be queued on the targets before an operation is tried.
#[derive(Clone, Copy)]
enum QueuedOp {
    NoOp,
    H,
    Rx,
    Ry,
}

/// Utility for testing operation equivalence.
fn assert_operation_equal_referenced<F1, F2>(mut op: F1, mut reference: F2, count: usize)
where
    F1: FnMut(&mut QuantumSim<Amp>, &[usize]),
    F2: FnMut(&mut QuantumSim<Amp>, &[usize]),
{
    for inner_op in [QueuedOp::NoOp, QueuedOp::H, QueuedOp::Rx, QueuedOp::Ry] {
        let mut sim = Sim::new();

        // Allocte the control we use to verify behavior.
        let ctl = sim.allocate();
        sim.inner.h(ctl);

        // Allocate the requested number of targets, entangling the control with them.
        let mut qs = vec![];
        for _ in 0..count {
            let q = sim.allocate();
            sim.mcx(&[ctl], q);
            qs.push(q);
        }

        // To test queuing, try the op after running each of the different intermediate operations
        // that can be queued.
        match inner_op {
            QueuedOp::NoOp => (),
            QueuedOp::H => {
                for &q in &qs {
                    sim.inner.h(q);
                }
            }
            QueuedOp::Rx => {
                for &q in &qs {
                    sim.inner.rx(Num(PI / 7.0), q);
                }
            }
            QueuedOp::Ry => {
                for &q in &qs {
                    sim.inner.ry(Num(PI / 7.0), q);
                }
            }
        }

        op(&mut sim.inner, &qs);

        // Trigger a flush between the op and expected adjoint reference to ensure the reference is
        // run without any queued, commuted operations.
        let _ = sim.joint_probability(&qs);

        reference(&mut sim.inner, &qs);

        // Perform the adjoint of any additional ops. We check the joint probability of the target
        // qubits before and after to force a flush of the operation queue. This helps us verify
        // queuing, as the operation itself will have used the queue and commuting while the
        // adjoint perform here will not.
        let _ = sim.joint_probability(&qs);
        match inner_op {
            QueuedOp::NoOp => (),
            QueuedOp::H => {
                for &q in &qs {
                    sim.inner.h(q);
                }
            }
            QueuedOp::Rx => {
                for &q in &qs {
                    sim.inner.rx(Num(PI / -7.0), q);
                }
            }
            QueuedOp::Ry => {
                for &q in &qs {
                    sim.inner.ry(Num(PI / -7.0), q);
                }
            }
        }
        let _ = sim.joint_probability(&qs);

        // Undo the entanglement.
        for q in qs {
            sim.mcx(&[ctl], q);
        }
        sim.inner.h(ctl);

        // We know the operations are equal if the control is left in the zero state.
        assert!(nearly_zero(sim.joint_probability(&[ctl])));

        // Sparse state vector should have one entry for |0⟩.
        // Dump the state first to force a flush of any queued operations.
        println!("{}", sim.inner.dump().unwrap());
        assert_eq!(sim.inner.state_len(), 1);
    }
}

#[test]
fn test_h() {
    assert_operation_equal_referenced(
        |sim, qs| {
            sim.h(qs[0]);
        },
        |sim, qs| {
            sim.h(qs[0]);
        },
        1,
    );
}

#[test]
fn test_x() {
    assert_operation_equal_referenced(
        |sim, qs| {
            sim.x(qs[0]);
        },
        |sim, qs| {
            sim.x(qs[0]);
        },
        1,
    );
}

#[test]
fn test_y() {
    assert_operation_equal_referenced(
        |sim, qs| {
            sim.y(qs[0]);
        },
        |sim, qs| {
            sim.y(qs[0]);
        },
        1,
    );
}

#[test]
fn test_z() {
    assert_operation_equal_referenced(
        |sim, qs| {
            sim.z(qs[0]);
        },
        |sim, qs| {
            sim.z(qs[0]);
        },
        1,
    );
}

#[test]
fn test_s() {
    assert_operation_equal_referenced(
        |sim, qs| {
            sim.s(qs[0]);
        },
        |sim, qs| {
            sim.sadj(qs[0]);
        },
        1,
    );
}

#[test]
fn test_sadj() {
    assert_operation_equal_referenced(
        |sim, qs| {
            sim.sadj(qs[0]);
        },
        |sim, qs| {
            sim.s(qs[0]);
        },
        1,
    );
}

#[test]
fn test_cx() {
    assert_operation_equal_referenced(
        |sim, qs| {
            sim.mcx(&[qs[0]], qs[1]);
        },
        |sim, qs| {
            sim.mcx(&[qs[0]], qs[1]);
        },
        2,
    );
}

#[test]
fn test_cz() {
    assert_operation_equal_referenced(
        |sim, qs| {
            sim.mcz(&[qs[0]], qs[1]);
        },
        |sim, qs| {
            sim.mcz(&[qs[0]], qs[1]);
        },
        2,
    );
}

#[test]
fn test_swap() {
    assert_operation_equal_referenced(
        |sim, qs| {
            sim.swap_qubit_ids(qs[0], qs[1]);
        },
        |sim, qs| {
            sim.swap_qubit_ids(qs[0], qs[1]);
        },
        2,
    );
}

#[test]
fn test_rz() {
    assert_operation_equal_referenced(
        |sim, qs| {
            sim.rz(Num(PI / 7.0), qs[0]);
        },
        |sim, qs| {
            sim.rz(Num(-PI / 7.0), qs[0]);
        },
        1,
    );
}

#[test]
fn test_rx() {
    assert_operation_equal_referenced(
        |sim, qs| {
            sim.rx(Num(PI / 7.0), qs[0]);
        },
        |sim, qs| {
            sim.rx(Num(-PI / 7.0), qs[0]);
        },
        1,
    );
}

#[test]
fn test_ry() {
    assert_operation_equal_referenced(
        |sim, qs| {
            sim.ry(Num(PI / 7.0), qs[0]);
        },
        |sim, qs| {
            sim.ry(Num(-PI / 7.0), qs[0]);
        },
        1,
    );
}

#[test]
fn test_mcri() {
    assert_operation_equal_referenced(
        |sim, qs| {
            sim.mcphase(
                &qs[2..3],
                Amp(Complex64::exp(Complex64::new(0.0, -(PI / 7.0) / 2.0))),
                qs[1],
            );
        },
        |sim, qs| {
            sim.mcphase(
                &qs[2..3],
                Amp(Complex64::exp(Complex64::new(0.0, (PI / 7.0) / 2.0))),
                qs[1],
            );
        },
        3,
    );
}
