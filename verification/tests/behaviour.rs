use num_complex::Complex64;
use rand::rngs::StdRng;
use rand::{Rng, SeedableRng};
use sparse_sim::arith::{Amplitude, Real};
use sparse_sim::ids::{check_for_duplicates, QubitError};
use sparse_sim::model::FlushLevel;
use sparse_sim::sim::{phase_of, QuantumSim};
use sparse_sim::steps::PhaseGate;
use std::f64::consts::{FRAC_1_SQRT_2, PI};

#[derive(Clone, Copy, Debug, PartialEq)]
struct Num(f64);

#[derive(Clone, Copy, Debug, PartialEq)]
struct Amp(Complex64);

fn nearly_zero(x: f64) -> bool {
    x.abs() <= 1e-10
}

impl Real for Num {
    fn zero() -> Self {
        Num(0.0)
    }
    fn frac_1_sqrt_2() -> Self {
        Num(FRAC_1_SQRT_2)
    }
    fn negate(self) -> Self {
        Num(-self.0)
    }
    fn plus(self, other: Self) -> Self {
        Num(self.0 + other.0)
    }
    fn half(self) -> Self {
        Num(self.0 / 2.0)
    }
    fn sqrt(self) -> Self {
        Num(self.0.sqrt())
    }
    fn recip(self) -> Self {
        Num(1.0 / self.0)
    }
    fn sin(self) -> Self {
        Num(self.0.sin())
    }
    fn cos(self) -> Self {
        Num(self.0.cos())
    }
    fn less_than(self, other: Self) -> bool {
        self.0 < other.0
    }
    fn is_nearly_zero(self) -> bool {
        nearly_zero(self.0)
    }
    fn to_text(self) -> String {
        self.0.to_string()
    }
}

impl Amplitude for Amp {
    type Real = Num;

    fn new(re: Num, im: Num) -> Self {
        Amp(Complex64::new(re.0, im.0))
    }
    fn re(self) -> Num {
        Num(self.0.re)
    }
    fn im(self) -> Num {
        Num(self.0.im)
    }
    fn one() -> Self {
        Amp(Complex64::new(1.0, 0.0))
    }
    fn i() -> Self {
        Amp(Complex64::i())
    }
    fn negate(self) -> Self {
        Amp(-self.0)
    }
    fn plus(self, other: Self) -> Self {
        Amp(self.0 + other.0)
    }
    fn minus(self, other: Self) -> Self {
        Amp(self.0 - other.0)
    }
    fn times(self, other: Self) -> Self {
        Amp(self.0 * other.0)
    }
    fn scale(self, factor: Num) -> Self {
        Amp(self.0 * factor.0)
    }
    fn norm_sqr(self) -> Num {
        Num(self.0.norm_sqr())
    }
    fn exp(self) -> Self {
        Amp(self.0.exp())
    }
    fn is_nearly_zero(self) -> bool {
        nearly_zero(self.0.re) && nearly_zero(self.0.im)
    }
}

type Sim = QuantumSim<Amp>;

fn with_qubits(count: usize) -> Sim {
    let mut sim = QuantumSim::new();
    for i in 0..count {
        assert_eq!(sim.allocate(), i);
    }
    sim
}

/// The state vector that a dump shows, for a simulation with few qubits.
fn vector(sim: &mut Sim, count: usize) -> Vec<Complex64> {
    let text = sim.dump().unwrap();
    let mut psi = vec![Complex64::new(0.0, 0.0); 1 << count];
    let inner = text.strip_prefix("{ ").unwrap().strip_suffix(" }\n").unwrap();
    for entry in inner.split("\"|").skip(1) {
        let (label, rest) = entry.split_once("\u{27e9}\": [").unwrap();
        let (re, rest) = rest.split_once(", ").unwrap();
        let (im, _) = rest.split_once(']').unwrap();
        psi[label.parse::<usize>().unwrap()] =
            Complex64::new(re.parse().unwrap(), im.parse().unwrap());
    }
    psi
}

fn close(a: Complex64, b: Complex64) -> bool {
    (a - b).norm() <= 1e-9
}

fn assert_vector(actual: &[Complex64], expected: &[(f64, f64)]) {
    assert_eq!(actual.len(), expected.len());
    for (a, e) in actual.iter().zip(expected) {
        assert!(
            close(*a, Complex64::new(e.0, e.1)),
            "{:?} is not {:?}",
            actual,
            expected
        );
    }
}

fn same_up_to_phase(a: &[Complex64], b: &[Complex64]) -> bool {
    let overlap: Complex64 = a.iter().zip(b).map(|(x, y)| x.conj() * y).sum();
    (overlap.norm() - 1.0).abs() <= 1e-9
}

fn weight(psi: &[Complex64]) -> f64 {
    psi.iter().map(|v| v.norm_sqr()).sum()
}

type Matrix = [[Complex64; 2]; 2];

fn c(re: f64, im: f64) -> Complex64 {
    Complex64::new(re, im)
}

fn matrix_x() -> Matrix {
    [[c(0.0, 0.0), c(1.0, 0.0)], [c(1.0, 0.0), c(0.0, 0.0)]]
}

fn matrix_y() -> Matrix {
    [[c(0.0, 0.0), c(0.0, -1.0)], [c(0.0, 1.0), c(0.0, 0.0)]]
}

fn matrix_h() -> Matrix {
    let f = FRAC_1_SQRT_2;
    [[c(f, 0.0), c(f, 0.0)], [c(f, 0.0), c(-f, 0.0)]]
}

fn matrix_phase(p: Complex64) -> Matrix {
    [[c(1.0, 0.0), c(0.0, 0.0)], [c(0.0, 0.0), p]]
}

fn matrix_rx(theta: f64) -> Matrix {
    let (s, k) = ((theta / 2.0).sin(), (theta / 2.0).cos());
    [[c(k, 0.0), c(0.0, -s)], [c(0.0, -s), c(k, 0.0)]]
}

fn matrix_ry(theta: f64) -> Matrix {
    let (s, k) = ((theta / 2.0).sin(), (theta / 2.0).cos());
    [[c(k, 0.0), c(-s, 0.0)], [c(s, 0.0), c(k, 0.0)]]
}

fn matrix_rz(theta: f64) -> Matrix {
    let (s, k) = ((theta / 2.0).sin(), (theta / 2.0).cos());
    [[c(k, -s), c(0.0, 0.0)], [c(0.0, 0.0), c(k, s)]]
}

/// A gate on a full state vector.
fn act(m: &Matrix, ctls: &[usize], target: usize, psi: &[Complex64]) -> Vec<Complex64> {
    let mut out = psi.to_vec();
    for k in 0..psi.len() {
        if ctls.iter().all(|q| k >> q & 1 == 1) {
            let row = k >> target & 1;
            let k0 = k & !(1 << target);
            let k1 = k | (1 << target);
            out[k] = m[row][0] * psi[k0] + m[row][1] * psi[k1];
        }
    }
    out
}

/// Applies a gate, picked by a number, to both the simulation and the full state vector.
fn gate(sim: &mut Sim, psi: Vec<Complex64>, kind: u32, theta: f64, qs: &[usize]) -> Vec<Complex64> {
    let (t, a, b) = (qs[0], qs[1], qs[2]);
    let i = c(0.0, 1.0);
    let eighth = c(FRAC_1_SQRT_2, FRAC_1_SQRT_2);
    let one = c(1.0, 0.0);
    match kind {
        0 => {
            sim.x(t);
            act(&matrix_x(), &[], t, &psi)
        }
        1 => {
            sim.y(t);
            act(&matrix_y(), &[], t, &psi)
        }
        2 => {
            sim.z(t);
            act(&matrix_phase(-one), &[], t, &psi)
        }
        3 | 4 | 5 => {
            sim.h(t);
            act(&matrix_h(), &[], t, &psi)
        }
        6 => {
            sim.s(t);
            act(&matrix_phase(i), &[], t, &psi)
        }
        7 => {
            sim.sadj(t);
            act(&matrix_phase(-i), &[], t, &psi)
        }
        8 => {
            sim.t(t);
            act(&matrix_phase(eighth), &[], t, &psi)
        }
        9 => {
            sim.tadj(t);
            act(&matrix_phase(eighth.conj()), &[], t, &psi)
        }
        10 => {
            sim.rz(Num(theta), t);
            act(&matrix_rz(theta), &[], t, &psi)
        }
        11 | 12 => {
            sim.rx(Num(theta), t);
            act(&matrix_rx(theta), &[], t, &psi)
        }
        13 => {
            sim.mcx(&[a, b], t);
            act(&matrix_x(), &[a, b], t, &psi)
        }
        14 => {
            sim.mcy(&[a], t);
            act(&matrix_y(), &[a], t, &psi)
        }
        15 => {
            sim.mcy(&[a, b], t);
            act(&matrix_y(), &[a, b], t, &psi)
        }
        16 => {
            sim.mcz(&[a], t);
            act(&matrix_phase(-one), &[a], t, &psi)
        }
        17 => {
            sim.mcz(&[a, b], t);
            act(&matrix_phase(-one), &[a, b], t, &psi)
        }
        18 => {
            sim.mch(&[a], t);
            act(&matrix_h(), &[a], t, &psi)
        }
        19 => {
            sim.mcrx(&[a], Num(theta), t);
            act(&matrix_rx(theta), &[a], t, &psi)
        }
        20 => {
            sim.mcry(&[a], Num(theta), t);
            act(&matrix_ry(theta), &[a], t, &psi)
        }
        21 => {
            sim.mcrz(&[a, b], Num(theta), t);
            act(&matrix_rz(theta), &[a, b], t, &psi)
        }
        22 => {
            sim.mcs(&[a], t);
            act(&matrix_phase(i), &[a], t, &psi)
        }
        23 => {
            sim.mcsadj(&[a], t);
            act(&matrix_phase(-i), &[a], t, &psi)
        }
        24 => {
            sim.mct(&[a], t);
            act(&matrix_phase(eighth), &[a], t, &psi)
        }
        25 => {
            sim.mctadj(&[a, b], t);
            act(&matrix_phase(eighth.conj()), &[a, b], t, &psi)
        }
        26 => {
            let p = c(theta.cos(), theta.sin());
            sim.mcphase(&[a], Amp(p), t);
            act(&matrix_phase(p), &[a], t, &psi)
        }
        27 | 28 | 29 => {
            sim.ry(Num(theta), t);
            act(&matrix_ry(theta), &[], t, &psi)
        }
        _ => {
            sim.mcx(&[a], t);
            act(&matrix_x(), &[a], t, &psi)
        }
    }
}

/// Runs gates of the given kinds, in many orders, against a full state vector.
fn compare_with_matrices(kinds: &[u32]) {
    let mut rng = StdRng::seed_from_u64(7);
    for _ in 0..300 {
        let mut sim = with_qubits(3);
        let mut psi = vec![c(0.0, 0.0); 8];
        psi[0] = c(1.0, 0.0);
        for _ in 0..14 {
            let kind = kinds[rng.gen_range(0..kinds.len())];
            let theta = if rng.gen::<bool>() {
                rng.gen_range(-300..300) as f64 / 100.0
            } else {
                rng.gen_range(-5..6) as f64 * PI / 2.0
            };
            let t = rng.gen_range(0..3);
            let qs = if rng.gen::<bool>() {
                [t, (t + 1) % 3, (t + 2) % 3]
            } else {
                [t, (t + 2) % 3, (t + 1) % 3]
            };
            psi = gate(&mut sim, psi, kind, theta, &qs);
        }
        let got = vector(&mut sim, 3);
        assert!((weight(&got) - 1.0).abs() <= 1e-9);
        assert!(same_up_to_phase(&got, &psi), "{:?} is not {:?}", got, psi);
    }
}

#[test]
fn gates_follow_their_matrices() {
    let kinds: Vec<u32> = (0..34).collect();
    compare_with_matrices(&kinds);
}

#[test]
fn queued_gates_follow_their_matrices() {
    compare_with_matrices(&[0, 1, 2, 3, 11, 27]);
    compare_with_matrices(&[3, 11, 13, 16, 17, 30]);
    compare_with_matrices(&[3, 27, 13, 14, 15, 18, 20]);
    compare_with_matrices(&[0, 3, 11, 27, 30]);
    compare_with_matrices(&[3, 27, 30]);
}

#[test]
fn controlled_rotations_follow_their_matrices() {
    compare_with_matrices(&[0, 3, 11, 19, 20, 21, 27]);
    compare_with_matrices(&[3, 19, 20]);
}

#[test]
fn each_phase_has_its_value() {
    let f = FRAC_1_SQRT_2;
    assert_eq!(phase_of::<Amp>(PhaseGate::Z).0, -c(1.0, 0.0));
    assert_eq!(phase_of::<Amp>(PhaseGate::S).0, c(0.0, 1.0));
    assert_eq!(phase_of::<Amp>(PhaseGate::SAdj).0, -c(0.0, 1.0));
    assert_eq!(phase_of::<Amp>(PhaseGate::T).0, c(f, f));
    assert_eq!(phase_of::<Amp>(PhaseGate::TAdj).0, c(f, -f));
}

#[test]
fn rotations_have_exact_amplitudes() {
    let (s, k) = ((PI / 10.0).sin(), (PI / 10.0).cos());
    let mut sim = with_qubits(1);
    sim.rx(Num(PI / 5.0), 0);
    assert_vector(&vector(&mut sim, 1), &[(k, 0.0), (0.0, -s)]);
    let mut sim = with_qubits(1);
    sim.ry(Num(PI / 5.0), 0);
    assert_vector(&vector(&mut sim, 1), &[(k, 0.0), (s, 0.0)]);
    let mut sim = with_qubits(1);
    sim.rz(Num(PI / 5.0), 0);
    assert_vector(&vector(&mut sim, 1), &[(k, -s), (0.0, 0.0)]);
    let mut sim = with_qubits(1);
    sim.x(0);
    sim.rz(Num(PI / 5.0), 0);
    assert_vector(&vector(&mut sim, 1), &[(0.0, 0.0), (k, s)]);
    let mut sim = with_qubits(2);
    sim.x(1);
    sim.mcrx(&[1], Num(PI / 5.0), 0);
    assert_vector(
        &vector(&mut sim, 2),
        &[(0.0, 0.0), (0.0, 0.0), (k, 0.0), (0.0, -s)],
    );
    let mut sim = with_qubits(2);
    sim.x(1);
    sim.mcry(&[1], Num(PI / 5.0), 0);
    assert_vector(
        &vector(&mut sim, 2),
        &[(0.0, 0.0), (0.0, 0.0), (k, 0.0), (s, 0.0)],
    );
}

#[test]
fn queued_rotations_about_y_add_up() {
    let mut sim = with_qubits(1);
    sim.ry(Num(0.5), 0);
    sim.ry(Num(0.7), 0);
    assert_vector(&vector(&mut sim, 1), &[(0.6_f64.cos(), 0.0), (0.6_f64.sin(), 0.0)]);
    let mut sim = with_qubits(1);
    sim.ry(Num(0.5), 0);
    sim.ry(Num(-0.5), 0);
    assert_eq!(sim.dump().unwrap(), "{ \"|0\u{27e9}\": [1, 0] }\n");
}

#[test]
fn a_half_turn_is_a_pauli_gate() {
    let mut sim = with_qubits(1);
    sim.rx(Num(PI), 0);
    assert_vector(&vector(&mut sim, 1), &[(0.0, 0.0), (1.0, 0.0)]);
    let mut sim = with_qubits(1);
    sim.ry(Num(PI), 0);
    assert_vector(&vector(&mut sim, 1), &[(0.0, 0.0), (0.0, 1.0)]);
}

#[test]
fn a_controlled_half_turn_keeps_its_phase() {
    for (theta, about_y, ratio) in [
        (PI, false, c(0.0, -1.0)),
        (-PI, false, c(0.0, 1.0)),
        (3.0 * PI, false, c(0.0, 1.0)),
        (PI, true, c(1.0, 0.0)),
        (-PI, true, c(-1.0, 0.0)),
        (3.0 * PI, true, c(-1.0, 0.0)),
    ] {
        let mut sim = with_qubits(2);
        sim.h(0);
        if about_y {
            sim.mcry(&[0], Num(theta), 1);
        } else {
            sim.mcrx(&[0], Num(theta), 1);
        }
        let psi = vector(&mut sim, 2);
        assert_eq!(sim.state_len(), 2);
        assert!((psi[0].norm_sqr() - 0.5).abs() <= 1e-9);
        assert!(close(psi[3] / psi[0], ratio), "{:?}", psi);
    }
}

#[test]
fn a_controlled_full_turn_changes_a_sign() {
    for theta in [2.0 * PI, -2.0 * PI] {
        for about_y in [false, true] {
            let mut sim = with_qubits(2);
            sim.h(0);
            if about_y {
                sim.mcry(&[0], Num(theta), 1);
            } else {
                sim.mcrx(&[0], Num(theta), 1);
            }
            let psi = vector(&mut sim, 2);
            assert_eq!(sim.state_len(), 2);
            assert!((psi[0].norm_sqr() - 0.5).abs() <= 1e-9);
            assert!(close(psi[1] / psi[0], c(-1.0, 0.0)), "{:?}", psi);
        }
    }
    let mut sim = with_qubits(2);
    sim.h(0);
    sim.mcry(&[0], Num(4.0 * PI), 1);
    let psi = vector(&mut sim, 2);
    assert!(close(psi[1] / psi[0], c(1.0, 0.0)));
}

#[test]
fn a_half_turn_about_x_leaves_a_rotation_about_y_on_top_of_it() {
    let mut sim = with_qubits(1);
    sim.rx(Num(PI), 0);
    sim.ry(Num(PI / 2.0), 0);
    sim.flush_queue(&[0], FlushLevel::HRxRy);
    assert_eq!(sim.state_len(), 2);
    let psi = vector(&mut sim, 1);
    assert!((psi[0].norm_sqr() - 0.5).abs() <= 1e-9);
    assert!(close(psi[0] / psi[1], c(-1.0, 0.0)));
    let mut sim = with_qubits(1);
    sim.rx(Num(PI), 0);
    sim.ry(Num(0.8), 0);
    assert_vector(&vector(&mut sim, 1), &[(-0.4_f64.sin(), 0.0), (0.4_f64.cos(), 0.0)]);
}

#[test]
fn an_h_on_the_control_comes_before_the_controlled_gate() {
    let mut sim = with_qubits(2);
    sim.h(0);
    sim.h(1);
    sim.ry(Num(PI / 2.0), 1);
    sim.mcx(&[0], 1);
    assert!((sim.joint_probability(&[0, 1]).0 - 1.0).abs() <= 1e-9);
    let mut sim = with_qubits(2);
    sim.h(0);
    sim.h(1);
    sim.ry(Num(0.8), 1);
    sim.mcx(&[0], 1);
    let mut other = with_qubits(2);
    other.h(0);
    other.flush_queue(&[0], FlushLevel::HRxRy);
    other.h(1);
    other.ry(Num(0.8), 1);
    other.flush_queue(&[1], FlushLevel::HRxRy);
    other.mcx(&[0], 1);
    assert!(same_up_to_phase(&vector(&mut sim, 2), &vector(&mut other, 2)));
}

#[test]
fn flushing_up_to_a_level_changes_no_probability() {
    for level in [FlushLevel::H, FlushLevel::HRx, FlushLevel::HRxRy] {
        let mut sim = with_qubits(2);
        sim.h(0);
        sim.rx(Num(0.3), 1);
        sim.ry(Num(0.4), 0);
        sim.ry(Num(0.9), 1);
        let mut flushed = with_qubits(2);
        flushed.h(0);
        flushed.rx(Num(0.3), 1);
        flushed.ry(Num(0.4), 0);
        flushed.ry(Num(0.9), 1);
        flushed.flush_queue(&[0, 1], level);
        flushed.flush_queue(&[0, 1], level);
        assert!(same_up_to_phase(&vector(&mut sim, 2), &vector(&mut flushed, 2)));
    }
}

#[test]
fn flushing_twice_is_flushing_once() {
    let mut sim = with_qubits(1);
    sim.h(0);
    sim.flush_queue(&[0], FlushLevel::HRxRy);
    let once = sim.dump_impl(false).unwrap();
    sim.flush_queue(&[0], FlushLevel::HRxRy);
    assert_eq!(sim.dump_impl(false).unwrap(), once);
}

#[test]
fn two_h_gates_never_touch_the_state() {
    let mut sim = with_qubits(1);
    sim.h(0);
    assert_eq!(sim.state_len(), 1);
    sim.h(0);
    assert_eq!(sim.dump_impl(false).unwrap(), "{ \"|0\u{27e9}\": [1, 0] }\n");
}

#[test]
fn an_x_gate_undoes_itself_exactly() {
    let mut sim = with_qubits(3);
    for q in 0..3 {
        sim.h(q);
        sim.rz(Num(0.1 + q as f64), q);
    }
    sim.flush_queue(&[0, 1, 2], FlushLevel::HRxRy);
    let before = sim.dump_impl(false).unwrap();
    sim.x(1);
    assert_ne!(sim.dump_impl(false).unwrap(), before);
    sim.x(1);
    assert_eq!(sim.dump_impl(false).unwrap(), before);
    sim.mcx(&[0, 2], 1);
    assert_ne!(sim.dump_impl(false).unwrap(), before);
    sim.mcx(&[0, 2], 1);
    assert_eq!(sim.dump_impl(false).unwrap(), before);
}

#[test]
fn adjoints_undo_their_gates() {
    let theta = Num(0.77);
    let opposite = Num(-0.77);
    let undone: [fn(&mut Sim, Num, Num); 7] = [
        |sim, _, _| {
            sim.s(0);
            sim.sadj(0);
        },
        |sim, _, _| {
            sim.t(0);
            sim.tadj(0);
        },
        |sim, a, b| {
            sim.rx(a, 0);
            sim.rx(b, 0);
        },
        |sim, a, b| {
            sim.ry(a, 0);
            sim.ry(b, 0);
        },
        |sim, a, b| {
            sim.mcrz(&[1], a, 0);
            sim.mcrz(&[1], b, 0);
        },
        |sim, _, _| {
            sim.mch(&[1], 0);
            sim.mch(&[1], 0);
        },
        |sim, _, _| {
            sim.mcy(&[1], 0);
            sim.mcy(&[1], 0);
        },
    ];
    for run in undone {
        let mut sim = with_qubits(2);
        sim.h(0);
        sim.mcx(&[0], 1);
        sim.t(1);
        sim.h(1);
        let mut other = with_qubits(2);
        other.h(0);
        other.mcx(&[0], 1);
        other.t(1);
        other.h(1);
        run(&mut sim, theta, opposite);
        assert!(same_up_to_phase(&vector(&mut sim, 2), &vector(&mut other, 2)));
    }
}

#[test]
fn controls_that_are_zero_block_a_gate() {
    let mut sim = with_qubits(3);
    sim.h(0);
    sim.h(1);
    sim.flush_queue(&[0, 1], FlushLevel::HRxRy);
    let before = sim.dump_impl(false).unwrap();
    sim.mcx(&[2], 0);
    sim.mcy(&[2], 0);
    sim.mcz(&[2], 0);
    sim.mcs(&[1, 2], 0);
    sim.mch(&[2], 0);
    sim.mcrx(&[2], Num(0.3), 0);
    sim.mcry(&[2], Num(0.3), 0);
    sim.mcrz(&[2], Num(0.3), 0);
    assert_eq!(sim.dump_impl(false).unwrap(), before);
}

#[test]
fn gates_on_single_entries_keep_the_size_of_the_state() {
    let mut sim = with_qubits(3);
    for q in 0..3 {
        sim.h(q);
    }
    sim.flush_queue(&[0, 1, 2], FlushLevel::HRxRy);
    assert_eq!(sim.state_len(), 8);
    sim.x(0);
    sim.y(1);
    sim.z(2);
    sim.mcx(&[0], 1);
    sim.mcy(&[0, 2], 1);
    sim.mct(&[0], 2);
    sim.rz(Num(0.4), 1);
    assert_eq!(sim.state_len(), 8);
    let mut sim = with_qubits(2);
    sim.mch(&[], 0);
    assert_eq!(sim.state_len(), 2);
    sim.mch(&[], 0);
    assert_eq!(sim.state_len(), 1);
}

#[test]
fn a_new_simulation_has_the_amplitude_one() {
    let mut sim: Sim = QuantumSim::default();
    assert_eq!(sim.state_len(), 1);
    assert_eq!(sim.dump().unwrap(), "{ \"|0\u{27e9}\": [1, 0] }\n");
    assert_eq!(sim.resolve(0), Err(QubitError::NotFound(0)));
}

#[test]
fn a_released_identifier_is_the_next_to_be_allocated() {
    let mut sim = with_qubits(4);
    sim.x(1);
    sim.x(2);
    sim.release(2, Num(0.5));
    assert_eq!(sim.resolve(2), Err(QubitError::NotFound(2)));
    assert_eq!(sim.check_joint_probability(&[2]).0, 0.0);
    assert_eq!(sim.check_joint_probability(&[1]).0, 1.0);
    sim.release(1, Num(0.5));
    assert_eq!(sim.allocate(), 1);
    assert_eq!(sim.allocate(), 2);
    assert_eq!(sim.allocate(), 4);
    assert_eq!(sim.joint_probability(&[1, 2]).0, 0.0);
}

#[test]
fn a_released_qubit_leaves_the_others() {
    let mut sim = with_qubits(2);
    sim.h(0);
    sim.mcx(&[0], 1);
    sim.release(1, Num(0.3));
    assert_eq!(sim.joint_probability(&[0]).0, 1.0);
    let mut sim = with_qubits(2);
    sim.h(0);
    sim.mcx(&[0], 1);
    sim.release(1, Num(0.7));
    assert_eq!(sim.joint_probability(&[0]).0, 0.0);
    assert!((weight(&vector(&mut sim, 1)) - 1.0).abs() <= 1e-12);
}

#[test]
fn the_sample_decides_a_measurement() {
    let p = (0.6_f64 / 2.0).sin().powi(2);
    for (sample, expected) in [(0.0, true), (p - 1e-6, true), (p + 1e-6, false), (0.999, false)] {
        let mut sim = with_qubits(1);
        sim.ry(Num(0.6), 0);
        assert_eq!(sim.measure(0, Num(sample)), expected);
        assert!((sim.joint_probability(&[0]).0 - if expected { 1.0 } else { 0.0 }).abs() <= 1e-12);
        for again in [0.0, 0.25, 0.5, 0.75, 0.999] {
            assert_eq!(sim.measure(0, Num(again)), expected);
        }
    }
}

#[test]
fn a_joint_measurement_leaves_the_measured_parity() {
    for sample in [0.1, 0.9] {
        let mut sim = with_qubits(3);
        for q in 0..3 {
            sim.h(q);
        }
        let odd = sim.joint_measure(&[0, 2], Num(sample));
        assert_eq!(odd, sample < 0.5);
        let psi = vector(&mut sim, 3);
        assert!((weight(&psi) - 1.0).abs() <= 1e-9);
        for (k, v) in psi.iter().enumerate() {
            let parity = (k & 1 == 1) != (k >> 2 & 1 == 1);
            let expected = if parity == odd { 0.5 } else { 0.0 };
            assert!((v.norm() - expected).abs() <= 1e-9);
        }
    }
}

#[test]
fn a_measurement_of_another_qubit_keeps_what_is_queued() {
    let mut sim = with_qubits(2);
    sim.h(0);
    sim.h(1);
    assert!(sim.measure(1, Num(0.2)));
    let f = FRAC_1_SQRT_2;
    assert_vector(
        &vector(&mut sim, 2),
        &[(0.0, 0.0), (0.0, 0.0), (f, 0.0), (f, 0.0)],
    );
}

#[test]
fn an_impossible_outcome_leaves_nothing_to_show() {
    let mut sim = with_qubits(1);
    sim.x(0);
    assert!(!sim.measure(0, Num(1.0)));
    assert_eq!(sim.state_len(), 0);
    assert_eq!(sim.dump_impl(false), None);
    assert_eq!(sim.dump(), None);
}

#[test]
fn exchanged_identifiers_take_along_what_is_queued() {
    let (s, k) = (0.2_f64.sin(), 0.2_f64.cos());
    let mut sim = with_qubits(2);
    sim.x(1);
    sim.ry(Num(0.4), 0);
    sim.swap_qubit_ids(0, 1);
    assert_vector(
        &vector(&mut sim, 2),
        &[(0.0, 0.0), (k, 0.0), (0.0, 0.0), (s, 0.0)],
    );
    let mut sim = with_qubits(2);
    sim.rx(Num(0.4), 1);
    sim.h(0);
    sim.swap_qubit_ids(1, 0);
    sim.swap_qubit_ids(0, 1);
    let f = FRAC_1_SQRT_2;
    assert_vector(
        &vector(&mut sim, 2),
        &[(f * k, 0.0), (f * k, 0.0), (0.0, -f * s), (0.0, -f * s)],
    );
}

#[test]
fn exchanged_states_come_back() {
    let mut sim = with_qubits(2);
    sim.x(0);
    sim.swap_qubit_state(0, 1);
    assert_eq!(sim.dump_impl(false).unwrap(), "{ \"|2\u{27e9}\": [1, 0] }\n");
    sim.swap_qubit_state(1, 1);
    assert_eq!(sim.dump_impl(false).unwrap(), "{ \"|2\u{27e9}\": [1, 0] }\n");
    sim.swap_qubit_state(1, 0);
    assert_eq!(sim.dump_impl(false).unwrap(), "{ \"|1\u{27e9}\": [1, 0] }\n");
}

#[test]
fn a_dump_is_ordered_by_identifier() {
    let mut sim = with_qubits(3);
    sim.x(0);
    sim.swap_qubit_ids(0, 2);
    assert_eq!(sim.resolve(2), Ok(0));
    assert_eq!(sim.dump_impl(false).unwrap(), "{ \"|1\u{27e9}\": [1, 0] }\n");
    assert_eq!(sim.dump().unwrap(), "{ \"|4\u{27e9}\": [1, 0] }\n");
    assert_eq!(sim.resolve_all(&[0, 1, 2]), Ok(vec![0, 1, 2]));
    sim.swap_qubit_ids(1, 2);
    sim.h(0);
    sim.sort_qubits();
    assert_eq!(sim.resolve_all(&[2, 1, 0]), Ok(vec![2, 1, 0]));
    let f = FRAC_1_SQRT_2;
    assert_eq!(
        sim.dump_impl(false).unwrap(),
        format!("{{ \"|2\u{27e9}\": [{}, 0], \"|3\u{27e9}\": [{}, 0] }}\n", f, f)
    );
}

#[test]
fn a_dump_can_show_the_id_map() {
    let mut sim = with_qubits(1);
    sim.x(0);
    sim.y(0);
    assert_eq!(
        sim.dump_impl(true).unwrap(),
        "MAP: {0: 0}\n{ \"|0\u{27e9}\": [0, -1] }\n"
    );
}

#[test]
fn labels_can_have_many_digits() {
    let mut sim = with_qubits(71);
    sim.x(70);
    sim.h(3);
    let text = sim.dump().unwrap();
    let f = FRAC_1_SQRT_2;
    assert_eq!(
        text,
        format!(
            "{{ \"|1180591620717411303424\u{27e9}\": [{}, 0], \"|1180591620717411303432\u{27e9}\": [{}, 0] }}\n",
            f, f
        )
    );
}

#[test]
fn repeated_identifiers_are_found() {
    assert_eq!(check_for_duplicates(&[]), Ok(()));
    assert_eq!(check_for_duplicates(&[3, 1, 2]), Ok(()));
    let err = check_for_duplicates(&[3, 1, 2, 1, 3]);
    assert_eq!(err, Err(QubitError::Duplicate(1)));
    assert_eq!(
        err.unwrap_err().message(),
        "Duplicate qubit id '1' found in application."
    );
}

#[test]
fn unknown_identifiers_are_found() {
    let mut sim = with_qubits(3);
    sim.release(0, Num(0.5));
    assert_eq!(sim.resolve(1), Ok(1));
    assert_eq!(sim.resolve_all(&[2, 1]), Ok(vec![2, 1]));
    assert_eq!(sim.resolve_all(&[2, 17, 0]), Err(QubitError::NotFound(17)));
    assert_eq!(
        sim.resolve_all(&[0]).unwrap_err().message(),
        "Unable to find qubit with id 0"
    );
    assert_eq!(sim.resolve_and_check_qubits(1, &[2]), Ok((1, vec![2])));
    assert_eq!(
        sim.resolve_and_check_qubits(1, &[2, 1]),
        Err(QubitError::Duplicate(1))
    );
    assert_eq!(
        sim.resolve_and_check_qubits(0, &[9]),
        Err(QubitError::NotFound(0))
    );
    assert_eq!(
        sim.resolve_and_check_qubits(1, &[9]),
        Err(QubitError::NotFound(9))
    );
}

#[test]
fn a_dump_closes_the_gaps_between_locations() {
    let mut sim = with_qubits(2);
    sim.x(1);
    sim.release(0, Num(0.5));
    assert_eq!(sim.dump().unwrap(), "{ \"|1\u{27e9}\": [1, 0] }\n");
    assert_eq!(sim.resolve(1), Ok(0));
    let (s, k) = (0.3_f64.sin(), 0.3_f64.cos());
    let mut sim = with_qubits(6);
    sim.x(3);
    sim.ry(Num(0.6), 5);
    for q in [0, 2, 4] {
        sim.release(q, Num(0.5));
    }
    sim.swap_qubit_ids(1, 5);
    sim.sort_qubits();
    assert_eq!(sim.resolve_all(&[1, 3, 5]), Ok(vec![0, 1, 2]));
    assert_vector(
        &vector(&mut sim, 3),
        &[
            (0.0, 0.0),
            (0.0, 0.0),
            (k, 0.0),
            (s, 0.0),
            (0.0, 0.0),
            (0.0, 0.0),
            (0.0, 0.0),
            (0.0, 0.0),
        ],
    );
    assert_eq!(sim.allocate(), 0);
    assert_eq!(sim.resolve(0), Ok(3));
}

#[test]
fn a_second_dump_shows_the_same() {
    let mut sim = with_qubits(4);
    for q in 0..4 {
        sim.h(q);
        sim.rz(Num(0.3 * q as f64), q);
    }
    sim.ry(Num(0.2), 3);
    sim.swap_qubit_ids(0, 2);
    sim.release(1, Num(0.9));
    let text = sim.dump().unwrap();
    let ids = sim.resolve_all(&[0, 2, 3]);
    assert_eq!(ids, Ok(vec![0, 1, 2]));
    assert_eq!(sim.dump().unwrap(), text);
    assert_eq!(sim.resolve_all(&[0, 2, 3]), ids);
    assert_eq!(sim.dump_impl(false).unwrap(), text);
    let labels: Vec<usize> = text
        .split("\"|")
        .skip(1)
        .map(|e| e.split_once('\u{27e9}').unwrap().0.parse().unwrap())
        .collect();
    assert_eq!(labels, vec![0, 1, 2, 3, 4, 5, 6, 7]);
}

#[test]
fn releasing_a_new_qubit_gives_everything_back() {
    let mut sim = with_qubits(3);
    sim.h(0);
    sim.rz(Num(0.4), 0);
    sim.flush_queue(&[0], FlushLevel::HRxRy);
    sim.release(1, Num(0.5));
    sim.ry(Num(0.6), 2);
    let before = sim.dump_impl(false).unwrap();
    let q = sim.allocate();
    assert_eq!(q, 1);
    sim.release(q, Num(0.0));
    assert_eq!(sim.dump_impl(false).unwrap(), before);
    assert_eq!(sim.resolve(q), Err(QubitError::NotFound(q)));
    assert_eq!(sim.resolve_all(&[0, 2]), Ok(vec![0, 2]));
    let p = 0.3_f64.sin().powi(2);
    assert!((sim.joint_probability(&[2]).0 - p).abs() <= 1e-9);
}

#[test]
fn two_x_gates_give_back_what_is_queued() {
    for level in [FlushLevel::H, FlushLevel::HRx, FlushLevel::HRxRy] {
        let mut sim = with_qubits(2);
        let mut other = with_qubits(2);
        for s in [&mut sim, &mut other] {
            s.rx(Num(0.5), 0);
            s.h(0);
            s.rx(Num(0.3), 0);
            s.ry(Num(0.4), 0);
            s.mcry(&[0], Num(0.9), 1);
            s.h(0);
            s.rx(Num(0.2), 0);
            s.ry(Num(0.7), 0);
        }
        sim.x(0);
        sim.x(0);
        sim.flush_queue(&[0], level);
        other.flush_queue(&[0], level);
        let (a, b) = (vector(&mut sim, 2), vector(&mut other, 2));
        assert!(same_up_to_phase(&a, &b));
    }
}

#[test]
fn roots_of_z_multiply() {
    let psi = |gates: &[u32]| {
        let mut sim = with_qubits(2);
        sim.h(0);
        sim.ry(Num(0.7), 1);
        sim.mcx(&[0], 1);
        for g in gates {
            match g {
                0 => sim.z(1),
                1 => sim.s(1),
                2 => sim.t(1),
                3 => sim.mcz(&[0], 1),
                4 => sim.mcs(&[0], 1),
                _ => sim.mct(&[0], 1),
            }
        }
        vector(&mut sim, 2)
    };
    assert!(same_up_to_phase(&psi(&[1, 1]), &psi(&[0])));
    assert!(same_up_to_phase(&psi(&[2, 2]), &psi(&[1])));
    assert!(same_up_to_phase(&psi(&[4, 4]), &psi(&[3])));
    assert!(same_up_to_phase(&psi(&[5, 5]), &psi(&[4])));
    assert!(!same_up_to_phase(&psi(&[2]), &psi(&[1])));
}

#[test]
fn no_entry_is_zero() {
    let mut rng = StdRng::seed_from_u64(11);
    for _ in 0..200 {
        let mut sim = with_qubits(3);
        let mut psi = vec![c(0.0, 0.0); 8];
        psi[0] = c(1.0, 0.0);
        for _ in 0..10 {
            let kind = rng.gen_range(0..34);
            let theta = rng.gen_range(-4..5) as f64 * PI / 2.0;
            let t = rng.gen_range(0..3);
            psi = gate(&mut sim, psi, kind, theta, &[t, (t + 1) % 3, (t + 2) % 3]);
        }
        let got = vector(&mut sim, 3);
        let nonzero = got.iter().filter(|v| v.norm() > 1e-9).count();
        assert_eq!(sim.state_len(), nonzero);
        assert_eq!(nonzero, psi.iter().filter(|v| v.norm() > 1e-9).count());
    }
}

#[test]
fn undone_gates_leave_as_many_entries() {
    let theta = 0.9;
    for kind in 0..4 {
        let mut sim = with_qubits(3);
        sim.x(1);
        sim.x(2);
        let p = c(0.6, 0.8);
        match kind {
            0 => {
                sim.mcrx(&[1], Num(theta), 0);
                assert_eq!(sim.state_len(), 2);
                sim.mcrx(&[1], Num(-theta), 0);
            }
            1 => {
                sim.mch(&[1, 2], 0);
                assert_eq!(sim.state_len(), 2);
                sim.mch(&[1, 2], 0);
            }
            2 => {
                sim.mcphase(&[1], Amp(p), 2);
                assert_eq!(sim.state_len(), 1);
                sim.mcphase(&[1], Amp(p.conj()), 2);
            }
            _ => {
                sim.mcry(&[2], Num(theta), 0);
                assert_eq!(sim.state_len(), 2);
                sim.mcry(&[2], Num(-theta), 0);
            }
        }
        assert_eq!(sim.state_len(), 1);
        let psi = vector(&mut sim, 3);
        assert!(close(psi[6], c(1.0, 0.0)));
    }
}

#[test]
fn rotations_about_z_add_up() {
    let psi = |angles: &[f64]| {
        let mut sim = with_qubits(2);
        sim.h(0);
        sim.ry(Num(0.7), 1);
        sim.flush_queue(&[0, 1], FlushLevel::HRxRy);
        for a in angles {
            sim.mcrz(&[0], Num(*a), 1);
        }
        vector(&mut sim, 2)
    };
    let (both, once) = (psi(&[0.4, 0.9]), psi(&[1.3]));
    let (back, none) = (psi(&[0.4, -0.4]), psi(&[]));
    for k in 0..4 {
        assert!(close(both[k], once[k]));
        assert!(close(back[k], none[k]));
    }
    assert!(close(psi(&[0.4])[3], none[3] * c(0.2_f64.cos(), 0.2_f64.sin())));
    assert!(close(psi(&[0.4])[1], none[1] * c(0.2_f64.cos(), -0.2_f64.sin())));
    assert!(close(psi(&[0.4])[2], none[2]));
}

#[test]
fn a_phase_is_for_the_basis_states_with_all_ones() {
    let prepared = || {
        let mut sim = with_qubits(2);
        sim.h(0);
        sim.h(1);
        sim.flush_queue(&[0, 1], FlushLevel::HRxRy);
        sim
    };
    let p = c(0.6, -0.8);
    let mut sim = prepared();
    sim.mcphase(&[1], Amp(p), 0);
    assert_vector(
        &vector(&mut sim, 2),
        &[(0.5, 0.0), (0.5, 0.0), (0.5, 0.0), (0.3, -0.4)],
    );
    let mut sim = prepared();
    sim.s(1);
    assert_vector(
        &vector(&mut sim, 2),
        &[(0.5, 0.0), (0.5, 0.0), (0.0, 0.5), (0.0, 0.5)],
    );
    sim.sadj(1);
    assert_vector(
        &vector(&mut sim, 2),
        &[(0.5, 0.0), (0.5, 0.0), (0.5, 0.0), (0.5, 0.0)],
    );
    sim.s(1);
    sim.s(1);
    assert_vector(
        &vector(&mut sim, 2),
        &[(0.5, 0.0), (0.5, 0.0), (-0.5, 0.0), (-0.5, 0.0)],
    );
}

#[test]
fn a_mixing_gate_at_most_doubles_the_state() {
    let mut sim = with_qubits(4);
    for q in 0..4 {
        let before = sim.state_len();
        sim.mch(&[], q);
        assert_eq!(sim.state_len(), 2 * before);
    }
    sim.mcry(&[0], Num(0.3), 1);
    assert!(sim.state_len() <= 32);
}

#[test]
fn a_controlled_z_has_no_target_of_its_own() {
    let prepared = || {
        let mut sim = with_qubits(3);
        for q in 0..3 {
            sim.h(q);
            sim.ry(Num(0.3 * q as f64), q);
        }
        sim
    };
    let before = vector(&mut prepared(), 3);
    let mut sim = prepared();
    sim.mcz(&[0, 2], 1);
    let one = vector(&mut sim, 3);
    let mut sim = prepared();
    sim.mcz(&[1, 0], 2);
    assert!(same_up_to_phase(&one, &vector(&mut sim, 3)));
    sim.mcz(&[2, 1], 0);
    assert!(same_up_to_phase(&before, &vector(&mut sim, 3)));
    for k in 0..8 {
        let sign = if k == 7 { -1.0 } else { 1.0 };
        assert!(close(one[k] / one[0], before[k] / before[0] * sign));
    }
}

#[test]
fn an_opposite_rotation_empties_the_queue() {
    for about_y in [false, true] {
        let mut sim = with_qubits(2);
        sim.h(1);
        for theta in [0.77, -0.77] {
            if about_y {
                sim.ry(Num(theta), 0);
            } else {
                sim.rx(Num(theta), 0);
            }
        }
        sim.flush_queue(&[0], FlushLevel::HRxRy);
        assert_eq!(sim.dump_impl(false).unwrap(), "{ \"|0\u{27e9}\": [1, 0] }\n");
        assert!((sim.joint_probability(&[1]).0 - 0.5).abs() <= 1e-9);
    }
}

#[test]
fn a_new_qubit_leaves_the_others() {
    let (s, k) = (0.3_f64.sin(), 0.3_f64.cos());
    let mut sim = with_qubits(2);
    sim.ry(Num(0.6), 1);
    sim.release(0, Num(0.5));
    assert_eq!(sim.allocate(), 0);
    assert_vector(
        &vector(&mut sim, 2),
        &[(k, 0.0), (0.0, 0.0), (s, 0.0), (0.0, 0.0)],
    );
}

#[test]
fn the_id_map_shows_every_qubit() {
    let mut sim = with_qubits(12);
    sim.swap_qubit_ids(3, 11);
    let text = sim.dump_impl(true).unwrap();
    let line = text.lines().next().unwrap();
    let inner = line.strip_prefix("MAP: {").unwrap().strip_suffix('}').unwrap();
    let mut shown: Vec<String> = inner.split(", ").map(|e| e.to_string()).collect();
    let mut expected: Vec<String> = (0..12)
        .map(|q| match q {
            3 => format!("3: 11"),
            11 => format!("11: 3"),
            _ => format!("{}: {}", q, q),
        })
        .collect();
    shown.sort();
    expected.sort();
    assert_eq!(shown, expected);
    assert_eq!(
        QuantumSim::<Amp>::new().dump_impl(true).unwrap(),
        "MAP: {}\n{ \"|0\u{27e9}\": [1, 0] }\n"
    );
}
