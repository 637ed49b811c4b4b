//! What amplitudes and angles mean where the arithmetic does not round.
use crate::arith::{
    complex, difference, exponential, imaginary_unit, nearly_zero, negated, norm_square, one,
    product, real_cos, real_frac_1_sqrt_2, real_half, real_less, real_nearly_zero, real_negated,
    real_recip, real_sin, real_sqrt, real_sum, real_zero, scaled, sum, Amplitude,
};
use crate::exact::{times_comm, times_negate, times_plus, times_units, Cx};
use crate::gates::{hadamard, pauli_x, pauli_y, phase_matrix, rot_x, rot_y, rot_z};
use crate::matrix::{act, dot, lemma_controls_kept, no_control, Mat2, Vector};
use crate::model::{
    all_set, factor_of, gate_entry, gate_on_state, image, image_value, kept, kept_finished,
    mix_entry, mix_on_state, pair_value, phase_of_angle, rz_factor, signed_half, Mix, Transform,
};
use crate::norms::norm2;
use vstd::prelude::*;

verus! {

/// Which numbers the values of an arithmetic stand for.
#[verifier::reject_recursive_types(A)]
pub struct Reading<A: Amplitude> {
    /// The complex number that an amplitude stands for.
    pub number: spec_fn(A) -> Cx,
    /// The real number that an angle or a factor stands for.
    pub value: spec_fn(A::Real) -> real,
    /// One over the square root of two.
    pub root_half: real,
    /// The cosine.
    pub cosine: spec_fn(real) -> real,
    /// The sine.
    pub sine: spec_fn(real) -> real,
}

/// Half of a number.
pub open spec fn half(x: real) -> real {
    x / (2 as real)
}

impl<A: Amplitude> Reading<A> {
    /// The complex number that an amplitude stands for.
    pub open spec fn num(self, v: A) -> Cx {
        (self.number)(v)
    }

    /// The real number that an angle or a factor stands for.
    pub open spec fn val(self, v: A::Real) -> real {
        (self.value)(v)
    }

    /// The cosine of an angle.
    pub open spec fn cos(self, x: real) -> real {
        (self.cosine)(x)
    }

    /// The sine of an angle.
    pub open spec fn sin(self, x: real) -> real {
        (self.sine)(x)
    }

    /// What is used of the sine and the cosine of one angle.
    pub open spec fn trigonometry(self) -> bool {
        &&& self.cos(0 as real) == 1 as real
        &&& self.sin(0 as real) == 0 as real
        &&& forall|x: real| #![trigger self.cos(x)] #![trigger self.sin(x)]
            self.cos(x) * self.cos(x) + self.sin(x) * self.sin(x) == 1 as real
        &&& forall|x: real| #[trigger] self.turns_back(x)
        &&& forall|x: real, y: real| #[trigger] self.angles_add(x, y)
    }

    /// The cosine and the sine of an opposite angle.
    pub open spec fn turns_back(self, x: real) -> bool {
        &&& self.cos(-x) == self.cos(x)
        &&& self.sin(-x) == -self.sin(x)
    }

    /// The cosine and the sine of a sum.
    pub open spec fn angles_add(self, x: real, y: real) -> bool {
        &&& self.cos(x + y) == self.cos(x) * self.cos(y) - self.sin(x) * self.sin(y)
        &&& self.sin(x + y) == self.sin(x) * self.cos(y) + self.cos(x) * self.sin(y)
    }

    /// Whether the arithmetic of real numbers is exact.
    pub open spec fn exact_reals(self) -> bool {
        &&& forall|r: A::Real| #[trigger] real_zero(r) ==> self.val(r) == 0 as real
        &&& self.root_half > 0 as real
        &&& (2 as real) * (self.root_half * self.root_half) == 1 as real
        &&& forall|r: A::Real| #[trigger] real_frac_1_sqrt_2(r) ==> self.val(r) == self.root_half
        &&& forall|a: A::Real, r: A::Real| #[trigger]
            real_negated(a, r) ==> self.val(r) == -self.val(a)
        &&& forall|a: A::Real, b: A::Real, r: A::Real| #[trigger]
            real_sum(a, b, r) ==> self.val(r) == self.val(a) + self.val(b)
        &&& forall|a: A::Real, r: A::Real| #[trigger]
            real_half(a, r) ==> self.val(r) == half(self.val(a))
        &&& forall|a: A::Real, r: A::Real| #[trigger]
            real_sin(a, r) ==> self.val(r) == self.sin(self.val(a))
        &&& forall|a: A::Real, r: A::Real| #[trigger]
            real_cos(a, r) ==> self.val(r) == self.cos(self.val(a))
        &&& forall|a: A::Real, r: A::Real| #[trigger]
            real_sqrt(a, r) && self.val(a) >= 0 as real ==> self.val(r) >= 0 as real && self.val(r)
                * self.val(r) == self.val(a)
        &&& forall|a: A::Real, r: A::Real| #[trigger]
            real_recip(a, r) && self.val(a) != 0 as real ==> self.val(a) * self.val(r) == 1 as real
        &&& forall|a: A::Real, b: A::Real, r: bool| #[trigger]
            real_less(a, b, r) ==> r == (self.val(a) < self.val(b))
        &&& forall|a: A::Real| #[trigger] real_nearly_zero(a, true) ==> self.val(a) == 0 as real
    }

    /// Whether the arithmetic of complex numbers is exact.
    pub open spec fn exact_numbers(self) -> bool {
        &&& forall|re: A::Real, im: A::Real, r: A| #[trigger]
            complex(re, im, r) ==> self.num(r) == (Cx { re: self.val(re), im: self.val(im) })
        &&& forall|r: A| #[trigger] one(r) ==> self.num(r) == Cx::one()
        &&& forall|r: A| #[trigger] imaginary_unit(r) ==> self.num(r) == Cx::i()
        &&& forall|a: A, r: A| #[trigger] negated(a, r) ==> self.num(r) == self.num(a).negate()
        &&& forall|a: A, b: A, r: A| #[trigger]
            sum(a, b, r) ==> self.num(r) == self.num(a).plus(self.num(b))
        &&& forall|a: A, b: A, r: A| #[trigger]
            difference(a, b, r) ==> self.num(r) == self.num(a).plus(self.num(b).negate())
        &&& forall|a: A, b: A, r: A| #[trigger]
            product(a, b, r) ==> self.num(r) == self.num(a).times(self.num(b))
        &&& forall|a: A, f: A::Real, r: A| #[trigger]
            scaled(a, f, r) ==> self.num(r) == self.num(a).times(Cx::of(self.val(f)))
        &&& forall|a: A, r: A| #[trigger]
            exponential(a, r) && self.num(a).re == 0 as real ==> self.num(r) == (Cx {
                re: self.cos(self.num(a).im),
                im: self.sin(self.num(a).im),
            })
        &&& forall|a: A, r: A::Real| #[trigger] norm_square(a, r) ==> self.val(r) == norm2(self.num(a))
        &&& forall|a: A| #[trigger] nearly_zero(a, true) ==> self.num(a) == Cx::zero()
    }

    /// Whether the arithmetic does not round: each operation gives the number
    /// that it is named after, and only zero counts as zero.
    pub open spec fn exact(self) -> bool {
        &&& self.trigonometry()
        &&& self.exact_reals()
        &&& self.exact_numbers()
    }

    /// Whether the test for zero finds the number zero, and no other.
    pub open spec fn tells_zero(self) -> bool {
        forall|a: A, r: bool| #[trigger] nearly_zero(a, r) ==> r == (self.num(a) == Cx::zero())
    }

    /// The cosine of half of an angle.
    pub open spec fn cos_half(self, theta: A::Real) -> real {
        self.cos(half(self.val(theta)))
    }

    /// The sine of half of an angle.
    pub open spec fn sin_half(self, theta: A::Real) -> real {
        self.sin(half(self.val(theta)))
    }

    /// The matrix of a rotation about X.
    pub open spec fn rx(self, theta: A::Real) -> Mat2 {
        rot_x(self.cos_half(theta), self.sin_half(theta))
    }

    /// The matrix of a rotation about Y.
    pub open spec fn ry(self, theta: A::Real) -> Mat2 {
        rot_y(self.cos_half(theta), self.sin_half(theta))
    }

    /// The matrix of a rotation about Z.
    pub open spec fn rz(self, theta: A::Real) -> Mat2 {
        rot_z(self.cos_half(theta), self.sin_half(theta))
    }

    /// The matrix of a gate that works entry by entry.
    pub open spec fn transform_matrix(self, gate: Transform<A>) -> Mat2 {
        match gate {
            Transform::X => pauli_x(),
            Transform::Y => pauli_y(),
            Transform::Phase(p) => phase_matrix(self.num(p)),
            Transform::Rz(theta) => self.rz(theta),
        }
    }

    /// The matrix of a mixing gate.
    pub open spec fn mix_matrix(self, mix: Mix<A>) -> Mat2 {
        match mix {
            Mix::Hadamard(f) => hadamard(self.val(f)),
            Mix::Rotation { m00, m01, m10 } => Mat2 {
                a: self.num(m00),
                b: self.num(m01),
                c: self.num(m10),
                d: self.num(m00),
            },
        }
    }

    /// The state vector that a sparse state stands for.
    pub open spec fn vector(self, state: Map<Set<nat>, A>) -> Vector {
        |k: Set<nat>|
            if state.contains_key(k) {
                self.num(state[k])
            } else {
                Cx::zero()
            }
    }
}

/// A gate that works entry by entry acts by its matrix.
pub(crate) proof fn lemma_gate_acts<A: Amplitude>(
    rd: Reading<A>,
    pre: Map<Set<nat>, A>,
    ctls: Seq<usize>,
    t: nat,
    gate: Transform<A>,
    post: Map<Set<nat>, A>,
)
    requires
        rd.exact(),
        no_control(ctls, t),
        gate_on_state(pre, ctls, t, gate, post),
    ensures
        rd.vector(post) == act(rd.transform_matrix(gate), ctls, t, rd.vector(pre)),
{
    let l = rd.vector(post);
    let m = rd.transform_matrix(gate);
    let psi = rd.vector(pre);
    let r = act(m, ctls, t, psi);
    assert forall|k: Set<nat>| #[trigger] l(k) == r(k) by {
        assert(gate_entry(pre, ctls, t, gate, post, k));
        let from = image(k, ctls, t, gate);
        lemma_controls_kept(k, ctls, t);
        if all_set(k, ctls) {
            if k.contains(t) {
                assert(k.insert(t) =~= k);
            } else {
                assert(k.remove(t) =~= k);
            }
            times_units(psi(k.remove(t)));
            times_units(psi(k.insert(t)));
            if pre.contains_key(from) {
                let v = choose|v: A| #[trigger]
                    image_value(pre, from, ctls, t, gate, v) && kept(v, k, post);
                if !(gate is X) {
                    let f = choose|f: A| #[trigger]
                        factor_of(gate, from.contains(t), f) && product(pre[from], f, v);
                    lemma_factor(rd, gate, from.contains(t), f);
                    times_comm(rd.num(pre[from]), rd.num(f));
                }
            } else {
                times_units(Cx::i());
                times_units(Cx::i().negate());
                times_units(m.a);
                times_units(m.d);
            }
        }
    }
    assert(l =~= r);
}

/// The number by which a gate multiplies.
pub(crate) proof fn lemma_factor<A: Amplitude>(rd: Reading<A>, gate: Transform<A>, bit: bool, f: A)
    requires
        rd.exact(),
        factor_of(gate, bit, f),
    ensures
        ({
            let m = rd.transform_matrix(gate);
            rd.num(f) == match gate {
                Transform::Y => if bit {
                    m.b
                } else {
                    m.c
                },
                _ => if bit {
                    m.d
                } else {
                    m.a
                },
            }
        }),
{
    if let Transform::Rz(theta) = gate {
        assert(rz_factor(theta, bit, f));
        let angle = choose|angle: A::Real| #[trigger]
            signed_half(theta, bit, angle) && phase_of_angle(angle, f);
        assert(rd.turns_back(half(rd.val(theta))));
    }
}

/// A mixing gate acts by its matrix.
pub(crate) proof fn lemma_mix_acts<A: Amplitude>(
    rd: Reading<A>,
    pre: Map<Set<nat>, A>,
    ctls: Seq<usize>,
    t: nat,
    mix: Mix<A>,
    post: Map<Set<nat>, A>,
)
    requires
        rd.exact(),
        mix_on_state(pre, ctls, t, mix, post),
    ensures
        rd.vector(post) == act(rd.mix_matrix(mix), ctls, t, rd.vector(pre)),
{
    let l = rd.vector(post);
    let m = rd.mix_matrix(mix);
    let psi = rd.vector(pre);
    let r = act(m, ctls, t, psi);
    assert forall|k: Set<nat>| #[trigger] l(k) == r(k) by {
        assert(mix_entry(pre, ctls, t, mix, post, k));
        if all_set(k, ctls) {
            lemma_mix_entry(rd, pre, ctls, t, mix, post, k);
        }
    }
    assert(l =~= r);
}

/// See [`lemma_mix_acts`], for one basis state.
proof fn lemma_mix_entry<A: Amplitude>(
    rd: Reading<A>,
    pre: Map<Set<nat>, A>,
    ctls: Seq<usize>,
    t: nat,
    mix: Mix<A>,
    post: Map<Set<nat>, A>,
    k: Set<nat>,
)
    requires
        rd.exact(),
        mix_entry(pre, ctls, t, mix, post, k),
        all_set(k, ctls),
    ensures
        ({
            let m = rd.mix_matrix(mix);
            let psi = rd.vector(pre);
            let (p, q) = if k.contains(t) {
                (m.c, m.d)
            } else {
                (m.a, m.b)
            };
            rd.vector(post)(k) == dot(p, psi(k.remove(t)), q, psi(k.insert(t)))
        }),
{
    let m = rd.mix_matrix(mix);
    let psi = rd.vector(pre);
    let (k0, k1) = (k.remove(t), k.insert(t));
    let (p, q) = if k.contains(t) {
        (m.c, m.d)
    } else {
        (m.a, m.b)
    };
    let (n0, n1) = (psi(k0), psi(k1));
    times_units(p);
    times_units(q);
    times_comm(p, n0);
    times_comm(q, n1);
    if let Mix::Hadamard(f) = mix {
        let g = Cx::of(rd.val(f));
        assert(m.d == g.negate());
        times_negate(g, n1);
        times_comm(g, n0);
        times_comm(g, n1);
        if pre.contains_key(k0) && pre.contains_key(k1) {
            let v = choose|v: A| #[trigger]
                pair_value(mix, k.contains(t), pre[k0], pre[k1], v) && kept_finished(
                    mix,
                    v,
                    k,
                    post,
                );
            times_comm(g, rd.num(v));
            times_units(g);
            times_plus(g, n0, n1);
            times_plus(g, n0, n1.negate());
        }
    } else if pre.contains_key(k0) && pre.contains_key(k1) {
        let v = choose|v: A| #[trigger]
            pair_value(mix, k.contains(t), pre[k0], pre[k1], v) && kept_finished(mix, v, k, post);
    }
}

} // verus!
