//! The mathematical model of a simulation, and what each operation does to it.
//!
//! A basis state is the set of the locations whose bit is one. A sparse state
//! maps basis states to amplitudes, and the amplitude of a basis state without
//! an entry is zero. The operations of the simulator are relations between the
//! model before and the model after: the numbers in them are whatever the
//! arithmetic of [`crate::arith`] gave.
use crate::arith::{
    complex, difference, exponential, imaginary_unit, nearly_zero, negated, one, product, real_half,
    real_negated, real_zero, scaled, sum, Amplitude, Real,
};
use crate::bits::toggled;
use vstd::prelude::*;

verus! {

/// Levels for flushing of queued gates.
#[derive(Debug, Copy, Clone, PartialEq, Eq, Structural)]
pub enum FlushLevel {
    /// Queued H gates.
    H,
    /// Queued H gates, then queued rotations about X.
    HRx,
    /// Queued H gates, then queued rotations about X, then those about Y.
    HRxRy,
}

/// A gate that turns one entry of the sparse state into one entry.
pub enum Transform<A: Amplitude> {
    /// Flips the target bit.
    X,
    /// Flips the target bit and multiplies by plus or minus the imaginary unit.
    Y,
    /// Multiplies by the given number where the target bit is one.
    Phase(A),
    /// Multiplies by the exponential of plus or minus half the angle.
    Rz(A::Real),
}

/// A gate that mixes the two entries that differ in the target bit only.
pub enum Mix<A: Amplitude> {
    /// The sum and the difference of both, times the given factor.
    Hadamard(A::Real),
    /// The matrix with `m00` on its diagonal.
    Rotation {
        /// Both entries of the diagonal.
        m00: A,
        /// The upper right entry.
        m01: A,
        /// The lower left entry.
        m10: A,
    },
}

/// The model of a simulation.
#[verifier::ext_equal]
pub struct SimModel<A: Amplitude> {
    /// The amplitudes of the basis states.
    pub state: Map<Set<nat>, A>,
    /// The location of each allocated qubit, by its identifier.
    pub ids: Map<usize, usize>,
    /// The identifiers of the qubits with a queued H gate.
    pub h: Set<nat>,
    /// The queued rotations about X: an angle for each qubit that has one.
    pub rx: Map<usize, A::Real>,
    /// The queued rotations about Y: an angle for each qubit that has one.
    pub ry: Map<usize, A::Real>,
}

// ---------------------------------------------------------------------------
// Well-formedness
// ---------------------------------------------------------------------------

/// Whether some qubit is at the location.
pub open spec fn in_use(ids: Map<usize, usize>, loc: nat) -> bool {
    exists|id: usize| #[trigger] ids.contains_key(id) && ids[id] == loc
}

/// Whether no two qubits share a location.
pub open spec fn ids_apart(ids: Map<usize, usize>) -> bool {
    forall|a: usize, b: usize| #[trigger]
        ids.contains_key(a) && #[trigger] ids.contains_key(b) && a != b ==> ids[a] != ids[b]
}

/// Whether every basis state is zero at every location that no qubit uses.
pub open spec fn zero_elsewhere<A: Amplitude>(
    state: Map<Set<nat>, A>,
    ids: Map<usize, usize>,
) -> bool {
    forall|k: Set<nat>, loc: nat| #[trigger]
        state.contains_key(k) && #[trigger] k.contains(loc) ==> in_use(ids, loc)
}

impl<A: Amplitude> SimModel<A> {
    /// What holds of a simulation between any two operations.
    pub open spec fn wf(self) -> bool {
        &&& self.ids.dom().finite()
        &&& ids_apart(self.ids)
        &&& zero_elsewhere(self.state, self.ids)
        &&& forall|q: nat| #[trigger]
            self.h.contains(q) ==> q <= usize::MAX && self.ids.contains_key(q as usize)
        &&& forall|q: usize| #[trigger] self.rx.contains_key(q) ==> self.ids.contains_key(q)
        &&& forall|q: usize| #[trigger] self.ry.contains_key(q) ==> self.ids.contains_key(q)
    }

    /// Whether every identifier in the list is that of an allocated qubit.
    pub open spec fn allocated(self, ids: Seq<usize>) -> bool {
        forall|i: int| 0 <= i < ids.len() ==> self.ids.contains_key(#[trigger] ids[i])
    }

    /// Whether a gate can be applied to the target under the controls: all of
    /// them are allocated, and no two are the same.
    pub open spec fn applicable(self, ctls: Seq<usize>, target: usize) -> bool {
        &&& self.allocated(ctls.push(target))
        &&& ctls.push(target).no_duplicates()
    }

    /// Whether a rotation is queued on the qubit.
    pub open spec fn rotation_queued(self, q: usize) -> bool {
        self.rx.contains_key(q) || self.ry.contains_key(q)
    }

    /// Whether nothing is queued on the qubit.
    pub open spec fn nothing_queued(self, q: usize) -> bool {
        !self.h.contains(q as nat) && !self.rotation_queued(q)
    }
}

/// The locations of the qubits in the list.
pub open spec fn locations(ids: Map<usize, usize>, qubits: Seq<usize>) -> Seq<usize> {
    qubits.map_values(|q: usize| ids[q])
}

// ---------------------------------------------------------------------------
// One step on the sparse state
// ---------------------------------------------------------------------------

/// Whether the bits at all the given locations are one.
pub open spec fn all_set(k: Set<nat>, ctls: Seq<usize>) -> bool {
    forall|i: int| 0 <= i < ctls.len() ==> k.contains(#[trigger] ctls[i] as nat)
}

/// The entry under `k` is `v`, or there is none and `v` counts as zero.
pub open spec fn kept<A: Amplitude>(v: A, k: Set<nat>, post: Map<Set<nat>, A>) -> bool {
    ||| nearly_zero(v, true) && !post.contains_key(k)
    ||| nearly_zero(v, false) && post.contains_key(k) && post[k] == v
}

/// The two states agree on `k`.
pub open spec fn same_entry<A: Amplitude>(
    pre: Map<Set<nat>, A>,
    post: Map<Set<nat>, A>,
    k: Set<nat>,
) -> bool {
    &&& post.contains_key(k) == pre.contains_key(k)
    &&& pre.contains_key(k) ==> post[k] == pre[k]
}

/// Whether a gate flips the target bit.
pub open spec fn flips<A: Amplitude>(gate: Transform<A>) -> bool {
    gate is X || gate is Y
}

/// The basis state that `k` turns into.
pub open spec fn image<A: Amplitude>(
    k: Set<nat>,
    ctls: Seq<usize>,
    target: nat,
    gate: Transform<A>,
) -> Set<nat> {
    if flips(gate) && all_set(k, ctls) {
        toggled(k, target)
    } else {
        k
    }
}

/// `r` is the imaginary unit, or its opposite if `negative`.
pub open spec fn signed_unit<A: Amplitude>(negative: bool, r: A) -> bool {
    if negative {
        exists|u: A| #[trigger] imaginary_unit(u) && negated(u, r)
    } else {
        imaginary_unit(r)
    }
}

/// `r` is the half of the angle `theta`, or its opposite unless `positive`.
pub open spec fn signed_half<R: Real>(theta: R, positive: bool, r: R) -> bool {
    if positive {
        real_half(theta, r)
    } else {
        exists|u: R| #[trigger] real_half(theta, u) && real_negated(u, r)
    }
}

/// `r` is the exponential of the imaginary number `angle`.
pub open spec fn phase_of_angle<A: Amplitude>(angle: A::Real, r: A) -> bool {
    exists|zero: A::Real, c: A|
        real_zero(zero) && #[trigger] complex(zero, angle, c) && exponential(c, r)
}

/// `r` is the number by which a rotation about Z multiplies the amplitude of a
/// basis state whose target bit is `bit`.
pub open spec fn rz_factor<A: Amplitude>(theta: A::Real, bit: bool, r: A) -> bool {
    exists|angle: A::Real| #[trigger]
        signed_half(theta, bit, angle) && phase_of_angle(angle, r)
}

/// `r` is the number by which `gate` multiplies the amplitude of a basis state
/// whose target bit is `bit`.
pub open spec fn factor_of<A: Amplitude>(gate: Transform<A>, bit: bool, r: A) -> bool {
    match gate {
        Transform::X => false,
        Transform::Y => signed_unit(bit, r),
        Transform::Phase(phase) => if bit {
            r == phase
        } else {
            one(r)
        },
        Transform::Rz(theta) => rz_factor(theta, bit, r),
    }
}

/// `r` is the amplitude that `gate` gives to the image of a basis state whose
/// target bit is `bit` and whose amplitude is `v`.
pub open spec fn transformed<A: Amplitude>(gate: Transform<A>, bit: bool, v: A, r: A) -> bool {
    if gate is X {
        r == v
    } else {
        exists|f: A| #[trigger] factor_of(gate, bit, f) && product(v, f, r)
    }
}

/// `r` is the amplitude of the image of `k`, controls taken into account.
pub open spec fn image_value<A: Amplitude>(
    pre: Map<Set<nat>, A>,
    k: Set<nat>,
    ctls: Seq<usize>,
    target: nat,
    gate: Transform<A>,
    r: A,
) -> bool {
    if all_set(k, ctls) {
        transformed(gate, k.contains(target), pre[k], r)
    } else {
        r == pre[k]
    }
}

/// What `gate` leaves under `k`: the entry whose image `k` is, if there is
/// one and its new amplitude does not count as zero.
pub open spec fn gate_entry<A: Amplitude>(
    pre: Map<Set<nat>, A>,
    ctls: Seq<usize>,
    target: nat,
    gate: Transform<A>,
    post: Map<Set<nat>, A>,
    k: Set<nat>,
) -> bool {
    let from = image(k, ctls, target, gate);
    if pre.contains_key(from) {
        exists|v: A| #[trigger] image_value(pre, from, ctls, target, gate, v) && kept(v, k, post)
    } else {
        !post.contains_key(k)
    }
}

/// What a gate that works entry by entry does to the sparse state. Controls and
/// target are locations.
pub open spec fn gate_on_state<A: Amplitude>(
    pre: Map<Set<nat>, A>,
    ctls: Seq<usize>,
    target: nat,
    gate: Transform<A>,
    post: Map<Set<nat>, A>,
) -> bool {
    forall|k: Set<nat>| #[trigger] gate_entry(pre, ctls, target, gate, post, k)
}

/// `r` is the amplitude that a mixing gate gives to the basis state with target
/// bit `to` where only the one with target bit `from` has an entry, `v`.
pub open spec fn lone_value<A: Amplitude>(mix: Mix<A>, from: bool, to: bool, v: A, r: A) -> bool {
    match mix {
        Mix::Hadamard(factor) => if from && to {
            exists|u: A| #[trigger] scaled(v, factor, u) && negated(u, r)
        } else {
            scaled(v, factor, r)
        },
        Mix::Rotation { m00, m01, m10 } => if from == to {
            product(v, m00, r)
        } else if from {
            product(v, m01, r)
        } else {
            product(v, m10, r)
        },
    }
}

/// `r` is the sum of the products of `a` with `x` and of `b` with `y`.
pub open spec fn weighted_sum<A: Amplitude>(a: A, x: A, b: A, y: A, r: A) -> bool {
    exists|u: A, w: A| #[trigger] product(a, x, u) && #[trigger] product(b, y, w) && sum(u, w, r)
}

/// `r` is what a mixing gate makes of the entries `v0` and `v1` for the basis
/// state with target bit `to`, before the last scaling.
pub open spec fn pair_value<A: Amplitude>(mix: Mix<A>, to: bool, v0: A, v1: A, r: A) -> bool {
    match mix {
        Mix::Hadamard(_) => if to {
            difference(v0, v1, r)
        } else {
            sum(v0, v1, r)
        },
        Mix::Rotation { m00, m01, m10 } => if to {
            weighted_sum(v0, m10, v1, m00, r)
        } else {
            weighted_sum(v0, m00, v1, m01, r)
        },
    }
}

/// `r` is `v` after the last scaling of a mixing gate.
pub open spec fn finished<A: Amplitude>(mix: Mix<A>, v: A, r: A) -> bool {
    match mix {
        Mix::Hadamard(factor) => scaled(v, factor, r),
        Mix::Rotation { .. } => r == v,
    }
}

/// The entry under `k` is `v` after the last scaling, or there is none and `v`
/// counts as zero.
pub open spec fn kept_finished<A: Amplitude>(
    mix: Mix<A>,
    v: A,
    k: Set<nat>,
    post: Map<Set<nat>, A>,
) -> bool {
    ||| nearly_zero(v, true) && !post.contains_key(k)
    ||| nearly_zero(v, false) && post.contains_key(k) && finished(mix, v, post[k])
}

/// What a mixing gate leaves under `k`.
pub open spec fn mix_entry<A: Amplitude>(
    pre: Map<Set<nat>, A>,
    ctls: Seq<usize>,
    target: nat,
    mix: Mix<A>,
    post: Map<Set<nat>, A>,
    k: Set<nat>,
) -> bool {
    let k0 = k.remove(target);
    let k1 = k.insert(target);
    if !all_set(k, ctls) {
        same_entry(pre, post, k)
    } else if pre.contains_key(k0) && pre.contains_key(k1) {
        exists|v: A| #[trigger]
            pair_value(mix, k.contains(target), pre[k0], pre[k1], v) && kept_finished(
                mix,
                v,
                k,
                post,
            )
    } else if pre.contains_key(k0) {
        post.contains_key(k) && lone_value(mix, false, k.contains(target), pre[k0], post[k])
    } else if pre.contains_key(k1) {
        post.contains_key(k) && lone_value(mix, true, k.contains(target), pre[k1], post[k])
    } else {
        !post.contains_key(k)
    }
}

/// What a mixing gate does to the sparse state. Controls and target are
/// locations.
pub open spec fn mix_on_state<A: Amplitude>(
    pre: Map<Set<nat>, A>,
    ctls: Seq<usize>,
    target: nat,
    mix: Mix<A>,
    post: Map<Set<nat>, A>,
) -> bool {
    forall|k: Set<nat>| #[trigger] mix_entry(pre, ctls, target, mix, post, k)
}

} // verus!
