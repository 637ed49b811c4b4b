//! The simulator: the sparse state, the qubits that share it and the gates that
//! wait in queues.
use crate::arith::{
    complex, nearly_zero, one, product, real_cos, real_frac_1_sqrt_2, real_half, real_less,
    real_nearly_zero, real_negated, real_sin, real_sum, Amplitude, Real,
};
use crate::bits::{big_bit, big_set_bit, big_zero, bits_of, odd_parity, positions, with_bit};
use crate::dump::{id_map_line, shows_dump, shows_state, state_text};
use crate::flushing::{law_flush_empties_queues, lemma_flush_just, lemma_flush_nothing};
use crate::fxmap::{
    basis_entries, basis_insert, basis_list, basis_map, basis_new, enumerates, id_map_entries,
    id_map_get, id_map_insert, id_map_new, id_map_remove, id_sort, lists,
};
use crate::ids::{
    check_for_duplicates, first_gap, first_missing, first_repeat, lemma_sorted_same, QubitError,
};
use crate::logical::lemma_targets;
use crate::model::{
    gate_entry, ids_apart, image, in_use, locations, mix_entry, FlushLevel, Mix, SimModel,
    Transform,
};
use crate::state::{
    check_joint_probability, clear_bit, controlled_gate, exchange_bits, joint_collapse,
    lemma_exchanged_twice, mix_pairs, unit, SparseState,
};
use crate::steps::{
    allocate_step, angle_negated, both, cleared, collapsed, collapsed_entry, controls_phase,
    controls_without, dump_step, exchanged, flush_all, flush_h_step, flush_if, flush_one,
    flush_rx_step, flush_ry_step, flush_step, flush_target, flushed_phase_step,
    flushed_transform_step, h_step, hadamard_step, half_turn_gate, has_amplitude, just, mch_step,
    mcrx_step, mcry_step, mcx_step, mcy_step, mcz_step, measure_step, measured, mix_step,
    named_phase, no_controls, normalizer, ones, only_h_at, ordered, other_of, packed, phase_step,
    probability, queue_exchanged, release_step, rotation_diagonal, rotation_lower, rotation_step,
    rotation_unit, rotation_upper, rx_step, ry_step, same_for_qubits, started, state_exchanged,
    swap_ids_step, swap_state_step, tally, transform_step, used_locations, x_flushes_controls,
    x_past_h, x_queue, x_step, y_queue, y_sign, y_step, z_queue, z_step, PhaseGate,
};
use num_bigint::BigUint;
use rustc_hash::FxHashMap;
use vstd::prelude::*;
use vstd::slice::{slice_subrange, slice_to_vec};

verus! {

/// The simulator. Each instance is an independent simulation.
pub struct QuantumSim<A: Amplitude> {
    /// The structure that describes the current quantum state.
    state: SparseState<A>,
    /// The mapping from qubit identifiers to internal state locations.
    id_map: FxHashMap<usize, usize>,
    /// The bitmap that tracks whether a given qubit has a pending H operation queued on it.
    h_flag: BigUint,
    /// The map for tracking queued Pauli-X rotations by a given angle for a given qubit.
    rx_queue: FxHashMap<usize, A::Real>,
    /// The map for tracking queued Pauli-Y rotations by a given angle for a given qubit.
    ry_queue: FxHashMap<usize, A::Real>,
}

impl<A: Amplitude> View for QuantumSim<A> {
    type V = SimModel<A>;

    closed spec fn view(&self) -> SimModel<A> {
        SimModel {
            state: basis_map(self.state),
            ids: self.id_map@,
            h: bits_of(self.h_flag),
            rx: self.rx_queue@,
            ry: self.ry_queue@,
        }
    }
}

// ---------------------------------------------------------------------------
// What the steps keep
// ---------------------------------------------------------------------------

/// A gate that works entry by entry keeps the simulation well-formed.
pub(crate) proof fn lemma_transform_wf<A: Amplitude>(
    pre: SimModel<A>,
    ctls: Seq<usize>,
    target: usize,
    gate: Transform<A>,
    post: SimModel<A>,
)
    requires
        pre.wf(),
        pre.ids.contains_key(target),
        transform_step(pre, ctls, target, gate, post),
    ensures
        post.wf(),
{
    let locs = locations(pre.ids, ctls);
    let t = pre.ids[target] as nat;
    assert(in_use(pre.ids, t));
    assert forall|k: Set<nat>, loc: nat| #[trigger]
        post.state.contains_key(k) && #[trigger] k.contains(loc) implies in_use(post.ids, loc) by {
        assert(gate_entry(pre.state, locs, t, gate, post.state, k));
        let from = image(k, locs, t, gate);
        assert(pre.state.contains_key(from));
        if loc != t {
            assert(from.contains(loc));
        }
    }
}

/// A mixing gate keeps the simulation well-formed.
pub(crate) proof fn lemma_mix_wf<A: Amplitude>(
    pre: SimModel<A>,
    ctls: Seq<usize>,
    target: usize,
    mix: Mix<A>,
    post: SimModel<A>,
)
    requires
        pre.wf(),
        pre.ids.contains_key(target),
        mix_step(pre, ctls, target, mix, post),
    ensures
        post.wf(),
{
    let locs = locations(pre.ids, ctls);
    let t = pre.ids[target] as nat;
    assert(in_use(pre.ids, t));
    assert forall|k: Set<nat>, loc: nat| #[trigger]
        post.state.contains_key(k) && #[trigger] k.contains(loc) implies in_use(post.ids, loc) by {
        assert(mix_entry(pre.state, locs, t, mix, post.state, k));
        if loc != t {
            assert(k.remove(t).contains(loc));
            assert(k.insert(t).contains(loc));
        }
    }
}

/// A gate can be applied to the first control under the others.
pub(crate) proof fn lemma_first_applicable<A: Amplitude>(
    s: SimModel<A>,
    ctls: Seq<usize>,
    target: usize,
)
    requires
        s.applicable(ctls, target),
        ctls.len() > 0,
    ensures
        s.applicable(ctls.drop_first(), ctls[0]),
{
    let all = ctls.push(target);
    let turned = ctls.drop_first().push(ctls[0]);
    assert forall|i: int| 0 <= i < turned.len() implies #[trigger] turned[i] == (if i < ctls.len()
        - 1 {
        all[i + 1]
    } else {
        all[0]
    }) by {}
}

/// A gate without controls can be applied to any allocated qubit.
pub(crate) proof fn lemma_applicable_alone<A: Amplitude>(s: SimModel<A>, target: usize)
    requires
        s.ids.contains_key(target),
    ensures
        s.applicable(no_controls(), target),
        locations(s.ids, no_controls()) == no_controls(),
{
    assert(locations(s.ids, no_controls()) =~= no_controls());
}

// ---------------------------------------------------------------------------
// Angles and phases
// ---------------------------------------------------------------------------

/// Turns the angle queued on the qubit, if there is one, into its opposite.
fn negate_angle<R: Real>(queue: &mut FxHashMap<usize, R>, q: usize)
    ensures
        angle_negated(old(queue)@, q, final(queue)@),
{
    if let Some(angle) = id_map_get(queue, q) {
        let opposite = angle.negate();
        assert(real_negated(angle, opposite));
        id_map_insert(queue, q, opposite);
    }
}

/// The number by which a named phase gate multiplies.
pub fn phase_of<A: Amplitude>(gate: PhaseGate) -> (r: A)
    ensures
        named_phase(gate, r),
{
    match gate {
        PhaseGate::Z => {
            let u = A::one();
            assert(one(u));
            u.negate()
        },
        PhaseGate::S => unit(false),
        PhaseGate::SAdj => unit(true),
        PhaseGate::T => {
            let f = A::Real::frac_1_sqrt_2();
            assert(real_frac_1_sqrt_2(f));
            A::new(f, f)
        },
        PhaseGate::TAdj => {
            let f = A::Real::frac_1_sqrt_2();
            let g = f.negate();
            assert(real_frac_1_sqrt_2(f) && real_negated(f, g));
            A::new(f, g)
        },
    }
}

/// The diagonal entry of a rotation.
fn diagonal_of<A: Amplitude>(theta: A::Real) -> (m00: A)
    ensures
        rotation_diagonal(theta, m00),
{
    let h = theta.half();
    let c = h.cos();
    let z = A::Real::zero();
    let m00 = A::new(c, z);
    assert(real_half(theta, h) && real_cos(h, c) && complex(c, z, m00));
    m00
}

/// The upper right entry of a rotation.
fn upper_of<A: Amplitude>(theta: A::Real, about_y: bool) -> (m01: A)
    ensures
        rotation_upper(theta, about_y, m01),
{
    let h = theta.half();
    let n = h.negate();
    let s = n.sin();
    let z = A::Real::zero();
    let base = A::new(z, s);
    let side = if about_y {
        unit::<A>(true)
    } else {
        A::one()
    };
    let m01 = base.times(side);
    assert(rotation_unit(about_y, side));
    assert(real_half(theta, h) && real_negated(h, n) && real_sin(n, s) && complex(z, s, base)
        && product(base, side, m01));
    m01
}

// ---------------------------------------------------------------------------
// Creation and checks
// ---------------------------------------------------------------------------

impl<A: Amplitude> Default for QuantumSim<A> {
    /// See [`QuantumSim::new`].
    fn default() -> (r: Self)
        ensures
            r@.wf(),
            started(r@),
    {
        QuantumSim::new()
    }
}

impl<A: Amplitude> QuantumSim<A> {
    /// Creates a new sparse state quantum simulator object with empty initial state (no qubits
    /// allocated, no operations buffered).
    pub fn new() -> (r: Self)
        ensures
            r@.wf(),
            started(r@),
    {
        let mut initial_state: SparseState<A> = basis_new();
        let amplitude = A::one();
        assert(one(amplitude));
        basis_insert(&mut initial_state, big_zero(), amplitude);
        QuantumSim {
            state: initial_state,
            id_map: id_map_new(),
            h_flag: big_zero(),
            rx_queue: id_map_new(),
            ry_queue: id_map_new(),
        }
    }

    /// The number of entries of the sparse state.
    pub fn state_len(&self) -> (r: usize)
        ensures
            r == self@.state.dom().len(),
            self@.state.dom().finite(),
    {
        let entries = basis_entries(&self.state);
        proof {
            let list = basis_list(entries@);
            let keys = list.map_values(|e: (Set<nat>, A)| e.0);
            assert forall|k: Set<nat>| keys.to_set().contains(k) <==> self@.state.dom().contains(
                k,
            ) by {
                if self@.state.contains_key(k) {
                    let i = choose|i: int| 0 <= i < list.len() && (#[trigger] list[i]).0 == k;
                    assert(keys[i] == k);
                }
                if keys.contains(k) {
                    let i = choose|i: int| 0 <= i < keys.len() && keys[i] == k;
                    assert(list[i].0 == k);
                }
            }
            assert(keys.to_set() =~= self@.state.dom());
            assert forall|i: int, j: int|
                0 <= i < keys.len() && 0 <= j < keys.len() && i != j implies keys[i]
                != keys[j] by {
                assert(keys[i] == list[i].0 && keys[j] == list[j].0);
            }
            keys.unique_seq_to_set();
        }
        entries.len()
    }

    /// Whether an H is queued on the qubit.
    fn h_queued(&self, q: usize) -> (r: bool)
        ensures
            r == self@.h.contains(q as nat),
    {
        big_bit(&self.h_flag, q)
    }

    /// Whether a rotation about X is queued on the qubit.
    fn rx_queued(&self, q: usize) -> (r: bool)
        ensures
            r == self@.rx.contains_key(q),
    {
        id_map_get(&self.rx_queue, q).is_some()
    }

    /// Whether a rotation about Y is queued on the qubit.
    fn ry_queued(&self, q: usize) -> (r: bool)
        ensures
            r == self@.ry.contains_key(q),
    {
        id_map_get(&self.ry_queue, q).is_some()
    }

    /// The location of the qubit.
    pub fn resolve(&self, id: usize) -> (r: Result<usize, QubitError>)
        ensures
            r == (if self@.ids.contains_key(id) {
                Ok(self@.ids[id])
            } else {
                Err(QubitError::NotFound(id))
            }),
    {
        match id_map_get(&self.id_map, id) {
            Some(loc) => Ok(loc),
            None => Err(QubitError::NotFound(id)),
        }
    }

    /// The locations of the qubits in the list.
    pub fn resolve_all(&self, ids: &[usize]) -> (r: Result<Vec<usize>, QubitError>)
        ensures
            match r {
                Ok(locs) => self@.allocated(ids@) && locs@ == locations(self@.ids, ids@),
                Err(QubitError::NotFound(id)) => first_missing(self@.ids, ids@, id),
                Err(QubitError::Duplicate(_)) => false,
            },
            r is Ok <==> self@.allocated(ids@),
    {
        let mut locs: Vec<usize> = Vec::new();
        let mut n: usize = 0;
        while n < ids.len()
            invariant
                n <= ids.len(),
                forall|j: int| 0 <= j < n ==> self@.ids.contains_key(#[trigger] ids@[j]),
                locs@ == locations(self@.ids, ids@.take(n as int)),
            decreases ids.len() - n,
        {
            match self.resolve(ids[n]) {
                Ok(loc) => {
                    locs.push(loc);
                    assert(locs@ =~= locations(self@.ids, ids@.take(n + 1)));
                },
                Err(e) => {
                    assert(!self@.ids.contains_key(ids@[n as int]));
                    return Err(e);
                },
            }
            n += 1;
        }
        assert(ids@.take(ids@.len() as int) =~= ids@);
        Ok(locs)
    }

    /// Verifies that the given target and list of controls does not contain any duplicate entries,
    /// and returns those values mapped to internal locations.
    pub fn resolve_and_check_qubits(&self, target: usize, ctls: &[usize]) -> (r: Result<
        (usize, Vec<usize>),
        QubitError,
    >)
        ensures
            match r {
                Ok((t, cs)) => t == self@.ids[target] && cs@ == locations(self@.ids, ctls@),
                Err(QubitError::Duplicate(id)) => first_repeat(ctls@.push(target), id),
                Err(QubitError::NotFound(id)) => ctls@.push(target).no_duplicates()
                    && if self@.ids.contains_key(target) {
                    first_missing(self@.ids, ctls@, id)
                } else {
                    id == target
                },
            },
            r is Ok <==> self@.applicable(ctls@, target),
            r matches Err(QubitError::Duplicate(_)) <==> !ctls@.push(target).no_duplicates(),
    {
        let mut ids = slice_to_vec(ctls);
        ids.push(target);
        assert(ids@ =~= ctls@.push(target));
        assert(ids@[ctls@.len() as int] == target);
        assert forall|i: int| 0 <= i < ctls@.len() implies ids@[i] == ctls@[i] by {}
        match check_for_duplicates(ids.as_slice()) {
            Ok(_) => (),
            Err(e) => return Err(e),
        }
        let t = match self.resolve(target) {
            Ok(t) => t,
            Err(e) => return Err(e),
        };
        match self.resolve_all(ctls) {
            Ok(cs) => Ok((t, cs)),
            Err(e) => {
                assert(!self@.allocated(ctls@));
                Err(e)
            },
        }
    }
}

// ---------------------------------------------------------------------------
// Gates
// ---------------------------------------------------------------------------

impl<A: Amplitude> QuantumSim<A> {
    /// Applies a gate that works entry by entry, past whatever is queued.
    fn transform(&mut self, ctls: &[usize], target: usize, gate: Transform<A>)
        requires
            old(self)@.wf(),
            old(self)@.applicable(ctls@, target),
        ensures
            final(self)@.wf(),
            transform_step(old(self)@, ctls@, target, gate, final(self)@),
    {
        if let Ok((t, cs)) = self.resolve_and_check_qubits(target, ctls) {
            proof {
                lemma_targets(self@, ctls@, target);
            }
            self.state = controlled_gate(&self.state, cs.as_slice(), t, &gate);
            proof {
                lemma_transform_wf(old(self)@, ctls@, target, gate, self@);
            }
        }
    }

    /// Applies a mixing gate, past whatever is queued.
    fn mix(&mut self, ctls: &[usize], target: usize, mix: Mix<A>)
        requires
            old(self)@.wf(),
            old(self)@.applicable(ctls@, target),
        ensures
            final(self)@.wf(),
            mix_step(old(self)@, ctls@, target, mix, final(self)@),
    {
        if let Ok((t, cs)) = self.resolve_and_check_qubits(target, ctls) {
            proof {
                lemma_targets(self@, ctls@, target);
            }
            self.state = mix_pairs(&self.state, cs.as_slice(), t, &mix);
            proof {
                lemma_mix_wf(old(self)@, ctls@, target, mix, self@);
            }
        }
    }

    /// Applies a named phase gate, past whatever is queued.
    fn phase(&mut self, ctls: &[usize], target: usize, gate: PhaseGate)
        requires
            old(self)@.wf(),
            old(self)@.applicable(ctls@, target),
        ensures
            final(self)@.wf(),
            phase_step(old(self)@, ctls@, target, gate, final(self)@),
    {
        let p = phase_of::<A>(gate);
        self.transform(ctls, target, Transform::Phase(p));
    }

    /// Single qubit X gate.
    pub fn x(&mut self, target: usize)
        requires
            old(self)@.wf(),
            old(self)@.ids.contains_key(target),
        ensures
            final(self)@.wf(),
            x_step(old(self)@, target, final(self)@),
    {
        // XY = -YX, so switch the sign on any queued Ry rotations.
        negate_angle(&mut self.ry_queue, target);
        let ghost mid = self@;
        assert(x_queue(old(self)@, target, mid));
        proof {
            lemma_applicable_alone(mid, target);
        }
        let none: [usize; 0] = [];
        assert(none@ =~= no_controls());
        if self.h_queued(target) {
            // XH = HZ, so execute a Z transformation if there is an H queued.
            self.phase(&none, target, PhaseGate::Z);
        } else {
            self.transform(&none, target, Transform::X);
        }
    }

    /// Single qubit Y gate.
    pub fn y(&mut self, target: usize)
        requires
            old(self)@.wf(),
            old(self)@.ids.contains_key(target),
        ensures
            final(self)@.wf(),
            y_step(old(self)@, target, final(self)@),
    {
        // XY = -YX, so flip the sign on any queued Rx rotation.
        negate_angle(&mut self.rx_queue, target);
        let ghost mid = self@;
        assert(y_queue(old(self)@, target, mid));
        proof {
            lemma_applicable_alone(mid, target);
        }
        let none: [usize; 0] = [];
        assert(none@ =~= no_controls());
        self.transform(&none, target, Transform::Y);
    }

    /// Single qubit Z gate.
    pub fn z(&mut self, target: usize)
        requires
            old(self)@.wf(),
            old(self)@.ids.contains_key(target),
        ensures
            final(self)@.wf(),
            z_step(old(self)@, target, final(self)@),
    {
        // ZY = -YZ and ZX = -XZ, so flip the sign on any queued rotations.
        negate_angle(&mut self.ry_queue, target);
        negate_angle(&mut self.rx_queue, target);
        let ghost mid = self@;
        assert(z_queue(old(self)@, target, mid));
        proof {
            lemma_applicable_alone(mid, target);
        }
        let none: [usize; 0] = [];
        assert(none@ =~= no_controls());
        if self.h_queued(target) {
            // HZ = XH, so execute an X if an H is queued.
            self.transform(&none, target, Transform::X);
        } else {
            self.phase(&none, target, PhaseGate::Z);
        }
    }
}

impl<A: Amplitude> QuantumSim<A> {
    /// Applies the full state transformation corresponding to the multi-controlled H gate. Note
    /// that this can increase the size of the state vector by introducing new non-zero states or
    /// decrease the size by bringing some states to zero.
    fn apply_mch(&mut self, ctls: &[usize], target: usize)
        requires
            old(self)@.wf(),
            old(self)@.applicable(ctls@, target),
        ensures
            final(self)@.wf(),
            hadamard_step(old(self)@, ctls@, target, final(self)@),
    {
        let f = A::Real::frac_1_sqrt_2();
        assert(real_frac_1_sqrt_2(f));
        self.mix(ctls, target, Mix::Hadamard(f));
    }

    /// Applies a phase to all the controls of a gate: a phase gate on the first of them under the
    /// others. Without controls the phase would be that of the whole state, so we can no-op.
    fn phase_controls(&mut self, ctls: &[usize], phase: A)
        requires
            old(self)@.wf(),
            ctls@.len() > 0 ==> old(self)@.applicable(ctls@.drop_first(), ctls@[0]),
        ensures
            final(self)@.wf(),
            controls_phase(old(self)@, ctls@, phase, final(self)@),
    {
        if ctls.len() > 0 {
            let rest = slice_subrange(ctls, 1, ctls.len());
            assert(rest@ =~= ctls@.drop_first());
            self.transform(rest, ctls[0], Transform::Phase(phase));
        }
    }

    /// Performs a rotation in the non-computational basis, which cannot be done in-place. This
    /// corresponds to an Rx or Ry depending on the requested axis, and notably can increase or
    /// decrease the size of the state vector.
    fn mcrotation(&mut self, ctls: &[usize], theta: A::Real, target: usize, about_y: bool)
        requires
            old(self)@.wf(),
            old(self)@.applicable(ctls@, target),
        ensures
            final(self)@.wf(),
            final(self)@.ids == old(self)@.ids,
            rotation_step(old(self)@, ctls@, theta, target, about_y, final(self)@),
    {
        proof {
            if ctls@.len() > 0 {
                lemma_first_applicable(self@, ctls@, target);
            }
        }
        // Calculate the matrix entries for the rotation by the given angle.
        let m00 = diagonal_of::<A>(theta);
        let m01 = upper_of::<A>(theta, about_y);
        if m00.is_nearly_zero() {
            assert(nearly_zero(m00, true));
            // This is just a Pauli rotation, and a phase on the controls.
            let gate = if about_y {
                Transform::Y
            } else {
                Transform::X
            };
            self.transform(ctls, target, gate);
            let ghost mid = self@;
            let phase = upper_of::<A>(theta, false);
            self.phase_controls(ctls, phase);
            assert(transform_step(old(self)@, ctls@, target, half_turn_gate(about_y), mid));
        } else if m01.is_nearly_zero() {
            assert(nearly_zero(m00, false) && nearly_zero(m01, true));
            // This is just identity, and a phase on the controls.
            self.phase_controls(ctls, m00);
        } else {
            assert(nearly_zero(m00, false) && nearly_zero(m01, false));
            let m10 = if about_y {
                m01.negate()
            } else {
                m01
            };
            assert(rotation_lower(about_y, m01, m10));
            self.mix(ctls, target, Mix::Rotation { m00, m01, m10 });
        }
    }

    /// Applies what is queued on the given qubits, up to the given level.
    pub fn flush_queue(&mut self, qubits: &[usize], level: FlushLevel)
        requires
            old(self)@.wf(),
        ensures
            final(self)@.wf(),
            final(self)@.ids == old(self)@.ids,
            flush_step(old(self)@, qubits@, level, final(self)@),
    {
        let mut n: usize = 0;
        while n < qubits.len()
            invariant
                n <= qubits.len(),
                self@.wf(),
                self@.ids == old(self)@.ids,
                flush_step(old(self)@, qubits@.take(n as int), level, self@),
            decreases qubits.len() - n,
        {
            let target = qubits[n];
            let ghost before = self@;
            self.flush_h(target);
            let ghost a = self@;
            match level {
                FlushLevel::H => (),
                FlushLevel::HRx => self.flush_rx(target),
                FlushLevel::HRxRy => {
                    self.flush_rx(target);
                    assert(flush_rx_step(a, target, self@));
                    self.flush_ry(target);
                },
            }
            proof {
                let done = qubits@.take(n + 1);
                assert(done.drop_last() =~= qubits@.take(n as int));
                assert(done.last() == target);
                assert(flush_h_step(before, target, a));
                assert(flush_one(before, target, level, self@));
            }
            n += 1;
        }
        assert(qubits@.take(qubits@.len() as int) =~= qubits@);
    }

    /// Applies a queued H.
    fn flush_h(&mut self, target: usize)
        requires
            old(self)@.wf(),
        ensures
            final(self)@.wf(),
            final(self)@.ids == old(self)@.ids,
            flush_h_step(old(self)@, target, final(self)@),
    {
        if self.h_queued(target) {
            proof {
                lemma_applicable_alone(self@, target);
            }
            let none: [usize; 0] = [];
            assert(none@ =~= no_controls());
            self.apply_mch(&none, target);
            assert(hadamard_step(old(self)@, no_controls(), target, self@));
            big_set_bit(&mut self.h_flag, target, false);
        }
    }

    /// Applies a queued rotation about X.
    fn flush_rx(&mut self, target: usize)
        requires
            old(self)@.wf(),
        ensures
            final(self)@.wf(),
            final(self)@.ids == old(self)@.ids,
            flush_rx_step(old(self)@, target, final(self)@),
    {
        if let Some(theta) = id_map_get(&self.rx_queue, target) {
            proof {
                assert(self@.rx.contains_key(target));
                lemma_applicable_alone(self@, target);
            }
            let none: [usize; 0] = [];
            assert(none@ =~= no_controls());
            self.mcrotation(&none, theta, target, false);
            let ghost mid = self@;
            assert(rotation_step(old(self)@, no_controls(), theta, target, false, mid));
            id_map_remove(&mut self.rx_queue, target);
            assert(self@ == SimModel { rx: mid.rx.remove(target), ..mid });
            assert forall|q: usize| #[trigger]
                self@.rx.contains_key(q) implies self@.ids.contains_key(q) by {
                assert(mid.rx.contains_key(q));
            }
        }
    }

    /// Applies a queued rotation about Y.
    fn flush_ry(&mut self, target: usize)
        requires
            old(self)@.wf(),
        ensures
            final(self)@.wf(),
            final(self)@.ids == old(self)@.ids,
            flush_ry_step(old(self)@, target, final(self)@),
    {
        if let Some(theta) = id_map_get(&self.ry_queue, target) {
            proof {
                assert(self@.ry.contains_key(target));
                lemma_applicable_alone(self@, target);
            }
            let none: [usize; 0] = [];
            assert(none@ =~= no_controls());
            self.mcrotation(&none, theta, target, true);
            let ghost mid = self@;
            assert(rotation_step(old(self)@, no_controls(), theta, target, true, mid));
            id_map_remove(&mut self.ry_queue, target);
            assert(self@ == SimModel { ry: mid.ry.remove(target), ..mid });
            assert forall|q: usize| #[trigger]
                self@.ry.contains_key(q) implies self@.ids.contains_key(q) by {
                assert(mid.ry.contains_key(q));
            }
        }
    }

    /// Multi-controlled X gate.
    pub fn mcx(&mut self, ctls: &[usize], target: usize)
        requires
            old(self)@.wf(),
            old(self)@.applicable(ctls@, target),
        ensures
            final(self)@.wf(),
            final(self)@.ids == old(self)@.ids,
            mcx_step(old(self)@, ctls@, target, final(self)@),
    {
        proof {
            lemma_targets(self@, ctls@, target);
        }
        if ctls.len() == 0 {
            self.x(target);
            return;
        }
        let ghost pre = self@;
        if ctls.len() > 1 || self.ry_queued(ctls[0]) || self.rx_queued(ctls[0]) || (self.h_queued(
            ctls[0],
        ) && (!self.h_queued(target) || self.ry_queued(target))) {
            self.flush_queue(ctls, FlushLevel::HRxRy);
        }
        let ghost a = self@;
        assert(flush_if(x_flushes_controls(pre, ctls@, target), pre, ctls@, FlushLevel::HRxRy, a));
        let only: [usize; 1] = [target];
        assert(only@ =~= just(target));
        if self.ry_queued(target) {
            self.flush_queue(&only, FlushLevel::HRxRy);
        }
        let ghost b = self@;
        assert(flush_if(a.ry.contains_key(target), a, just(target), FlushLevel::HRxRy, b));
        assert(b.applicable(ctls@, target));
        if self.h_queued(target) {
            if ctls.len() == 1 && self.h_queued(ctls[0]) {
                // An H on both target and single control means we can perform a CNOT with the
                // control and target switched.
                assert(b.applicable(only@, ctls@[0])) by {
                    let all = ctls@.push(target);
                    assert(all[0] == ctls@[0] && all[1] == target);
                    let turned = only@.push(ctls@[0]);
                    assert(turned[0] == target && turned[1] == ctls@[0]);
                }
                self.transform(&only, ctls[0], Transform::X);
            } else {
                // XH = HZ, so perform a multi-controlled Z here.
                self.phase(ctls, target, PhaseGate::Z);
            }
        } else {
            self.transform(ctls, target, Transform::X);
        }
        assert(x_past_h(b, ctls@, target, self@));
    }

    /// Multi-controlled Y gate.
    pub fn mcy(&mut self, ctls: &[usize], target: usize)
        requires
            old(self)@.wf(),
            old(self)@.applicable(ctls@, target),
        ensures
            final(self)@.wf(),
            final(self)@.ids == old(self)@.ids,
            mcy_step(old(self)@, ctls@, target, final(self)@),
    {
        proof {
            lemma_targets(self@, ctls@, target);
        }
        if ctls.len() == 0 {
            self.y(target);
            return;
        }
        let ghost pre = self@;
        self.flush_queue(ctls, FlushLevel::HRxRy);
        let ghost a = self@;
        let only: [usize; 1] = [target];
        assert(only@ =~= just(target));
        if self.rx_queued(target) {
            self.flush_queue(&only, FlushLevel::HRx);
        }
        let ghost b = self@;
        assert(flush_if(a.rx.contains_key(target), a, just(target), FlushLevel::HRx, b));
        assert(b.applicable(ctls@, target));
        if self.h_queued(target) {
            // HY = -YH, so add a phase to one of the controls.
            let rest = slice_subrange(ctls, 1, ctls.len());
            assert(rest@ =~= ctls@.drop_first());
            proof {
                lemma_first_applicable(b, ctls@, target);
            }
            self.phase(rest, ctls[0], PhaseGate::Z);
        }
        let ghost c = self@;
        assert(y_sign(b, ctls@, target, c));
        self.transform(ctls, target, Transform::Y);
    }
}

/// The identifiers after an exchange of the target with one of the controls are
/// the same as before.
pub(crate) proof fn lemma_controls_without<A: Amplitude>(
    s: SimModel<A>,
    ctls: Seq<usize>,
    target: usize,
    i: int,
)
    requires
        s.applicable(ctls, target),
        0 <= i <= ctls.len(),
    ensures
        s.applicable(controls_without(ctls, target, i), ctls.push(target)[i]),
{
    let all = ctls.push(target);
    let turned = controls_without(ctls, target, i).push(all[i]);
    let n = ctls.len() as int;
    assert forall|j: int| 0 <= j < turned.len() implies #[trigger] turned[j] == (if j == i {
        all[n]
    } else if j == n {
        all[i]
    } else {
        all[j]
    }) by {}
}

impl<A: Amplitude> QuantumSim<A> {
    /// The place of the qubit, counted over the controls and the target after them, that has an H
    /// queued, if nothing else is queued on any of them.
    fn only_h(&self, ctls: &[usize], target: usize) -> (r: Option<usize>)
        ensures
            match r {
                Some(i) => only_h_at(self@, ctls@.push(target), i as int),
                None => forall|i: int| !#[trigger] only_h_at(self@, ctls@.push(target), i),
            },
    {
        let ghost all = ctls@.push(target);
        let mut found: Option<usize> = None;
        let mut n: usize = 0;
        loop
            invariant
                n <= ctls.len(),
                all == ctls@.push(target),
                forall|j: int| 0 <= j < n ==> !self@.rotation_queued(#[trigger] all[j]),
                match found {
                    Some(i) => i < n && self@.h.contains(all[i as int] as nat) && forall|j: int|
                        0 <= j < n && j != i ==> !self@.h.contains(#[trigger] all[j] as nat),
                    None => forall|j: int|
                        0 <= j < n ==> !self@.h.contains(#[trigger] all[j] as nat),
                },
            decreases ctls.len() - n,
        {
            let q = if n < ctls.len() {
                ctls[n]
            } else {
                target
            };
            assert(q == all[n as int]);
            if self.rx_queued(q) || self.ry_queued(q) {
                assert(self@.rotation_queued(all[n as int]));
                return None;
            }
            if self.h_queued(q) {
                match found {
                    Some(i) => {
                        assert forall|j: int| !#[trigger] only_h_at(self@, all, j) by {
                            assert(all[i as int] == all[i as int] && all[n as int] == q);
                            if j == i {
                                assert(self@.h.contains(all[n as int] as nat));
                            } else {
                                assert(self@.h.contains(all[i as int] as nat));
                            }
                        }
                        return None;
                    },
                    None => {
                        found = Some(n);
                    },
                }
            }
            if n == ctls.len() {
                assert(all.len() == n + 1);
                return found;
            }
            n += 1;
        }
    }

    /// Multi-controlled Z gate.
    pub fn mcz(&mut self, ctls: &[usize], target: usize)
        requires
            old(self)@.wf(),
            old(self)@.applicable(ctls@, target),
        ensures
            final(self)@.wf(),
            final(self)@.ids == old(self)@.ids,
            mcz_step(old(self)@, ctls@, target, final(self)@),
    {
        proof {
            lemma_targets(self@, ctls@, target);
        }
        if ctls.len() == 0 {
            self.z(target);
            return;
        }
        // Only when exactly one H is queued, on either the target or one control, and no rotation
        // can we optimize.
        match self.only_h(ctls, target) {
            Some(i) => {
                // Create a new controls list and target where the target is whichever qubit has
                // the H queued.
                proof {
                    lemma_controls_without(self@, ctls@, target, i as int);
                }
                let mut new_ctls = slice_to_vec(ctls);
                let h_target = if i < ctls.len() {
                    new_ctls.set(i, target);
                    ctls[i]
                } else {
                    target
                };
                assert(new_ctls@ =~= controls_without(ctls@, target, i as int));
                assert(h_target == ctls@.push(target)[i as int]);
                assert(only_h_at(self@, ctls@.push(target), i as int));
                // With a single H queued, treat the multi-controlled Z as a multi-controlled X.
                self.transform(new_ctls.as_slice(), h_target, Transform::X);
            },
            None => {
                self.flush_both(ctls, target);
                self.phase(ctls, target, PhaseGate::Z);
            },
        }
    }

    /// Applies everything queued on the controls and then on the target.
    fn flush_both(&mut self, ctls: &[usize], target: usize)
        requires
            old(self)@.wf(),
        ensures
            final(self)@.wf(),
            final(self)@.ids == old(self)@.ids,
            flush_all(old(self)@, ctls@, target, final(self)@),
    {
        self.flush_queue(ctls, FlushLevel::HRxRy);
        let only: [usize; 1] = [target];
        assert(only@ =~= just(target));
        self.flush_queue(&only, FlushLevel::HRxRy);
    }

    /// Applies everything queued on the controls and the target, and then a gate that works entry
    /// by entry.
    fn flushed_transform(&mut self, ctls: &[usize], target: usize, gate: Transform<A>)
        requires
            old(self)@.wf(),
            old(self)@.applicable(ctls@, target),
        ensures
            final(self)@.wf(),
            final(self)@.ids == old(self)@.ids,
            flushed_transform_step(old(self)@, ctls@, target, gate, final(self)@),
    {
        self.flush_both(ctls, target);
        self.transform(ctls, target, gate);
    }

    /// Applies everything queued on the controls and the target, and then a named phase gate.
    fn flushed_phase(&mut self, ctls: &[usize], target: usize, gate: PhaseGate)
        requires
            old(self)@.wf(),
            old(self)@.applicable(ctls@, target),
        ensures
            final(self)@.wf(),
            final(self)@.ids == old(self)@.ids,
            flushed_phase_step(old(self)@, ctls@, target, gate, final(self)@),
    {
        self.flush_both(ctls, target);
        self.phase(ctls, target, gate);
    }

    /// Applies everything queued on the target, and then a named phase gate.
    fn flushed_phase_alone(&mut self, target: usize, gate: PhaseGate)
        requires
            old(self)@.wf(),
            old(self)@.ids.contains_key(target),
        ensures
            final(self)@.wf(),
            final(self)@.ids == old(self)@.ids,
            flushed_phase_step(old(self)@, no_controls(), target, gate, final(self)@),
    {
        proof {
            lemma_applicable_alone(self@, target);
        }
        let none: [usize; 0] = [];
        assert(none@ =~= no_controls());
        self.flushed_phase(&none, target, gate);
    }

    /// Multi-controlled phase rotation ("G" gate).
    pub fn mcphase(&mut self, ctls: &[usize], phase: A, target: usize)
        requires
            old(self)@.wf(),
            old(self)@.applicable(ctls@, target),
        ensures
            final(self)@.wf(),
            final(self)@.ids == old(self)@.ids,
            flushed_transform_step(
                old(self)@,
                ctls@,
                target,
                Transform::Phase(phase),
                final(self)@,
            ),
    {
        self.flushed_transform(ctls, target, Transform::Phase(phase));
    }

    /// Single qubit S gate.
    pub fn s(&mut self, target: usize)
        requires
            old(self)@.wf(),
            old(self)@.ids.contains_key(target),
        ensures
            final(self)@.wf(),
            final(self)@.ids == old(self)@.ids,
            flushed_phase_step(
                old(self)@,
                no_controls(),
                target,
                PhaseGate::S,
                final(self)@,
            ),
    {
        self.flushed_phase_alone(target, PhaseGate::S);
    }

    /// Multi-controlled S gate.
    pub fn mcs(&mut self, ctls: &[usize], target: usize)
        requires
            old(self)@.wf(),
            old(self)@.applicable(ctls@, target),
        ensures
            final(self)@.wf(),
            final(self)@.ids == old(self)@.ids,
            flushed_phase_step(old(self)@, ctls@, target, PhaseGate::S, final(self)@),
    {
        self.flushed_phase(ctls, target, PhaseGate::S);
    }

    /// Single qubit Adjoint S gate.
    pub fn sadj(&mut self, target: usize)
        requires
            old(self)@.wf(),
            old(self)@.ids.contains_key(target),
        ensures
            final(self)@.wf(),
            final(self)@.ids == old(self)@.ids,
            flushed_phase_step(
                old(self)@,
                no_controls(),
                target,
                PhaseGate::SAdj,
                final(self)@,
            ),
    {
        self.flushed_phase_alone(target, PhaseGate::SAdj);
    }

    /// Multi-controlled Adjoint S gate.
    pub fn mcsadj(&mut self, ctls: &[usize], target: usize)
        requires
            old(self)@.wf(),
            old(self)@.applicable(ctls@, target),
        ensures
            final(self)@.wf(),
            final(self)@.ids == old(self)@.ids,
            flushed_phase_step(old(self)@, ctls@, target, PhaseGate::SAdj, final(self)@),
    {
        self.flushed_phase(ctls, target, PhaseGate::SAdj);
    }

    /// Single qubit T gate.
    pub fn t(&mut self, target: usize)
        requires
            old(self)@.wf(),
            old(self)@.ids.contains_key(target),
        ensures
            final(self)@.wf(),
            final(self)@.ids == old(self)@.ids,
            flushed_phase_step(
                old(self)@,
                no_controls(),
                target,
                PhaseGate::T,
                final(self)@,
            ),
    {
        self.flushed_phase_alone(target, PhaseGate::T);
    }

    /// Multi-controlled T gate.
    pub fn mct(&mut self, ctls: &[usize], target: usize)
        requires
            old(self)@.wf(),
            old(self)@.applicable(ctls@, target),
        ensures
            final(self)@.wf(),
            final(self)@.ids == old(self)@.ids,
            flushed_phase_step(old(self)@, ctls@, target, PhaseGate::T, final(self)@),
    {
        self.flushed_phase(ctls, target, PhaseGate::T);
    }

    /// Single qubit Adjoint T gate.
    pub fn tadj(&mut self, target: usize)
        requires
            old(self)@.wf(),
            old(self)@.ids.contains_key(target),
        ensures
            final(self)@.wf(),
            final(self)@.ids == old(self)@.ids,
            flushed_phase_step(
                old(self)@,
                no_controls(),
                target,
                PhaseGate::TAdj,
                final(self)@,
            ),
    {
        self.flushed_phase_alone(target, PhaseGate::TAdj);
    }

    /// Multi-controlled Adjoint T gate.
    pub fn mctadj(&mut self, ctls: &[usize], target: usize)
        requires
            old(self)@.wf(),
            old(self)@.applicable(ctls@, target),
        ensures
            final(self)@.wf(),
            final(self)@.ids == old(self)@.ids,
            flushed_phase_step(old(self)@, ctls@, target, PhaseGate::TAdj, final(self)@),
    {
        self.flushed_phase(ctls, target, PhaseGate::TAdj);
    }

    /// Single qubit Rz gate.
    pub fn rz(&mut self, theta: A::Real, target: usize)
        requires
            old(self)@.wf(),
            old(self)@.ids.contains_key(target),
        ensures
            final(self)@.wf(),
            final(self)@.ids == old(self)@.ids,
            flushed_transform_step(
                old(self)@,
                no_controls(),
                target,
                Transform::Rz(theta),
                final(self)@,
            ),
    {
        proof {
            lemma_applicable_alone(self@, target);
        }
        let none: [usize; 0] = [];
        assert(none@ =~= no_controls());
        self.flushed_transform(&none, target, Transform::Rz(theta));
    }

    /// Multi-controlled Rz gate.
    pub fn mcrz(&mut self, ctls: &[usize], theta: A::Real, target: usize)
        requires
            old(self)@.wf(),
            old(self)@.applicable(ctls@, target),
        ensures
            final(self)@.wf(),
            final(self)@.ids == old(self)@.ids,
            flushed_transform_step(old(self)@, ctls@, target, Transform::Rz(theta), final(self)@),
    {
        self.flushed_transform(ctls, target, Transform::Rz(theta));
    }

    /// Single qubit H gate.
    pub fn h(&mut self, target: usize)
        requires
            old(self)@.wf(),
            old(self)@.ids.contains_key(target),
        ensures
            final(self)@.wf(),
            final(self)@.ids == old(self)@.ids,
            h_step(old(self)@, target, final(self)@),
    {
        // YH = -HY, so flip the sign on any queued Ry rotations.
        negate_angle(&mut self.ry_queue, target);
        let ghost a = self@;
        assert(x_queue(old(self)@, target, a));
        if self.rx_queued(target) {
            // Can't commute well with queued Rx, so flush those ops.
            let only: [usize; 1] = [target];
            assert(only@ =~= just(target));
            self.flush_queue(&only, FlushLevel::HRx);
        }
        let ghost b = self@;
        assert(flush_if(a.rx.contains_key(target), a, just(target), FlushLevel::HRx, b));
        let queued = self.h_queued(target);
        big_set_bit(&mut self.h_flag, target, !queued);
        assert(self@ == SimModel {
            h: with_bit(b.h, target as nat, !b.h.contains(target as nat)),
            ..b
        });
    }

    /// Multi-controlled H gate.
    pub fn mch(&mut self, ctls: &[usize], target: usize)
        requires
            old(self)@.wf(),
            old(self)@.applicable(ctls@, target),
        ensures
            final(self)@.wf(),
            final(self)@.ids == old(self)@.ids,
            mch_step(old(self)@, ctls@, target, final(self)@),
    {
        self.flush_queue(ctls, FlushLevel::HRxRy);
        let ghost a = self@;
        if self.ry_queued(target) || self.rx_queued(target) {
            let only: [usize; 1] = [target];
            assert(only@ =~= just(target));
            self.flush_queue(&only, FlushLevel::HRxRy);
        }
        let ghost b = self@;
        assert(flush_if(a.rotation_queued(target), a, just(target), FlushLevel::HRxRy, b));
        self.apply_mch(ctls, target);
    }

    /// Single qubit Rx gate.
    pub fn rx(&mut self, theta: A::Real, target: usize)
        requires
            old(self)@.wf(),
            old(self)@.ids.contains_key(target),
        ensures
            final(self)@.wf(),
            final(self)@.ids == old(self)@.ids,
            rx_step(old(self)@, theta, target, final(self)@),
    {
        let only: [usize; 1] = [target];
        assert(only@ =~= just(target));
        self.flush_queue(&only, FlushLevel::HRxRy);
        let ghost mid = self@;
        // No rotation is left in the queue, so there is no angle to add to.
        assert(!mid.rx.contains_key(target)) by {
            lemma_flush_just(old(self)@, target, mid);
        }
        id_map_insert(&mut self.rx_queue, target, theta);
        assert(self@ == SimModel { rx: mid.rx.insert(target, theta), ..mid });
    }

    /// Multi-controlled Rx gate.
    pub fn mcrx(&mut self, ctls: &[usize], theta: A::Real, target: usize)
        requires
            old(self)@.wf(),
            old(self)@.applicable(ctls@, target),
        ensures
            final(self)@.wf(),
            final(self)@.ids == old(self)@.ids,
            mcrx_step(old(self)@, ctls@, theta, target, final(self)@),
    {
        self.flush_queue(ctls, FlushLevel::HRxRy);
        let ghost a = self@;
        let only: [usize; 1] = [target];
        assert(only@ =~= just(target));
        if self.ry_queued(target) {
            self.flush_queue(&only, FlushLevel::HRxRy);
        } else if self.h_queued(target) {
            self.flush_queue(&only, FlushLevel::H);
        }
        assert(flush_target(a.ry.contains_key(target), FlushLevel::HRxRy, a, target, self@));
        self.mcrotation(ctls, theta, target, false);
    }

    /// Single qubit Ry gate.
    pub fn ry(&mut self, theta: A::Real, target: usize)
        requires
            old(self)@.wf(),
            old(self)@.ids.contains_key(target),
        ensures
            final(self)@.wf(),
            final(self)@.ids == old(self)@.ids,
            ry_step(old(self)@, theta, target, final(self)@),
    {
        match id_map_get(&self.ry_queue, target) {
            Some(entry) => {
                let angle = entry.plus(theta);
                assert(real_sum(entry, theta, angle));
                if angle.is_nearly_zero() {
                    assert(real_nearly_zero(angle, true));
                    id_map_remove(&mut self.ry_queue, target);
                } else {
                    assert(real_nearly_zero(angle, false));
                    id_map_insert(&mut self.ry_queue, target, angle);
                }
            },
            None => {
                id_map_insert(&mut self.ry_queue, target, theta);
            },
        }
        assert(self@ == SimModel { ry: self@.ry, ..old(self)@ });
        assert forall|q: usize| #[trigger]
            self@.ry.contains_key(q) implies self@.ids.contains_key(q) by {
            assert(q == target || old(self)@.ry.contains_key(q));
        }
    }

    /// Multi-controlled Ry gate.
    pub fn mcry(&mut self, ctls: &[usize], theta: A::Real, target: usize)
        requires
            old(self)@.wf(),
            old(self)@.applicable(ctls@, target),
        ensures
            final(self)@.wf(),
            final(self)@.ids == old(self)@.ids,
            mcry_step(old(self)@, ctls@, theta, target, final(self)@),
    {
        self.flush_queue(ctls, FlushLevel::HRxRy);
        let ghost a = self@;
        let only: [usize; 1] = [target];
        assert(only@ =~= just(target));
        if self.rx_queued(target) {
            self.flush_queue(&only, FlushLevel::HRx);
        } else if self.h_queued(target) {
            self.flush_queue(&only, FlushLevel::H);
        }
        assert(flush_target(a.rx.contains_key(target), FlushLevel::HRx, a, target, self@));
        self.mcrotation(ctls, theta, target, true);
    }
}

// ---------------------------------------------------------------------------
// Allocation
// ---------------------------------------------------------------------------

impl<A: Amplitude> QuantumSim<A> {
    /// Allocates a fresh qubit, returning its identifier. Note that this will use the lowest
    /// available identifier, and may result in qubits being allocated "in the middle" of an
    /// existing register if those identifiers are available.
    pub fn allocate(&mut self) -> (id: usize)
        requires
            old(self)@.wf(),
        ensures
            final(self)@.wf(),
            allocate_step(old(self)@, id, final(self)@),
    {
        // Add the new entry at the first available sequential ID and first available sequential
        // location.
        let keys = self.all_ids();
        let vals = self.all_locations();
        let new_key = first_gap(keys);
        let new_val = first_gap(vals);
        id_map_insert(&mut self.id_map, new_key, new_val);
        proof {
            let pre = old(self)@;
            let post = self@;
            assert(post == SimModel { ids: pre.ids.insert(new_key, new_val), ..pre });
            assert forall|a: usize, b: usize| #[trigger]
                post.ids.contains_key(a) && #[trigger] post.ids.contains_key(b) && a
                    != b implies post.ids[a] != post.ids[b] by {
                if a == new_key {
                    assert(pre.ids.contains_key(b));
                    assert(!used_locations(pre.ids).contains(new_val));
                } else if b == new_key {
                    assert(pre.ids.contains_key(a));
                    assert(!used_locations(pre.ids).contains(new_val));
                } else {
                    assert(pre.ids.contains_key(a) && pre.ids.contains_key(b));
                }
            }
            assert forall|k: Set<nat>, loc: nat| #[trigger]
                post.state.contains_key(k) && #[trigger] k.contains(loc) implies in_use(
                post.ids,
                loc,
            ) by {
                assert(pre.state.contains_key(k));
                assert(in_use(pre.ids, loc));
                let q = choose|q: usize| #[trigger] pre.ids.contains_key(q) && pre.ids[q] == loc;
                assert(post.ids.contains_key(q) && post.ids[q] == loc);
            }
        }
        // Return the new ID that was used.
        new_key
    }
}

// ---------------------------------------------------------------------------
// Measurement
// ---------------------------------------------------------------------------

/// The parity of a single bit is the bit.
pub(crate) proof fn lemma_parity_of_one(k: Set<nat>, loc: usize)
    ensures
        odd_parity(k, positions(just(loc))) == k.contains(loc as nat),
{
    let mask = positions(just(loc));
    assert(just(loc)[0] == loc);
    assert(mask =~= Set::<nat>::empty().insert(loc as nat));
    if k.contains(loc as nat) {
        assert(k.intersect(mask) =~= mask);
    } else {
        assert(k.intersect(mask) =~= Set::<nat>::empty());
    }
}

/// Every entry that is left after a collapse was there before and has the
/// measured parity.
pub(crate) proof fn lemma_collapsed_entries<A: Amplitude>(
    pre: Map<Set<nat>, A>,
    locs: Seq<usize>,
    odd: bool,
    post: Map<Set<nat>, A>,
)
    requires
        collapsed(pre, locs, odd, post),
    ensures
        forall|k: Set<nat>| #[trigger]
            post.contains_key(k) ==> pre.contains_key(k) && odd_parity(k, positions(locs)) == odd,
{
    let (list, total, factor) = choose|list: Seq<(Set<nat>, A)>, total: A::Real, factor: A::Real|
        #[trigger]
        lists(list, pre) && #[trigger] tally(list, positions(locs), odd, total)
            && #[trigger] normalizer(total, factor) && forall|k: Set<nat>| #[trigger]
            collapsed_entry(pre, positions(locs), odd, factor, post, k);
    assert forall|k: Set<nat>| #[trigger]
        post.contains_key(k) implies pre.contains_key(k) && odd_parity(k, positions(locs))
        == odd by {
        assert(collapsed_entry(pre, positions(locs), odd, factor, post, k));
    }
}

impl<A: Amplitude> QuantumSim<A> {
    /// The probability that an odd number of the bits at the given locations is one.
    pub fn check_joint_probability(&self, locs: &[usize]) -> (p: A::Real)
        ensures
            probability(self@.state, locs@, p),
    {
        check_joint_probability(&self.state, locs)
    }

    /// Checks the probability of parity measurement in the computational basis for the given set of
    /// qubits.
    pub fn joint_probability(&mut self, ids: &[usize]) -> (p: A::Real)
        requires
            old(self)@.wf(),
            old(self)@.allocated(ids@),
            ids@.no_duplicates(),
        ensures
            final(self)@.wf(),
            final(self)@.ids == old(self)@.ids,
            flush_step(old(self)@, ids@, FlushLevel::HRxRy, final(self)@),
            probability(final(self)@.state, locations(final(self)@.ids, ids@), p),
    {
        self.flush_queue(ids, FlushLevel::HRxRy);
        let locs = match self.resolve_all(ids) {
            Ok(locs) => locs,
            Err(_) => Vec::new(),
        };
        check_joint_probability(&self.state, locs.as_slice())
    }

    /// Measures the qubit with the given id, collapsing the state based on the measured result. The
    /// sample is a number drawn uniformly from those between zero and one.
    pub fn measure(&mut self, id: usize, sample: A::Real) -> (res: bool)
        requires
            old(self)@.wf(),
            old(self)@.ids.contains_key(id),
        ensures
            final(self)@.wf(),
            final(self)@.ids == old(self)@.ids,
            measure_step(old(self)@, just(id), sample, res, final(self)@),
    {
        let only: [usize; 1] = [id];
        assert(only@ =~= just(id));
        self.joint_measure(&only, sample)
    }

    /// Utility that performs the actual measurement and collapse of the state for the given
    /// locations.
    fn measure_impl(&mut self, locs: &[usize], sample: A::Real) -> (res: bool)
        requires
            old(self)@.wf(),
        ensures
            final(self)@.wf(),
            final(self)@ == (SimModel { state: final(self)@.state, ..old(self)@ }),
            measured(old(self)@.state, locs@, sample, res, final(self)@.state),
    {
        let p = check_joint_probability(&self.state, locs);
        let res = sample.less_than(p);
        assert(probability(self@.state, locs@, p) && real_less(sample, p, res));
        self.state = joint_collapse(&self.state, locs, res);
        proof {
            lemma_collapsed_entries(old(self)@.state, locs@, res, self@.state);
            assert(self@ == SimModel { state: self@.state, ..old(self)@ });
            assert forall|k: Set<nat>, loc: nat| #[trigger]
                self@.state.contains_key(k) && #[trigger] k.contains(loc) implies in_use(
                self@.ids,
                loc,
            ) by {
                assert(old(self)@.state.contains_key(k));
            }
        }
        res
    }

    /// Performs a joint measurement to get the parity of the given qubits, collapsing the state
    /// based on the measured result. The sample is a number drawn uniformly from those between zero
    /// and one.
    pub fn joint_measure(&mut self, ids: &[usize], sample: A::Real) -> (res: bool)
        requires
            old(self)@.wf(),
            old(self)@.allocated(ids@),
            ids@.no_duplicates(),
        ensures
            final(self)@.wf(),
            final(self)@.ids == old(self)@.ids,
            measure_step(old(self)@, ids@, sample, res, final(self)@),
    {
        self.flush_queue(ids, FlushLevel::HRxRy);
        let ghost mid = self@;
        let locs = match self.resolve_all(ids) {
            Ok(locs) => locs,
            Err(_) => Vec::new(),
        };
        let res = self.measure_impl(locs.as_slice(), sample);
        assert(flush_step(old(self)@, ids@, FlushLevel::HRxRy, mid));
        res
    }

    /// Releases the given qubit, collapsing its state in the process. After release that identifier
    /// is no longer valid for use in other functions. The sample is a number drawn uniformly from
    /// those between zero and one.
    pub fn release(&mut self, id: usize, sample: A::Real)
        requires
            old(self)@.wf(),
            old(self)@.ids.contains_key(id),
        ensures
            final(self)@.wf(),
            final(self)@.ids == old(self)@.ids.remove(id),
            release_step(old(self)@, id, sample, final(self)@),
    {
        // Measure and collapse the state for this qubit.
        let res = self.measure(id, sample);
        let ghost mid = self@;
        let ghost l = mid.ids[id] as nat;
        proof {
            let flushed = choose|flushed: SimModel<A>| #[trigger]
                flush_step(old(self)@, just(id), FlushLevel::HRxRy, flushed) && mid == (SimModel {
                    state: mid.state,
                    ..flushed
                }) && measured(
                    flushed.state,
                    locations(flushed.ids, just(id)),
                    sample,
                    res,
                    mid.state,
                );
            lemma_flush_just(old(self)@, id, flushed);
            assert(locations(flushed.ids, just(id)) =~= just(mid.ids[id]));
            lemma_collapsed_entries(flushed.state, just(mid.ids[id]), res, mid.state);
            assert forall|k: Set<nat>| #[trigger]
                mid.state.contains_key(k) implies k.contains(l) == res by {
                lemma_parity_of_one(k, mid.ids[id]);
            }
        }
        if let Ok(loc) = self.resolve(id) {
            // If the result of measurement was true then we must set the bit for this qubit in every
            // key to zero to "reset" the qubit.
            if res {
                self.state = clear_bit(&self.state, loc);
            }
            id_map_remove(&mut self.id_map, id);
        }
        proof {
            let post = self@;
            assert(post == SimModel {
                state: if res {
                    cleared(mid.state, l)
                } else {
                    mid.state
                },
                ids: mid.ids.remove(id),
                ..mid
            });
            assert forall|a: usize, b: usize| #[trigger]
                post.ids.contains_key(a) && #[trigger] post.ids.contains_key(b) && a
                    != b implies post.ids[a] != post.ids[b] by {
                assert(mid.ids.contains_key(a) && mid.ids.contains_key(b));
            }
            assert forall|k: Set<nat>, loc: nat| #[trigger]
                post.state.contains_key(k) && #[trigger] k.contains(loc) implies in_use(
                post.ids,
                loc,
            ) by {
                let from = if res {
                    k.insert(l)
                } else {
                    k
                };
                assert(mid.state.contains_key(from));
                assert(from.contains(loc));
                assert(loc != l);
                let q = choose|q: usize| #[trigger] mid.ids.contains_key(q) && mid.ids[q] == loc;
                assert(post.ids.contains_key(q) && post.ids[q] == loc);
            }
            assert forall|q: nat| #[trigger] post.h.contains(q) implies q <= usize::MAX
                && post.ids.contains_key(q as usize) by {
                assert(mid.h.contains(q));
                assert(!mid.h.contains(id as nat));
            }
        }
    }
}

// ---------------------------------------------------------------------------
// Swapping
// ---------------------------------------------------------------------------

/// Exchanges what is under two identifiers.
fn exchange<V: Copy>(queue: &mut FxHashMap<usize, V>, a: usize, b: usize)
    ensures
        final(queue)@ == queue_exchanged(old(queue)@, a, b),
{
    let at_a = id_map_get(queue, a);
    let at_b = id_map_get(queue, b);
    match at_b {
        Some(v) => id_map_insert(queue, a, v),
        None => id_map_remove(queue, a),
    }
    match at_a {
        Some(v) => id_map_insert(queue, b, v),
        None => id_map_remove(queue, b),
    }
    assert(queue@ =~= queue_exchanged(old(queue)@, a, b));
}

/// An exchange of two identifiers keeps the set of those in use, and of the
/// locations.
proof fn lemma_exchange_ids(ids: Map<usize, usize>, a: usize, b: usize)
    requires
        ids_apart(ids),
        ids.contains_key(a),
        ids.contains_key(b),
    ensures
        ids_apart(queue_exchanged(ids, a, b)),
        queue_exchanged(ids, a, b).dom() == ids.dom(),
        forall|loc: nat| #[trigger] in_use(ids, loc) ==> in_use(queue_exchanged(ids, a, b), loc),
{
    let post = queue_exchanged(ids, a, b);
    assert(post.dom() =~= ids.dom());
    assert forall|p: usize, q: usize| #[trigger]
        post.contains_key(p) && #[trigger] post.contains_key(q) && p != q implies post[p]
        != post[q] by {
        assert(ids.contains_key(other_of(p, a, b)) && ids.contains_key(other_of(q, a, b)));
    }
    assert forall|loc: nat| #[trigger] in_use(ids, loc) implies in_use(post, loc) by {
        let q = choose|q: usize| #[trigger] ids.contains_key(q) && ids[q] == loc;
        assert(post.contains_key(other_of(q, a, b)) && post[other_of(q, a, b)] == loc);
    }
}

impl<A: Amplitude> QuantumSim<A> {
    /// Swaps the mapped ids for the given qubits.
    pub fn swap_qubit_ids(&mut self, qubit1: usize, qubit2: usize)
        requires
            old(self)@.wf(),
            old(self)@.ids.contains_key(qubit1),
            old(self)@.ids.contains_key(qubit2),
        ensures
            final(self)@.wf(),
            swap_ids_step(old(self)@, qubit1, qubit2, final(self)@),
    {
        // Must also swap any queued operations.
        let (h_val1, h_val2) = (self.h_queued(qubit1), self.h_queued(qubit2));
        big_set_bit(&mut self.h_flag, qubit1, h_val2);
        big_set_bit(&mut self.h_flag, qubit2, h_val1);
        exchange(&mut self.rx_queue, qubit1, qubit2);
        exchange(&mut self.ry_queue, qubit1, qubit2);
        exchange(&mut self.id_map, qubit1, qubit2);
        proof {
            let pre = old(self)@;
            let post = self@;
            assert(post.h == exchanged(pre.h, qubit1 as nat, qubit2 as nat));
            assert(swap_ids_step(pre, qubit1, qubit2, post));
            lemma_exchange_ids(pre.ids, qubit1, qubit2);
            assert forall|q: nat| #[trigger] post.h.contains(q) implies q <= usize::MAX
                && post.ids.contains_key(q as usize) by {
                if q != qubit1 && q != qubit2 {
                    assert(pre.h.contains(q));
                }
            }
            assert forall|q: usize| #[trigger] post.rx.contains_key(q) implies post.ids.contains_key(
                q,
            ) by {
                assert(pre.rx.contains_key(other_of(q, qubit1, qubit2)));
            }
            assert forall|q: usize| #[trigger] post.ry.contains_key(q) implies post.ids.contains_key(
                q,
            ) by {
                assert(pre.ry.contains_key(other_of(q, qubit1, qubit2)));
            }
            assert forall|k: Set<nat>, loc: nat| #[trigger]
                post.state.contains_key(k) && #[trigger] k.contains(loc) implies in_use(
                post.ids,
                loc,
            ) by {
                assert(pre.state.contains_key(k));
                assert(in_use(pre.ids, loc));
            }
        }
    }

    /// Swaps the states of two qubits throughout the sparse state map.
    pub fn swap_qubit_state(&mut self, qubit1: usize, qubit2: usize)
        requires
            old(self)@.wf(),
        ensures
            final(self)@.ids == old(self)@.ids,
            swap_state_step(old(self)@, qubit1, qubit2, final(self)@),
            in_use(old(self)@.ids, qubit1 as nat) && in_use(old(self)@.ids, qubit2 as nat)
                ==> final(self)@.wf(),
    {
        if qubit1 == qubit2 {
            return;
        }
        let pair: [usize; 2] = [qubit1, qubit2];
        assert(pair@ =~= both(qubit1, qubit2));
        self.flush_queue(&pair, FlushLevel::HRxRy);
        let ghost mid = self@;
        // Swap entries in the sparse state to correspond to swapping of two qubits' locations.
        self.state = exchange_bits(&self.state, qubit1, qubit2);
        proof {
            let (a, b) = (qubit1 as nat, qubit2 as nat);
            let post = self@;
            assert(post == SimModel { state: state_exchanged(mid.state, a, b), ..mid });
            if in_use(mid.ids, a) && in_use(mid.ids, b) {
                assert forall|k: Set<nat>, loc: nat| #[trigger]
                    post.state.contains_key(k) && #[trigger] k.contains(loc) implies in_use(
                    post.ids,
                    loc,
                ) by {
                    assert(mid.state.contains_key(exchanged(k, a, b)));
                    if loc != a && loc != b {
                        assert(exchanged(k, a, b).contains(loc));
                    }
                }
            }
        }
    }
}

// ---------------------------------------------------------------------------
// Dumping
// ---------------------------------------------------------------------------

/// The model after what is at two locations has been exchanged, qubits and
/// state alike.
spec fn moved<A: Amplitude>(s: SimModel<A>, a: usize, b: usize) -> SimModel<A> {
    SimModel {
        state: state_exchanged(s.state, a as nat, b as nat),
        ids: s.ids.map_values(|loc: usize| other_of(loc, a, b)),
        ..s
    }
}

/// Every basis state stands for the same qubits after such an exchange.
proof fn lemma_moved_ones<A: Amplitude>(s: SimModel<A>, a: usize, b: usize, k: Set<nat>)
    ensures
        ones(exchanged(k, a as nat, b as nat), moved(s, a, b).ids) == ones(k, s.ids),
{
    let x = exchanged(k, a as nat, b as nat);
    let ids = moved(s, a, b).ids;
    assert(ones(x, ids) =~= ones(k, s.ids));
}

/// Such an exchange keeps the state of the qubits, and the simulation
/// well-formed.
proof fn lemma_moved_same<A: Amplitude>(s: SimModel<A>, a: usize, b: usize)
    requires
        s.wf(),
    ensures
        same_for_qubits(s, moved(s, a, b)),
        moved(s, a, b).wf(),
{
    let post = moved(s, a, b);
    assert(post.ids.dom() =~= s.ids.dom());
    assert forall|qubits: Set<usize>, v: A| #[trigger]
        has_amplitude(s, qubits, v) <==> has_amplitude(post, qubits, v) by {
        if has_amplitude(s, qubits, v) {
            let k = choose|k: Set<nat>| #[trigger]
                s.state.contains_key(k) && ones(k, s.ids) == qubits && s.state[k] == v;
            lemma_moved_ones(s, a, b, k);
            lemma_exchanged_twice(k, a as nat, b as nat);
            assert(post.state.contains_key(exchanged(k, a as nat, b as nat)));
        }
        if has_amplitude(post, qubits, v) {
            let k = choose|k: Set<nat>| #[trigger]
                post.state.contains_key(k) && ones(k, post.ids) == qubits && post.state[k] == v;
            lemma_moved_ones(s, a, b, exchanged(k, a as nat, b as nat));
            lemma_exchanged_twice(k, a as nat, b as nat);
            assert(s.state.contains_key(exchanged(k, a as nat, b as nat)));
        }
    }
    assert forall|x: usize, y: usize| #[trigger]
        post.ids.contains_key(x) && #[trigger] post.ids.contains_key(y) && x != y implies post.ids[x]
        != post.ids[y] by {
        assert(s.ids.contains_key(x) && s.ids.contains_key(y));
    }
    assert forall|k: Set<nat>, loc: nat| #[trigger]
        post.state.contains_key(k) && #[trigger] k.contains(loc) implies in_use(post.ids, loc) by {
        let from = exchanged(k, a as nat, b as nat);
        assert(s.state.contains_key(from));
        let was: nat = if loc == a {
            b as nat
        } else if loc == b {
            a as nat
        } else {
            loc
        };
        assert(from.contains(was));
        assert(in_use(s.ids, was));
        let q = choose|q: usize| #[trigger] s.ids.contains_key(q) && s.ids[q] == was;
        assert(post.ids.contains_key(q) && post.ids[q] == loc);
    }
}

/// Qubits whose locations are their places in an ascending list.
proof fn lemma_in_order(ids: Map<usize, usize>, list: Seq<usize>)
    requires
        enumerates(list, ids.dom()),
        forall|i: int, j: int| 0 <= i <= j < list.len() ==> list[i] <= list[j],
        forall|i: int| 0 <= i < list.len() ==> ids[#[trigger] list[i]] == i,
    ensures
        packed(ids),
        ordered(ids),
{
    assert forall|q: usize| #[trigger] ids.contains_key(q) implies exists|i: int|
        0 <= i < list.len() && #[trigger] list[i] == q by {
        assert(list.to_set().contains(q));
    }
    assert forall|a: nat, b: nat| a < b && #[trigger] in_use(ids, b) implies #[trigger] in_use(
        ids,
        a,
    ) by {
        let q = choose|q: usize| #[trigger] ids.contains_key(q) && ids[q] == b;
        let i = choose|i: int| 0 <= i < list.len() && #[trigger] list[i] == q;
        assert(list.to_set().contains(list[a as int]));
        assert(ids.contains_key(list[a as int]) && ids[list[a as int]] == a);
    }
    assert forall|a: usize, b: usize| #[trigger]
        ids.contains_key(a) && #[trigger] ids.contains_key(b) && a < b implies ids[a] < ids[b] by {
        let i = choose|i: int| 0 <= i < list.len() && #[trigger] list[i] == a;
        let j = choose|j: int| 0 <= j < list.len() && #[trigger] list[j] == b;
        if j <= i {
            assert(list[j] <= list[i]);
        }
    }
}

impl<A: Amplitude> QuantumSim<A> {
    /// The locations of the allocated qubits.
    fn all_locations(&self) -> (locs: Vec<usize>)
        requires
            self@.wf(),
        ensures
            enumerates(locs@, used_locations(self@.ids)),
    {
        let entries = id_map_entries(&self.id_map);
        let ghost list = entries@;
        let mut vals: Vec<usize> = Vec::new();
        let mut n: usize = 0;
        while n < entries.len()
            invariant
                n <= entries.len(),
                vals@ =~= entries@.take(n as int).map_values(|e: (usize, usize)| e.1),
            decreases entries.len() - n,
        {
            vals.push(entries[n].1);
            n += 1;
        }
        proof {
            assert(list.take(list.len() as int) =~= list);
            assert forall|i: int, j: int|
                0 <= i < vals@.len() && 0 <= j < vals@.len() && i != j implies vals@[i]
                != vals@[j] by {
                assert(list[i].0 != list[j].0);
                assert(self@.ids.contains_key(list[i].0) && self@.ids.contains_key(list[j].0));
            }
            assert(vals@.to_set() =~= used_locations(self@.ids)) by {
                assert forall|loc: usize|
                    vals@.contains(loc) <==> used_locations(self@.ids).contains(loc) by {
                    if vals@.contains(loc) {
                        let i = choose|i: int| 0 <= i < vals@.len() && vals@[i] == loc;
                        assert(self@.ids.contains_key(list[i].0));
                    }
                    if used_locations(self@.ids).contains(loc) {
                        let q = choose|q: usize| #[trigger]
                            self@.ids.contains_key(q) && self@.ids[q] == loc;
                        let i = choose|i: int| 0 <= i < list.len() && (#[trigger] list[i]).0 == q;
                        assert(vals@[i] == loc);
                    }
                }
            }
        }
        vals
    }

    /// The identifiers of the allocated qubits.
    fn all_ids(&self) -> (ids: Vec<usize>)
        ensures
            enumerates(ids@, self@.ids.dom()),
    {
        let entries = id_map_entries(&self.id_map);
        let ghost list = entries@;
        let mut keys: Vec<usize> = Vec::new();
        let mut n: usize = 0;
        while n < entries.len()
            invariant
                n <= entries.len(),
                keys@ =~= entries@.take(n as int).map_values(|e: (usize, usize)| e.0),
            decreases entries.len() - n,
        {
            keys.push(entries[n].0);
            n += 1;
        }
        proof {
            assert(list.take(list.len() as int) =~= list);
            assert forall|i: int, j: int|
                0 <= i < keys@.len() && 0 <= j < keys@.len() && i != j implies keys@[i]
                != keys@[j] by {
                assert(list[i].0 != list[j].0);
            }
            assert(keys@.to_set() =~= self@.ids.dom()) by {
                assert forall|q: usize| keys@.contains(q) <==> self@.ids.contains_key(q) by {
                    if keys@.contains(q) {
                        let i = choose|i: int| 0 <= i < keys@.len() && keys@[i] == q;
                        assert(list[i].0 == q);
                    }
                    if self@.ids.contains_key(q) {
                        let i = choose|i: int| 0 <= i < list.len() && (#[trigger] list[i]).0 == q;
                        assert(keys@[i] == q);
                    }
                }
            }
        }
        keys
    }

    /// The place in the list of the qubit at the location, if there is one.
    fn find_at(&self, list: &Vec<usize>, loc: usize) -> (r: Option<usize>)
        requires
            forall|i: int| 0 <= i < list@.len() ==> self@.ids.contains_key(#[trigger] list@[i]),
        ensures
            match r {
                Some(i) => i < list@.len() && self@.ids[list@[i as int]] == loc,
                None => forall|i: int|
                    0 <= i < list@.len() ==> self@.ids[#[trigger] list@[i]] != loc,
            },
    {
        let mut n: usize = 0;
        while n < list.len()
            invariant
                n <= list.len(),
                forall|i: int| 0 <= i < list@.len() ==> self@.ids.contains_key(#[trigger] list@[i]),
                forall|i: int| 0 <= i < n ==> self@.ids[#[trigger] list@[i]] != loc,
            decreases list.len() - n,
        {
            if let Ok(at) = self.resolve(list[n]) {
                if at == loc {
                    return Some(n);
                }
            }
            n += 1;
        }
        None
    }

    /// Applies everything queued and puts the qubits in the order of their identifiers, at the
    /// lowest locations. This makes interpreting the state easier for consumers that don't have
    /// access to the id map.
    pub fn sort_qubits(&mut self)
        requires
            old(self)@.wf(),
        ensures
            final(self)@.wf(),
            dump_step(old(self)@, final(self)@),
    {
        let mut sorted_keys = self.all_ids();
        self.flush_queue(sorted_keys.as_slice(), FlushLevel::HRxRy);
        let ghost qubits = sorted_keys@;
        let ghost mid = self@;
        id_sort(&mut sorted_keys);
        proof {
            law_flush_empties_queues(old(self)@, qubits, mid);
            lemma_sorted_same(qubits, sorted_keys@);
            assert forall|q: usize| #[trigger] mid.nothing_queued(q) by {
                if mid.ids.contains_key(q) {
                    assert(qubits.to_set().contains(q));
                    let i = choose|i: int| 0 <= i < qubits.len() && qubits[i] == q;
                    assert(mid.nothing_queued(qubits[i]));
                } else {
                    assert(!mid.h.contains(q as nat));
                    assert(!mid.rx.contains_key(q) && !mid.ry.contains_key(q));
                }
            }
        }
        let ghost list = sorted_keys@;
        let mut index: usize = 0;
        while index < sorted_keys.len()
            invariant
                index <= sorted_keys.len(),
                list == sorted_keys@,
                enumerates(list, self@.ids.dom()),
                self@.wf(),
                self@ == (SimModel { state: self@.state, ids: self@.ids, ..mid }),
                forall|q: usize| #[trigger] mid.nothing_queued(q),
                same_for_qubits(mid, self@),
                forall|i: int| 0 <= i < index ==> self@.ids[#[trigger] list[i]] == i,
            decreases sorted_keys.len() - index,
        {
            let ghost before = self@;
            let key = sorted_keys[index];
            proof {
                assert forall|i: int| 0 <= i < list.len() implies before.ids.contains_key(
                    #[trigger] list[i],
                ) by {
                    assert(list.to_set().contains(list[i]));
                }
            }
            if let Ok(loc) = self.resolve(key) {
                if loc != index {
                    // The qubit at the wanted location, if there is one, trades places.
                    let found = self.find_at(&sorted_keys, index);
                    self.swap_qubit_state(loc, index);
                    proof {
                        let m = choose|m: SimModel<A>| #[trigger]
                            flush_step(before, both(loc, index), FlushLevel::HRxRy, m) && self@
                                == (SimModel {
                                state: state_exchanged(m.state, loc as nat, index as nat),
                                ..m
                            });
                        assert forall|i: int| 0 <= i < 2 implies before.nothing_queued(
                            #[trigger] both(loc, index)[i],
                        ) by {
                            assert(mid.nothing_queued(both(loc, index)[i]));
                        }
                        lemma_flush_nothing(before, both(loc, index), FlushLevel::HRxRy, m);
                    }
                    if let Some(i) = found {
                        id_map_insert(&mut self.id_map, sorted_keys[i], loc);
                    }
                    id_map_insert(&mut self.id_map, key, index);
                    proof {
                        let after = self@;
                        assert forall|q: usize| #[trigger] before.ids.contains_key(q) && q
                            != key implies before.ids[q] != loc && (before.ids[q] == index <==> (
                        found matches Some(i) && q == list[i as int])) by {
                            assert(before.ids.contains_key(key));
                            assert(list.to_set().contains(q));
                            let j = choose|j: int| 0 <= j < list.len() && list[j] == q;
                            if let Some(i) = found {
                                assert(before.ids.contains_key(list[i as int]));
                            } else {
                                assert(before.ids[list[j]] != index);
                            }
                        }
                        assert(after.ids =~= moved(before, loc, index).ids);
                        assert(after == moved(before, loc, index));
                        lemma_moved_same(before, loc, index);
                        assert forall|qs: Set<usize>, v: A| #[trigger]
                            has_amplitude(mid, qs, v) <==> has_amplitude(after, qs, v) by {
                            assert(has_amplitude(mid, qs, v) <==> has_amplitude(before, qs, v));
                            assert(has_amplitude(before, qs, v) <==> has_amplitude(after, qs, v));
                        }
                        assert forall|i: int| 0 <= i < index + 1 implies after.ids[#[trigger] list[i]]
                            == i by {
                            if i < index {
                                assert(before.ids[list[i]] == i);
                                assert(list[i] != key);
                            }
                        }
                    }
                }
            }
            index += 1;
        }
        proof {
            lemma_in_order(self@.ids, list);
            assert(enumerates(qubits, old(self)@.ids.dom()));
            assert(flush_step(old(self)@, qubits, FlushLevel::HRxRy, mid));
        }
    }

    /// The text that shows the current state vector with integer labels for the states, skipping any
    /// states with zero amplitude, unless all are. The qubits are put in the order of their
    /// identifiers first.
    pub fn dump(&mut self) -> (r: Option<String>)
        requires
            old(self)@.wf(),
        ensures
            final(self)@.wf(),
            dump_step(old(self)@, final(self)@),
            r is None <==> final(self)@.state.dom() == Set::<Set<nat>>::empty(),
            r matches Some(text) ==> shows_state(final(self)@.state, text@),
    {
        self.sort_qubits();
        self.dump_impl(false)
    }

    /// The text that shows the state, with the id map before it if that is asked for, unless the
    /// state has no entry. Does not perform any modification of the internal structures.
    pub fn dump_impl(&self, print_id_map: bool) -> (r: Option<String>)
        ensures
            r is None <==> self@.state.dom() == Set::<Set<nat>>::empty(),
            r matches Some(text) ==> shows_dump(self@.state, self@.ids, print_id_map, text@),
    {
        match state_text(&self.state) {
            None => None,
            Some(body) => {
                if print_id_map {
                    let mut text = id_map_line(&self.id_map);
                    text.append(body.as_str());
                    Some(text)
                } else {
                    Some(body)
                }
            },
        }
    }
}

} // verus!
