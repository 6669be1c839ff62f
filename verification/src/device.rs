//! The capability contract that every simulated circuit component exposes.
//!
//! A device declares fixed sets of named input and output ports. During a
//! tick it is fed one value per input port, each at most once; an output
//! port resolves once the inputs it declares as dependencies have been fed.
//! `tick` then commits the device's internal state transition and clears the
//! per-tick bookkeeping.

use vstd::prelude::*;

pub mod constant;
pub mod cpu;
pub mod debugger;
pub mod instance;
pub mod memory;
pub mod sequencer;

verus! {

/// The name of a port, unique within its device.
pub type PortIdentifier = String;

/// The only value type ports carry.
pub type PortValue = u32;

/// An error reported by a device.
#[derive(Debug, PartialEq, Eq, Structural, Clone, Copy)]
pub enum DeviceError {
    /// The named port is not declared by the device.
    UnknownPort,
    /// The input port was already fed a value this tick.
    AlreadySupplied,
    /// An input port stood where an output port was expected, or the other
    /// way round.
    PortKindMismatch,
    /// Too few inputs were fed to commit the tick.
    InsufficientInputs,
}

/// The views of a sequence of port names.
pub open spec fn names_view(s: Seq<String>) -> Seq<Seq<char>> {
    Seq::new(s.len(), |i: int| s[i]@)
}

/// The views of a sequence of `(port name, value)` pairs.
pub open spec fn pairs_view(s: Seq<(String, u32)>) -> Seq<(Seq<char>, u32)> {
    Seq::new(s.len(), |i: int| (s[i].0@, s[i].1))
}

/// The map that a sequence of `(port, value)` pairs describes; later pairs
/// win, though callers only use it with distinct keys.
pub open spec fn pairs_to_map(s: Seq<(Seq<char>, u32)>) -> Map<Seq<char>, u32>
    decreases s.len(),
{
    if s.len() == 0 {
        Map::empty()
    } else {
        pairs_to_map(s.drop_last()).insert(s.last().0, s.last().1)
    }
}

/// What `pairs_to_map` holds: exactly the keys of the sequence, and under
/// distinct keys each pair's own value.
pub proof fn lemma_pairs_to_map(s: Seq<(Seq<char>, u32)>)
    ensures
        forall|k: Seq<char>|
            #[trigger] pairs_to_map(s).dom().contains(k) <==> exists|i: int|
                0 <= i < s.len() && (#[trigger] s[i]).0 == k,
        distinct_keys(s) ==> forall|i: int|
            0 <= i < s.len() ==> pairs_to_map(s).dom().contains((#[trigger] s[i]).0)
                && pairs_to_map(s)[s[i].0] == s[i].1,
    decreases s.len(),
{
    if s.len() > 0 {
        let rest = s.drop_last();
        lemma_pairs_to_map(rest);
        assert forall|k: Seq<char>| #[trigger] pairs_to_map(s).dom().contains(k) implies exists|
            i: int,
        |
            0 <= i < s.len() && (#[trigger] s[i]).0 == k by {
            if k == s.last().0 {
                assert(s[s.len() - 1].0 == k);
            } else {
                assert(pairs_to_map(rest).dom().contains(k));
                let i = choose|i: int| 0 <= i < rest.len() && (#[trigger] rest[i]).0 == k;
                assert(s[i].0 == k);
            }
        }
        assert forall|k: Seq<char>|
            (exists|i: int| 0 <= i < s.len() && (#[trigger] s[i]).0 == k)
            implies #[trigger] pairs_to_map(s).dom().contains(k) by {
            let i = choose|i: int| 0 <= i < s.len() && (#[trigger] s[i]).0 == k;
            if i < s.len() - 1 {
                assert(rest[i].0 == k);
                assert(pairs_to_map(rest).dom().contains(k));
            } else {
                assert(k == s.last().0);
            }
        }
        if distinct_keys(s) {
            assert forall|i: int|
                0 <= i < s.len() implies pairs_to_map(s).dom().contains((#[trigger] s[i]).0)
                && pairs_to_map(s)[s[i].0] == s[i].1 by {
                assert(distinct_keys(rest));
                if i < s.len() - 1 {
                    assert(rest[i] == s[i]);
                    assert(s[i].0 != s.last().0);
                }
            }
        }
    }
}

/// The keys of a sequence of `(port, value)` pairs are pairwise distinct.
pub open spec fn distinct_keys(s: Seq<(Seq<char>, u32)>) -> bool {
    forall|i: int, j: int| 0 <= i < j < s.len() ==> (#[trigger] s[i]).0 != (#[trigger] s[j]).0
}

/// A simulated circuit component.
///
/// The specification splits a device's state into a persistent part and the
/// values supplied this tick: `with_supplied` rebuilds the device with a
/// chosen supplied map, `stepped` is the state after a committed tick, and
/// `value_of` gives each output's value as a function of the persistent
/// state and a supplied map alone.
pub trait Device: Sized {
    /// The declared input port names.
    spec fn inputs(&self) -> Set<Seq<char>>;

    /// The declared output port names.
    spec fn outputs(&self) -> Set<Seq<char>>;

    /// The input ports that must be fed before `output` resolves.
    spec fn deps_of(&self, output: Seq<char>) -> Set<Seq<char>>;

    /// The values supplied so far this tick.
    spec fn supplied(&self) -> Map<Seq<char>, u32>;

    /// The value of `output` under the supplied map `m`, or `None` if `m`
    /// does not yet determine it. Depends only on the persistent state.
    spec fn value_of(&self, m: Map<Seq<char>, u32>, output: Seq<char>) -> Option<u32>;

    /// The same device with its supplied values replaced by `m`.
    spec fn with_supplied(&self, m: Map<Seq<char>, u32>) -> Self;

    /// Relates the device's state before a committed tick to the state
    /// after it. Every device pins the view of the successor state exactly.
    spec fn step_rel(&self, post: Self) -> bool;

    /// Whether a tick would commit in the current state.
    spec fn can_step(&self) -> bool;

    /// Whether the device accepts a batch of `(port, value)` pairs in its
    /// current state. At most the batches with distinct keys, all of them
    /// unfed declared inputs, are accepted; a device with no inputs accepts
    /// no batch at all.
    spec fn batch_ok(&self, s: Seq<(Seq<char>, u32)>) -> bool;

    /// The device's internal invariant.
    spec fn wf(&self) -> bool;

    /// Basic shape of a well-formed device: port sets are finite and
    /// disjoint, and the per-tick bookkeeping stays within the declaration.
    proof fn lemma_wf(&self)
        requires
            self.wf(),
        ensures
            self.inputs().finite(),
            self.outputs().finite(),
            self.inputs().disjoint(self.outputs()),
            self.supplied().dom().subset_of(self.inputs()),
            forall|o: Seq<char>|
                self.outputs().contains(o) ==> (#[trigger] self.deps_of(o)).subset_of(
                    self.inputs(),
                ),
    ;

    /// Once an output's declared dependencies are supplied, its value is
    /// determined, and supplying more inputs cannot change it.
    proof fn lemma_value_determined(
        &self,
        m1: Map<Seq<char>, u32>,
        m2: Map<Seq<char>, u32>,
        output: Seq<char>,
    )
        requires
            self.wf(),
            self.outputs().contains(output),
            self.deps_of(output).subset_of(m1.dom()),
            m1.submap_of(m2),
        ensures
            self.value_of(m1, output) is Some,
            self.value_of(m2, output) == self.value_of(m1, output),
    ;

    /// `with_supplied` changes exactly the supplied values: the declaration,
    /// the output function and well-formedness are untouched, replaying the
    /// current map is the identity, and a second replacement wins.
    proof fn lemma_with_supplied(&self, m: Map<Seq<char>, u32>)
        requires
            self.wf(),
            m.dom().subset_of(self.inputs()),
        ensures
            self.with_supplied(m).wf(),
            self.with_supplied(m).supplied() == m,
            self.with_supplied(m).inputs() == self.inputs(),
            self.with_supplied(m).outputs() == self.outputs(),
            forall|o: Seq<char>| #[trigger] self.with_supplied(m).deps_of(o) == self.deps_of(o),
            forall|mm: Map<Seq<char>, u32>, o: Seq<char>| #[trigger] self.with_supplied(
                m,
            ).value_of(mm, o) == self.value_of(mm, o),
            self.with_supplied(self.supplied()) == *self,
            forall|m2: Map<Seq<char>, u32>|
                m2.dom().subset_of(self.inputs()) ==> #[trigger] self.with_supplied(
                    m,
                ).with_supplied(m2) == self.with_supplied(m2),
    ;

    /// A committed tick keeps the declaration and clears the supplied values.
    proof fn lemma_stepped(&self, post: Self)
        requires
            self.wf(),
            self.can_step(),
            self.step_rel(post),
        ensures
            post.wf(),
            post.inputs() == self.inputs(),
            post.outputs() == self.outputs(),
            forall|o: Seq<char>| #[trigger] post.deps_of(o) == self.deps_of(o),
            post.supplied() == Map::<Seq<char>, u32>::empty(),
    ;

    /// A device with every input supplied can always commit its tick.
    proof fn lemma_all_inputs_step(&self)
        requires
            self.wf(),
            self.inputs().subset_of(self.supplied().dom()),
        ensures
            self.can_step(),
    ;

    /// All declared input port names, without duplicates.
    fn get_input_ports(&self) -> (r: Vec<String>)
        requires
            self.wf(),
        ensures
            names_view(r@).to_set() == self.inputs(),
            names_view(r@).no_duplicates(),
    ;

    /// All declared output port names, without duplicates.
    fn get_output_ports(&self) -> (r: Vec<String>)
        requires
            self.wf(),
        ensures
            names_view(r@).to_set() == self.outputs(),
            names_view(r@).no_duplicates(),
    ;

    /// The input ports that must be fed before the named output resolves.
    /// Fails exactly when the name is not one of the device's outputs.
    fn get_output_dependencies(&self, output: &String) -> (r: Result<Vec<String>, DeviceError>)
        requires
            self.wf(),
        ensures
            r is Ok <==> self.outputs().contains(output@),
            r matches Ok(d) ==> names_view(d@).to_set() == self.deps_of(output@) && names_view(
                d@,
            ).no_duplicates(),
            r matches Err(e) ==> if self.inputs().contains(output@) {
                e == DeviceError::PortKindMismatch
            } else {
                e == DeviceError::UnknownPort
            },
    ;

    /// Feed one input value for the current tick. Succeeds exactly when the
    /// port is a declared input that was not fed yet; on failure the device
    /// is unchanged.
    fn provide_port_value(&mut self, port: String, value: u32) -> (r: Result<(), DeviceError>)
        requires
            old(self).wf(),
        ensures
            final(self).wf(),
            r is Ok <==> old(self).inputs().contains(port@) && !old(self).supplied().dom().contains(
                port@,
            ),
            r is Ok ==> *final(self) == old(self).with_supplied(
                old(self).supplied().insert(port@, value),
            ),
            r is Err ==> *final(self) == *old(self),
            r matches Err(e) ==> if old(self).outputs().contains(port@) {
                e == DeviceError::PortKindMismatch
            } else if !old(self).inputs().contains(port@) {
                e == DeviceError::UnknownPort
            } else {
                e == DeviceError::AlreadySupplied
            },
    ;

    /// Feed a batch of input values for the current tick, all or nothing.
    /// Succeeds exactly when the keys are distinct declared inputs none of
    /// which was fed yet.
    fn provide_port_values(&mut self, values: Vec<(String, u32)>) -> (r: Result<(), DeviceError>)
        requires
            old(self).wf(),
        ensures
            final(self).wf(),
            r is Ok <==> old(self).batch_ok(pairs_view(values@)),
            r is Ok ==> distinct_keys(pairs_view(values@)) && forall|i: int|
                0 <= i < values@.len() ==> old(self).inputs().contains(
                    (#[trigger] values@[i]).0@,
                ) && !old(self).supplied().dom().contains(values@[i].0@),
            r is Ok ==> *final(self) == old(self).with_supplied(
                old(self).supplied().union_prefer_right(pairs_to_map(pairs_view(values@))),
            ),
            r is Err ==> *final(self) == *old(self),
    ;

    /// The value of the named output under the values fed so far, or `None`
    /// if they do not yet determine it. Fails exactly when the name is not
    /// one of the device's outputs.
    fn get_port_value(&self, port: &String) -> (r: Result<Option<u32>, DeviceError>)
        requires
            self.wf(),
        ensures
            r is Ok <==> self.outputs().contains(port@),
            r matches Ok(v) ==> v == self.value_of(self.supplied(), port@),
            r matches Err(e) ==> if self.inputs().contains(port@) {
                e == DeviceError::PortKindMismatch
            } else {
                e == DeviceError::UnknownPort
            },
    ;

    /// Commit this tick's state transition and clear the per-tick
    /// bookkeeping. Succeeds exactly when enough inputs were fed; on failure
    /// the device is unchanged.
    fn tick(&mut self) -> (r: Result<(), DeviceError>)
        requires
            old(self).wf(),
        ensures
            final(self).wf(),
            r is Ok <==> old(self).can_step(),
            r is Ok ==> old(self).step_rel(*final(self)),
            r is Err ==> *final(self) == *old(self),
            r matches Err(e) ==> e == DeviceError::InsufficientInputs,
    ;
}

} // verus!
