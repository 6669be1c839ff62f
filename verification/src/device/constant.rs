//! A source device with no inputs and one output that always carries the
//! same fixed value.

use vstd::prelude::*;

use crate::device::{names_view, Device, DeviceError};

verus! {

/// A device with a single output port that resolves to a fixed value on
/// every tick. `tick` is a no-op.
pub struct Constant {
    output_port: String,
    value: u32,
}

impl Constant {
    /// The name of the single output port.
    pub closed spec fn port_spec(&self) -> Seq<char> {
        self.output_port@
    }

    /// The fixed value the output carries.
    pub closed spec fn value_spec(&self) -> u32 {
        self.value
    }

    /// Build a constant source for the given output port name and value.
    pub fn new(output_port: String, value: u32) -> (r: Constant)
        ensures
            r.wf(),
            r.port_spec() == output_port@,
            r.value_spec() == value,
    {
        Constant { output_port, value }
    }
}

/// Law: a committed tick relates a constant source only to itself, a tick
/// can always commit, and the output carries the fixed value whatever was
/// supplied — so across any number of successive ticks with no inputs ever
/// supplied, the device keeps returning the same value.
pub proof fn lemma_constant_idempotent(c: Constant, post: Constant, m: Map<Seq<char>, u32>)
    ensures
        c.step_rel(post) <==> post == c,
        c.can_step(),
        c.value_of(m, c.port_spec()) == Some(c.value_spec()),
        c.inputs() == Set::<Seq<char>>::empty(),
        c.outputs() == Set::empty().insert(c.port_spec()),
        c.supplied() == Map::<Seq<char>, u32>::empty(),
{
}

impl Device for Constant {
    closed spec fn inputs(&self) -> Set<Seq<char>> {
        Set::empty()
    }

    closed spec fn outputs(&self) -> Set<Seq<char>> {
        Set::empty().insert(self.output_port@)
    }

    closed spec fn deps_of(&self, output: Seq<char>) -> Set<Seq<char>> {
        Set::empty()
    }

    closed spec fn supplied(&self) -> Map<Seq<char>, u32> {
        Map::empty()
    }

    closed spec fn value_of(&self, m: Map<Seq<char>, u32>, output: Seq<char>) -> Option<u32> {
        if output == self.output_port@ {
            Some(self.value)
        } else {
            None
        }
    }

    closed spec fn with_supplied(&self, m: Map<Seq<char>, u32>) -> Constant {
        *self
    }

    closed spec fn step_rel(&self, post: Constant) -> bool {
        post == *self
    }

    closed spec fn can_step(&self) -> bool {
        true
    }

    closed spec fn batch_ok(&self, s: Seq<(Seq<char>, u32)>) -> bool {
        false
    }

    closed spec fn wf(&self) -> bool {
        true
    }

    proof fn lemma_wf(&self) {
    }

    proof fn lemma_value_determined(
        &self,
        m1: Map<Seq<char>, u32>,
        m2: Map<Seq<char>, u32>,
        output: Seq<char>,
    ) {
    }

    proof fn lemma_with_supplied(&self, m: Map<Seq<char>, u32>) {
        assert(m =~= self.supplied());
    }

    proof fn lemma_stepped(&self, post: Constant) {
        assert(post.supplied() =~= Map::<Seq<char>, u32>::empty());
    }

    proof fn lemma_all_inputs_step(&self) {
    }

    fn get_input_ports(&self) -> (r: Vec<String>) {
        let r: Vec<String> = Vec::new();
        proof {
            assert(names_view(r@) =~= Seq::<Seq<char>>::empty());
            assert(names_view(r@).to_set() =~= self.inputs());
        }
        r
    }

    fn get_output_ports(&self) -> (r: Vec<String>) {
        let mut r: Vec<String> = Vec::new();
        r.push(self.output_port.clone());
        proof {
            assert(names_view(r@)[0] == self.output_port@);
            assert(names_view(r@).to_set() =~= self.outputs());
        }
        r
    }

    fn get_output_dependencies(&self, output: &String) -> (r: Result<Vec<String>, DeviceError>) {
        if *output == self.output_port {
            let d: Vec<String> = Vec::new();
            proof {
                assert(names_view(d@) =~= Seq::<Seq<char>>::empty());
                assert(names_view(d@).to_set() =~= self.deps_of(output@));
            }
            Ok(d)
        } else {
            Err(DeviceError::UnknownPort)
        }
    }

    fn provide_port_value(&mut self, port: String, value: u32) -> (r: Result<(), DeviceError>) {
        if port == self.output_port {
            Err(DeviceError::PortKindMismatch)
        } else {
            Err(DeviceError::UnknownPort)
        }
    }

    fn provide_port_values(&mut self, values: Vec<(String, u32)>) -> (r: Result<
        (),
        DeviceError,
    >) {
        Err(DeviceError::UnknownPort)
    }

    fn get_port_value(&self, port: &String) -> (r: Result<Option<u32>, DeviceError>) {
        if *port == self.output_port {
            Ok(Some(self.value))
        } else {
            Err(DeviceError::UnknownPort)
        }
    }

    fn tick(&mut self) -> (r: Result<(), DeviceError>) {
        Ok(())
    }
}

} // verus!
