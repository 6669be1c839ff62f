//! A diagnostic source device that plays a fixed, non-empty list of values,
//! one per tick, wrapping back to the start after the last one.

use vstd::prelude::*;

use crate::device::{names_view, Device, DeviceError};

verus! {

/// A device with a single output port that carries the current element of a
/// fixed value list; `tick` advances the cursor cyclically.
pub struct Debugger {
    output_port: String,
    values: Vec<u32>,
    current_value_idx: usize,
}

impl Debugger {
    /// The name of the single output port.
    pub closed spec fn port_spec(&self) -> Seq<char> {
        self.output_port@
    }

    /// The fixed list of values played.
    pub closed spec fn values_spec(&self) -> Seq<u32> {
        self.values@
    }

    /// The position in the value list that the output currently carries.
    pub closed spec fn cursor_spec(&self) -> int {
        self.current_value_idx as int
    }

    /// Build a debugger source for the given output port name and value list.
    /// Fails exactly when the list is empty.
    pub fn new(output_port: String, values: &Vec<u32>) -> (r: Result<Debugger, ()>)
        ensures
            r is Ok <==> values@.len() > 0,
            r matches Ok(s) ==> s.wf() && s.port_spec() == output_port@ && s.values_spec()
                == values@ && s.cursor_spec() == 0,
    {
        if values.is_empty() {
            Err(())
        } else {
            let cloned_values = values.clone();
            let n = cloned_values.len();
            proof {
                assert(cloned_values@ =~= values@);
                assert(cloned_values@.len() == n);
            }
            Ok(Debugger { output_port, values: cloned_values, current_value_idx: 0 })
        }
    }

    /// The unique successor state of a committed tick.
    pub closed spec fn advanced(self) -> Debugger {
        Debugger {
            output_port: self.output_port,
            values: self.values,
            current_value_idx: if self.cursor_spec() + 1 < self.values_spec().len() {
                (self.current_value_idx + 1) as usize
            } else {
                0
            },
        }
    }
}

/// Law: a debugger source has no inputs and one output, which carries the
/// element of its value list at the current cursor; a committed tick moves
/// the cursor one step forward, wrapping to the start after the last
/// element.
pub proof fn lemma_debugger_steps(d: Debugger, post: Debugger, m: Map<Seq<char>, u32>)
    requires
        d.wf(),
    ensures
        d.inputs() == Set::<Seq<char>>::empty(),
        d.outputs() == Set::empty().insert(d.port_spec()),
        d.can_step(),
        d.value_of(m, d.port_spec()) == Some(d.values_spec()[d.cursor_spec()]),
        d.step_rel(post) ==> post.values_spec() == d.values_spec() && post.port_spec()
            == d.port_spec() && post.cursor_spec() == if d.cursor_spec() + 1
            < d.values_spec().len() {
            d.cursor_spec() + 1
        } else {
            0
        },
{
}

impl Device for Debugger {
    closed spec fn inputs(&self) -> Set<Seq<char>> {
        Set::empty()
    }

    closed spec fn outputs(&self) -> Set<Seq<char>> {
        Set::empty().insert(self.output_port@)
    }

    closed spec fn deps_of(&self, output: Seq<char>) -> Set<Seq<char>> {
        Set::empty()
    }

    closed spec fn supplied(&self) -> Map<Seq<char>, u32> {
        Map::empty()
    }

    closed spec fn value_of(&self, m: Map<Seq<char>, u32>, output: Seq<char>) -> Option<u32> {
        if output == self.output_port@ && self.current_value_idx < self.values@.len() {
            Some(self.values@[self.current_value_idx as int])
        } else {
            None
        }
    }

    closed spec fn with_supplied(&self, m: Map<Seq<char>, u32>) -> Debugger {
        *self
    }

    closed spec fn step_rel(&self, post: Debugger) -> bool {
        post == self.advanced()
    }

    closed spec fn can_step(&self) -> bool {
        true
    }

    closed spec fn batch_ok(&self, s: Seq<(Seq<char>, u32)>) -> bool {
        false
    }

    closed spec fn wf(&self) -> bool {
        &&& self.values@.len() > 0
        &&& self.values@.len() <= usize::MAX
        &&& self.current_value_idx < self.values@.len()
    }

    proof fn lemma_wf(&self) {
    }

    proof fn lemma_value_determined(
        &self,
        m1: Map<Seq<char>, u32>,
        m2: Map<Seq<char>, u32>,
        output: Seq<char>,
    ) {
    }

    proof fn lemma_with_supplied(&self, m: Map<Seq<char>, u32>) {
        assert(m =~= self.supplied());
    }

    proof fn lemma_stepped(&self, post: Debugger) {
        assert(post.supplied() =~= Map::<Seq<char>, u32>::empty());
    }

    proof fn lemma_all_inputs_step(&self) {
    }

    fn get_input_ports(&self) -> (r: Vec<String>) {
        let r: Vec<String> = Vec::new();
        proof {
            assert(names_view(r@) =~= Seq::<Seq<char>>::empty());
            assert(names_view(r@).to_set() =~= self.inputs());
        }
        r
    }

    fn get_output_ports(&self) -> (r: Vec<String>) {
        let mut r: Vec<String> = Vec::new();
        r.push(self.output_port.clone());
        proof {
            assert(names_view(r@)[0] == self.output_port@);
            assert(names_view(r@).to_set() =~= self.outputs());
        }
        r
    }

    fn get_output_dependencies(&self, output: &String) -> (r: Result<Vec<String>, DeviceError>) {
        if *output == self.output_port {
            let d: Vec<String> = Vec::new();
            proof {
                assert(names_view(d@) =~= Seq::<Seq<char>>::empty());
                assert(names_view(d@).to_set() =~= self.deps_of(output@));
            }
            Ok(d)
        } else {
            Err(DeviceError::UnknownPort)
        }
    }

    fn provide_port_value(&mut self, port: String, value: u32) -> (r: Result<(), DeviceError>) {
        if port == self.output_port {
            Err(DeviceError::PortKindMismatch)
        } else {
            Err(DeviceError::UnknownPort)
        }
    }

    fn provide_port_values(&mut self, values: Vec<(String, u32)>) -> (r: Result<
        (),
        DeviceError,
    >) {
        Err(DeviceError::UnknownPort)
    }

    fn get_port_value(&self, port: &String) -> (r: Result<Option<u32>, DeviceError>) {
        if *port == self.output_port {
            Ok(Some(self.values[self.current_value_idx]))
        } else {
            Err(DeviceError::UnknownPort)
        }
    }

    fn tick(&mut self) -> (r: Result<(), DeviceError>) {
        proof {
            assert(self.current_value_idx < self.values@.len() <= usize::MAX);
        }
        self.current_value_idx += 1;
        if self.current_value_idx >= self.values.len() {
            self.current_value_idx = 0;
        }
        Ok(())
    }
}

} // verus!
