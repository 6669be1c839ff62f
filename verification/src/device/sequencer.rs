//! A source device that plays a fixed, non-empty list of values, one per
//! tick, wrapping back to the start after the last one.

use vstd::prelude::*;

use crate::device::{names_view, Device, DeviceError};

verus! {

/// A device with a single output port that carries the current element of a
/// fixed value list; `tick` advances the cursor cyclically.
pub struct Sequencer {
    output_port: String,
    values: Vec<u32>,
    current_value_idx: usize,
}

impl Sequencer {
    /// The name of the single output port.
    pub closed spec fn port_spec(&self) -> Seq<char> {
        self.output_port@
    }

    /// The fixed list of values played.
    pub closed spec fn values_spec(&self) -> Seq<u32> {
        self.values@
    }

    /// The position in the value list that the output currently carries.
    pub closed spec fn cursor_spec(&self) -> int {
        self.current_value_idx as int
    }

    /// Build a sequencer for the given output port name and value list.
    /// Fails exactly when the list is empty.
    pub fn new(output_port: String, values: &Vec<u32>) -> (r: Result<Sequencer, ()>)
        ensures
            r is Ok <==> values@.len() > 0,
            r matches Ok(s) ==> s.wf() && s.port_spec() == output_port@ && s.values_spec()
                == values@ && s.cursor_spec() == 0,
    {
        if values.is_empty() {
            Err(())
        } else {
            let cloned_values = values.clone();
            let n = cloned_values.len();
            proof {
                assert(cloned_values@ =~= values@);
                assert(cloned_values@.len() == n);
            }
            Ok(Sequencer { output_port, values: cloned_values, current_value_idx: 0 })
        }
    }
}

/// The sequencer after `n` committed ticks.
pub open spec fn sequencer_after(s: Sequencer, n: nat) -> Sequencer
    decreases n,
{
    if n == 0 {
        s
    } else {
        let prev = sequencer_after(s, (n - 1) as nat);
        Sequencer::advanced(prev)
    }
}

impl Sequencer {
    /// The unique successor state of a committed tick.
    pub closed spec fn advanced(self) -> Sequencer {
        Sequencer {
            output_port: self.output_port,
            values: self.values,
            current_value_idx: if self.cursor_spec() + 1 < self.values_spec().len() {
                (self.current_value_idx + 1) as usize
            } else {
                0
            },
        }
    }
}

/// Law: a sequencer source has no inputs and one output, which carries the
/// element of its value list at the current cursor; a committed tick
/// produces exactly the advanced state, whose cursor moved one step
/// forward, wrapping to the start after the last element.
pub proof fn lemma_sequencer_steps(s: Sequencer, post: Sequencer, m: Map<Seq<char>, u32>)
    requires
        s.wf(),
    ensures
        s.inputs() == Set::<Seq<char>>::empty(),
        s.outputs() == Set::empty().insert(s.port_spec()),
        s.can_step(),
        s.value_of(m, s.port_spec()) == Some(s.values_spec()[s.cursor_spec()]),
        s.step_rel(post) <==> post == s.advanced(),
        s.advanced().values_spec() == s.values_spec(),
        s.advanced().port_spec() == s.port_spec(),
        s.advanced().cursor_spec() == if s.cursor_spec() + 1 < s.values_spec().len() {
            s.cursor_spec() + 1
        } else {
            0
        },
{
}

/// Law: a sequencer built over a value list plays it cyclically. After any
/// number `n` of committed ticks from the start, the output carries the
/// element at `n` modulo the list length, whatever was supplied.
pub proof fn lemma_sequencer_wraps(s: Sequencer, n: nat, m: Map<Seq<char>, u32>)
    requires
        s.wf(),
        s.cursor_spec() == 0,
    ensures
        sequencer_after(s, n).wf(),
        sequencer_after(s, n).values_spec() == s.values_spec(),
        sequencer_after(s, n).port_spec() == s.port_spec(),
        sequencer_after(s, n).cursor_spec() == (n as int) % (s.values_spec().len() as int),
        sequencer_after(s, n).value_of(m, s.port_spec()) == Some(
            s.values_spec()[(n as int) % (s.values_spec().len() as int)],
        ),
    decreases n,
{
    let len = s.values_spec().len() as int;
    if n == 0 {
        assert(0int % len == 0) by (nonlinear_arith)
            requires
                len > 0,
        ;
    } else {
        lemma_sequencer_wraps(s, (n - 1) as nat, m);
        let prev = sequencer_after(s, (n - 1) as nat);
        let ni = n as int;
        assert(prev.cursor_spec() == (ni - 1) % len);
        assert(sequencer_after(s, n) == prev.advanced());
        assert(0 <= ni % len < len && 0 <= (ni - 1) % len < len) by (nonlinear_arith)
            requires
                len > 0,
                ni >= 1,
        ;
        assert((ni - 1) % len + 1 == ni % len || ((ni - 1) % len == len - 1 && ni % len == 0))
            by (nonlinear_arith)
            requires
                len > 0,
                ni >= 1,
        ;
        if prev.cursor_spec() + 1 < len {
            assert(sequencer_after(s, n).cursor_spec() == (ni - 1) % len + 1);
            assert(ni % len == (ni - 1) % len + 1);
        } else {
            assert(sequencer_after(s, n).cursor_spec() == 0);
            assert((ni - 1) % len == len - 1);
            assert(ni % len == 0);
        }
    }
}

impl Device for Sequencer {
    closed spec fn inputs(&self) -> Set<Seq<char>> {
        Set::empty()
    }

    closed spec fn outputs(&self) -> Set<Seq<char>> {
        Set::empty().insert(self.output_port@)
    }

    closed spec fn deps_of(&self, output: Seq<char>) -> Set<Seq<char>> {
        Set::empty()
    }

    closed spec fn supplied(&self) -> Map<Seq<char>, u32> {
        Map::empty()
    }

    closed spec fn value_of(&self, m: Map<Seq<char>, u32>, output: Seq<char>) -> Option<u32> {
        if output == self.output_port@ && self.current_value_idx < self.values@.len() {
            Some(self.values@[self.current_value_idx as int])
        } else {
            None
        }
    }

    closed spec fn with_supplied(&self, m: Map<Seq<char>, u32>) -> Sequencer {
        *self
    }

    closed spec fn step_rel(&self, post: Sequencer) -> bool {
        post == self.advanced()
    }

    closed spec fn can_step(&self) -> bool {
        true
    }

    closed spec fn batch_ok(&self, s: Seq<(Seq<char>, u32)>) -> bool {
        false
    }

    closed spec fn wf(&self) -> bool {
        &&& self.values@.len() > 0
        &&& self.values@.len() <= usize::MAX
        &&& self.current_value_idx < self.values@.len()
    }

    proof fn lemma_wf(&self) {
    }

    proof fn lemma_value_determined(
        &self,
        m1: Map<Seq<char>, u32>,
        m2: Map<Seq<char>, u32>,
        output: Seq<char>,
    ) {
    }

    proof fn lemma_with_supplied(&self, m: Map<Seq<char>, u32>) {
        assert(m =~= self.supplied());
    }

    proof fn lemma_stepped(&self, post: Sequencer) {
        assert(post.supplied() =~= Map::<Seq<char>, u32>::empty());
    }

    proof fn lemma_all_inputs_step(&self) {
    }

    fn get_input_ports(&self) -> (r: Vec<String>) {
        let r: Vec<String> = Vec::new();
        proof {
            assert(names_view(r@) =~= Seq::<Seq<char>>::empty());
            assert(names_view(r@).to_set() =~= self.inputs());
        }
        r
    }

    fn get_output_ports(&self) -> (r: Vec<String>) {
        let mut r: Vec<String> = Vec::new();
        r.push(self.output_port.clone());
        proof {
            assert(names_view(r@)[0] == self.output_port@);
            assert(names_view(r@).to_set() =~= self.outputs());
        }
        r
    }

    fn get_output_dependencies(&self, output: &String) -> (r: Result<Vec<String>, DeviceError>) {
        if *output == self.output_port {
            let d: Vec<String> = Vec::new();
            proof {
                assert(names_view(d@) =~= Seq::<Seq<char>>::empty());
                assert(names_view(d@).to_set() =~= self.deps_of(output@));
            }
            Ok(d)
        } else {
            Err(DeviceError::UnknownPort)
        }
    }

    fn provide_port_value(&mut self, port: String, value: u32) -> (r: Result<(), DeviceError>) {
        if port == self.output_port {
            Err(DeviceError::PortKindMismatch)
        } else {
            Err(DeviceError::UnknownPort)
        }
    }

    fn provide_port_values(&mut self, values: Vec<(String, u32)>) -> (r: Result<
        (),
        DeviceError,
    >) {
        Err(DeviceError::UnknownPort)
    }

    fn get_port_value(&self, port: &String) -> (r: Result<Option<u32>, DeviceError>) {
        if *port == self.output_port {
            Ok(Some(self.values[self.current_value_idx]))
        } else {
            Err(DeviceError::UnknownPort)
        }
    }

    fn tick(&mut self) -> (r: Result<(), DeviceError>) {
        proof {
            assert(self.current_value_idx < self.values@.len() <= usize::MAX);
        }
        self.current_value_idx += 1;
        if self.current_value_idx >= self.values.len() {
            self.current_value_idx = 0;
        }
        Ok(())
    }
}

} // verus!
