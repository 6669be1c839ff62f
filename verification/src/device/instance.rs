//! A closed set of device implementations behind one type, so a controller
//! can own a heterogeneous collection of devices and still be verified:
//! every call dispatches to the concrete device's verified implementation.

use vstd::prelude::*;

use crate::device::constant::Constant;
use crate::device::debugger::Debugger;
use crate::device::memory::Memory;
use crate::device::sequencer::Sequencer;
use crate::device::{Device, DeviceError};

verus! {

/// Any of the registrable devices.
pub enum DeviceInstance {
    Constant(Constant),
    Sequencer(Sequencer),
    Debugger(Debugger),
    Memory(Memory),
}

impl Device for DeviceInstance {
    open spec fn inputs(&self) -> Set<Seq<char>> {
        match self {
            DeviceInstance::Constant(d) => d.inputs(),
            DeviceInstance::Sequencer(d) => d.inputs(),
            DeviceInstance::Debugger(d) => d.inputs(),
            DeviceInstance::Memory(d) => d.inputs(),
        }
    }

    open spec fn outputs(&self) -> Set<Seq<char>> {
        match self {
            DeviceInstance::Constant(d) => d.outputs(),
            DeviceInstance::Sequencer(d) => d.outputs(),
            DeviceInstance::Debugger(d) => d.outputs(),
            DeviceInstance::Memory(d) => d.outputs(),
        }
    }

    open spec fn deps_of(&self, output: Seq<char>) -> Set<Seq<char>> {
        match self {
            DeviceInstance::Constant(d) => d.deps_of(output),
            DeviceInstance::Sequencer(d) => d.deps_of(output),
            DeviceInstance::Debugger(d) => d.deps_of(output),
            DeviceInstance::Memory(d) => d.deps_of(output),
        }
    }

    open spec fn supplied(&self) -> Map<Seq<char>, u32> {
        match self {
            DeviceInstance::Constant(d) => d.supplied(),
            DeviceInstance::Sequencer(d) => d.supplied(),
            DeviceInstance::Debugger(d) => d.supplied(),
            DeviceInstance::Memory(d) => d.supplied(),
        }
    }

    open spec fn value_of(&self, m: Map<Seq<char>, u32>, output: Seq<char>) -> Option<u32> {
        match self {
            DeviceInstance::Constant(d) => d.value_of(m, output),
            DeviceInstance::Sequencer(d) => d.value_of(m, output),
            DeviceInstance::Debugger(d) => d.value_of(m, output),
            DeviceInstance::Memory(d) => d.value_of(m, output),
        }
    }

    open spec fn with_supplied(&self, m: Map<Seq<char>, u32>) -> DeviceInstance {
        match self {
            DeviceInstance::Constant(d) => DeviceInstance::Constant(d.with_supplied(m)),
            DeviceInstance::Sequencer(d) => DeviceInstance::Sequencer(d.with_supplied(m)),
            DeviceInstance::Debugger(d) => DeviceInstance::Debugger(d.with_supplied(m)),
            DeviceInstance::Memory(d) => DeviceInstance::Memory(d.with_supplied(m)),
        }
    }

    open spec fn step_rel(&self, post: DeviceInstance) -> bool {
        match self {
            DeviceInstance::Constant(d) => post matches DeviceInstance::Constant(p)
                && d.step_rel(p),
            DeviceInstance::Sequencer(d) => post matches DeviceInstance::Sequencer(p)
                && d.step_rel(p),
            DeviceInstance::Debugger(d) => post matches DeviceInstance::Debugger(p)
                && d.step_rel(p),
            DeviceInstance::Memory(d) => post matches DeviceInstance::Memory(p) && d.step_rel(p),
        }
    }

    open spec fn can_step(&self) -> bool {
        match self {
            DeviceInstance::Constant(d) => d.can_step(),
            DeviceInstance::Sequencer(d) => d.can_step(),
            DeviceInstance::Debugger(d) => d.can_step(),
            DeviceInstance::Memory(d) => d.can_step(),
        }
    }

    open spec fn batch_ok(&self, s: Seq<(Seq<char>, u32)>) -> bool {
        match self {
            DeviceInstance::Constant(d) => d.batch_ok(s),
            DeviceInstance::Sequencer(d) => d.batch_ok(s),
            DeviceInstance::Debugger(d) => d.batch_ok(s),
            DeviceInstance::Memory(d) => d.batch_ok(s),
        }
    }

    open spec fn wf(&self) -> bool {
        match self {
            DeviceInstance::Constant(d) => d.wf(),
            DeviceInstance::Sequencer(d) => d.wf(),
            DeviceInstance::Debugger(d) => d.wf(),
            DeviceInstance::Memory(d) => d.wf(),
        }
    }

    proof fn lemma_wf(&self) {
        match self {
            DeviceInstance::Constant(d) => d.lemma_wf(),
            DeviceInstance::Sequencer(d) => d.lemma_wf(),
            DeviceInstance::Debugger(d) => d.lemma_wf(),
            DeviceInstance::Memory(d) => d.lemma_wf(),
        }
    }

    proof fn lemma_value_determined(
        &self,
        m1: Map<Seq<char>, u32>,
        m2: Map<Seq<char>, u32>,
        output: Seq<char>,
    ) {
        match self {
            DeviceInstance::Constant(d) => d.lemma_value_determined(m1, m2, output),
            DeviceInstance::Sequencer(d) => d.lemma_value_determined(m1, m2, output),
            DeviceInstance::Debugger(d) => d.lemma_value_determined(m1, m2, output),
            DeviceInstance::Memory(d) => d.lemma_value_determined(m1, m2, output),
        }
    }

    proof fn lemma_with_supplied(&self, m: Map<Seq<char>, u32>) {
        match self {
            DeviceInstance::Constant(d) => {
                d.lemma_with_supplied(m);
                assert forall|m2: Map<Seq<char>, u32>|
                    m2.dom().subset_of(self.inputs()) implies #[trigger] self.with_supplied(
                    m,
                ).with_supplied(m2) == self.with_supplied(m2) by {
                    d.lemma_with_supplied(m2);
                }
            },
            DeviceInstance::Sequencer(d) => {
                d.lemma_with_supplied(m);
                assert forall|m2: Map<Seq<char>, u32>|
                    m2.dom().subset_of(self.inputs()) implies #[trigger] self.with_supplied(
                    m,
                ).with_supplied(m2) == self.with_supplied(m2) by {
                    d.lemma_with_supplied(m2);
                }
            },
            DeviceInstance::Debugger(d) => {
                d.lemma_with_supplied(m);
                assert forall|m2: Map<Seq<char>, u32>|
                    m2.dom().subset_of(self.inputs()) implies #[trigger] self.with_supplied(
                    m,
                ).with_supplied(m2) == self.with_supplied(m2) by {
                    d.lemma_with_supplied(m2);
                }
            },
            DeviceInstance::Memory(d) => {
                d.lemma_with_supplied(m);
                assert forall|m2: Map<Seq<char>, u32>|
                    m2.dom().subset_of(self.inputs()) implies #[trigger] self.with_supplied(
                    m,
                ).with_supplied(m2) == self.with_supplied(m2) by {
                    d.lemma_with_supplied(m2);
                }
            },
        }
    }

    proof fn lemma_stepped(&self, post: DeviceInstance) {
        match self {
            DeviceInstance::Constant(d) => {
                if let DeviceInstance::Constant(p) = post {
                    d.lemma_stepped(p);
                }
            },
            DeviceInstance::Sequencer(d) => {
                if let DeviceInstance::Sequencer(p) = post {
                    d.lemma_stepped(p);
                }
            },
            DeviceInstance::Debugger(d) => {
                if let DeviceInstance::Debugger(p) = post {
                    d.lemma_stepped(p);
                }
            },
            DeviceInstance::Memory(d) => {
                if let DeviceInstance::Memory(p) = post {
                    d.lemma_stepped(p);
                }
            },
        }
    }

    proof fn lemma_all_inputs_step(&self) {
        match self {
            DeviceInstance::Constant(d) => d.lemma_all_inputs_step(),
            DeviceInstance::Sequencer(d) => d.lemma_all_inputs_step(),
            DeviceInstance::Debugger(d) => d.lemma_all_inputs_step(),
            DeviceInstance::Memory(d) => d.lemma_all_inputs_step(),
        }
    }

    fn get_input_ports(&self) -> (r: Vec<String>) {
        match self {
            DeviceInstance::Constant(d) => d.get_input_ports(),
            DeviceInstance::Sequencer(d) => d.get_input_ports(),
            DeviceInstance::Debugger(d) => d.get_input_ports(),
            DeviceInstance::Memory(d) => d.get_input_ports(),
        }
    }

    fn get_output_ports(&self) -> (r: Vec<String>) {
        match self {
            DeviceInstance::Constant(d) => d.get_output_ports(),
            DeviceInstance::Sequencer(d) => d.get_output_ports(),
            DeviceInstance::Debugger(d) => d.get_output_ports(),
            DeviceInstance::Memory(d) => d.get_output_ports(),
        }
    }

    fn get_output_dependencies(&self, output: &String) -> (r: Result<Vec<String>, DeviceError>) {
        match self {
            DeviceInstance::Constant(d) => d.get_output_dependencies(output),
            DeviceInstance::Sequencer(d) => d.get_output_dependencies(output),
            DeviceInstance::Debugger(d) => d.get_output_dependencies(output),
            DeviceInstance::Memory(d) => d.get_output_dependencies(output),
        }
    }

    fn provide_port_value(&mut self, port: String, value: u32) -> (r: Result<(), DeviceError>) {
        match self {
            DeviceInstance::Constant(d) => d.provide_port_value(port, value),
            DeviceInstance::Sequencer(d) => d.provide_port_value(port, value),
            DeviceInstance::Debugger(d) => d.provide_port_value(port, value),
            DeviceInstance::Memory(d) => d.provide_port_value(port, value),
        }
    }

    fn provide_port_values(&mut self, values: Vec<(String, u32)>) -> (r: Result<
        (),
        DeviceError,
    >) {
        match self {
            DeviceInstance::Constant(d) => d.provide_port_values(values),
            DeviceInstance::Sequencer(d) => d.provide_port_values(values),
            DeviceInstance::Debugger(d) => d.provide_port_values(values),
            DeviceInstance::Memory(d) => d.provide_port_values(values),
        }
    }

    fn get_port_value(&self, port: &String) -> (r: Result<Option<u32>, DeviceError>) {
        match self {
            DeviceInstance::Constant(d) => d.get_port_value(port),
            DeviceInstance::Sequencer(d) => d.get_port_value(port),
            DeviceInstance::Debugger(d) => d.get_port_value(port),
            DeviceInstance::Memory(d) => d.get_port_value(port),
        }
    }

    fn tick(&mut self) -> (r: Result<(), DeviceError>) {
        match self {
            DeviceInstance::Constant(d) => d.tick(),
            DeviceInstance::Sequencer(d) => d.tick(),
            DeviceInstance::Debugger(d) => d.tick(),
            DeviceInstance::Memory(d) => d.tick(),
        }
    }
}

} // verus!
