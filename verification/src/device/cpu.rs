//! A stub processor device: its port declarations, register file and
//! instruction list are in place, while its resolution and tick logic are
//! not defined yet. It is kept as plain data and cannot be registered with
//! a controller until that logic exists.

use vstd::prelude::*;

verus! {

/// One of the processor's registers.
#[derive(PartialEq, Eq, Hash, Debug, Clone, Copy)]
pub enum RegisterIdentifier {
    InstructionPointer,
    X,
    Y,
    Z,
}

/// Where an instruction operand comes from.
pub enum SourceIdentifier {
    Immediate(u32),
    Register(RegisterIdentifier),
    Port(String),
}

/// Where an instruction result goes.
pub enum DestinationIdentifier {
    Register(RegisterIdentifier),
    Port(String),
}

/// One processor instruction.
pub enum Instruction {
    Noop,
    Sleep,
    Move { source: SourceIdentifier, destination: DestinationIdentifier },
    Increment(RegisterIdentifier),
    Decrement(RegisterIdentifier),
    Add { source_a: SourceIdentifier, source_b: SourceIdentifier, destination: DestinationIdentifier },
    Subtract {
        source_a: SourceIdentifier,
        source_b: SourceIdentifier,
        destination: DestinationIdentifier,
    },
}

/// The stub processor: an instruction list and four registers, all starting
/// at zero.
pub struct Cpu {
    instructions: Vec<Instruction>,
    register_ip: u32,
    register_x: u32,
    register_y: u32,
    register_z: u32,
}

impl Cpu {
    /// The instruction list.
    pub closed spec fn instructions_spec(&self) -> Seq<Instruction> {
        self.instructions@
    }

    /// The value of the given register.
    pub closed spec fn register_spec(&self, r: RegisterIdentifier) -> u32 {
        match r {
            RegisterIdentifier::InstructionPointer => self.register_ip,
            RegisterIdentifier::X => self.register_x,
            RegisterIdentifier::Y => self.register_y,
            RegisterIdentifier::Z => self.register_z,
        }
    }

    /// A processor with no instructions.
    pub fn new() -> (r: Cpu)
        ensures
            r.instructions_spec() == Seq::<Instruction>::empty(),
            forall|reg: RegisterIdentifier| #[trigger] r.register_spec(reg) == 0,
    {
        Self::with_instructions(Vec::new())
    }

    /// A processor preloaded with an instruction list; every register starts
    /// at zero.
    pub fn with_instructions(instructions: Vec<Instruction>) -> (r: Cpu)
        ensures
            r.instructions_spec() == instructions@,
            forall|reg: RegisterIdentifier| #[trigger] r.register_spec(reg) == 0,
    {
        Cpu { instructions, register_ip: 0, register_x: 0, register_y: 0, register_z: 0 }
    }

    /// Append one instruction to the program.
    pub fn add_instruction(&mut self, instruction: Instruction)
        ensures
            final(self).instructions_spec() == old(self).instructions_spec().push(instruction),
            forall|reg: RegisterIdentifier| #[trigger] final(self).register_spec(reg) == old(
                self,
            ).register_spec(reg),
    {
        self.instructions.push(instruction);
    }
}

} // verus!
