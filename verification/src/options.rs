//! What the obfuscator is asked to do, and for which machine.

use vstd::prelude::*;

verus! {

/// What the flattener has to know of a virtual machine.
#[derive(Debug, Clone, Copy, PartialEq, Eq, Structural)]
pub struct VMConfig {
    pub max_stack_size: usize,
}

/// The virtual machines whose code can be flattened.
#[derive(Debug, Clone, Copy, PartialEq, Eq, Structural)]
pub enum VM {
    Lua51,
}

impl VM {
    /// The limits of this machine: a function of Lua 5.1 has 250 registers.
    pub open spec fn config(self) -> VMConfig {
        match self {
            VM::Lua51 => VMConfig { max_stack_size: 250 },
        }
    }

    pub fn get(&self) -> (r: VMConfig)
        ensures
            r == self.config(),
    {
        match self {
            VM::Lua51 => VMConfig { max_stack_size: 250 },
        }
    }
}

/// What to do to a chunk.
#[derive(Debug, Clone, Copy, PartialEq, Eq, Structural)]
pub struct Options {
    pub flatten_control_flow: bool,
    pub scramble_opcodes: bool,
    pub target_vm: VM,
}

} // verus!
