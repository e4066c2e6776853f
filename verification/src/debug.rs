//! A record of what the flattener did.

use vstd::prelude::*;
use crate::instruction::{BinCondOp, RegKst};

verus! {

/// Something that the flattener did.
#[derive(Debug, Clone, Copy, PartialEq, Eq, Structural)]
pub enum DebugValue {
    Closure(usize),
    Block(usize),
    GotoBlock(usize, usize),
    IfStatement(RegKst, BinCondOp, RegKst),
    ForPrep(usize),
    ForLoop(usize),
}

/// A record of what the flattener did, in the order in which it did it.
pub struct Debug {
    last_block: usize,
    log: Vec<DebugValue>,
    ip: usize,
}

impl View for Debug {
    type V = Seq<DebugValue>;

    closed spec fn view(&self) -> Seq<DebugValue> {
        self.log@
    }
}

impl Debug {
    pub fn new() -> (r: Self)
        ensures
            r@ == Seq::<DebugValue>::empty(),
    {
        Self { last_block: 0, log: Vec::new(), ip: 0 }
    }

    fn add_log(&mut self, value: DebugValue)
        ensures
            final(self)@ == old(self)@.push(value),
    {
        self.log.push(value)
    }

    pub fn create_closure(&mut self, id: usize)
        ensures
            final(self)@ == old(self)@.push(DebugValue::Closure(id)),
    {
        self.add_log(DebugValue::Closure(id))
    }

    pub fn create_block(&mut self, id: usize)
        ensures
            final(self)@ == old(self)@.push(DebugValue::Block(id)),
    {
        self.add_log(DebugValue::Block(id))
    }

    pub fn goto_block(&mut self, from_id: usize, target_id: usize)
        ensures
            final(self)@ == old(self)@.push(DebugValue::GotoBlock(from_id, target_id)),
    {
        self.add_log(DebugValue::GotoBlock(from_id, target_id))
    }

    pub fn for_prep(&mut self, target: usize)
        ensures
            final(self)@ == old(self)@.push(DebugValue::ForPrep(target)),
    {
        self.add_log(DebugValue::ForPrep(target))
    }

    pub fn for_loop(&mut self, block: usize)
        ensures
            final(self)@ == old(self)@.push(DebugValue::ForLoop(block)),
    {
        self.add_log(DebugValue::ForLoop(block))
    }

    pub fn if_statement(&mut self, kst1: RegKst, cond: BinCondOp, kst2: RegKst)
        ensures
            final(self)@ == old(self)@.push(DebugValue::IfStatement(kst1, cond, kst2)),
    {
        self.add_log(DebugValue::IfStatement(kst1, cond, kst2))
    }

    /// The record so far.
    pub fn entries(&self) -> (r: &Vec<DebugValue>)
        ensures
            r@ == self@,
    {
        &self.log
    }
}

} // verus!
