//! The registers that a function's code and the flattener share.

use vstd::prelude::*;
use rand::Rng;
use crate::error::Error;

verus! {

pub type RegisterScalar = usize;

/// `rand::rngs::ThreadRng`: the random number generator that
/// `rand::thread_rng` hands out. Nothing is known of what it holds.
#[verifier::external_type_specification]
#[verifier::external_body]
pub struct ExThreadRng(rand::rngs::ThreadRng);

/// `rand::thread_rng`: the random number generator of the current thread.
/// Nothing is claimed of it.
pub assume_specification[ rand::thread_rng ]() -> (rng: rand::rngs::ThreadRng);

/// `Rng::gen_range` of rand on the range from 0 up to `bound`, which is
/// left out: some number of that range. The call panics on an empty range,
/// so `bound` is not 0.
#[verifier::external_body]
fn random_below(rng: &mut rand::rngs::ThreadRng, bound: usize) -> (r: usize)
    requires
        bound > 0,
    ensures
        r < bound,
{
    rng.gen_range(0..bound)
}

/// The numbers from 0 up to `n`, which is left out.
pub open spec fn identity(n: nat) -> Seq<usize> {
    Seq::new(n, |i: int| i as usize)
}

/// The registers of one function: a table that gives each register its
/// place, the registers that are still free, and the registers that the
/// function's own code may use, both in growing order of their first
/// numbering. A register is taken from the front of both lists.
pub struct Registers {
    registers: Vec<RegisterScalar>,
    unused: Vec<usize>,
    possible: Vec<usize>,
}

impl Registers {
    /// The place of each register.
    pub closed spec fn table(&self) -> Seq<usize> {
        self.registers@
    }

    /// The registers that are free.
    pub closed spec fn unused(&self) -> Seq<usize> {
        self.unused@
    }

    /// The registers that are left to the code.
    pub closed spec fn possible(&self) -> Seq<usize> {
        self.possible@
    }

    /// As many registers are free as are left to the code, and each of
    /// them has a place in the table.
    pub open spec fn wf(&self) -> bool {
        &&& self.unused().len() == self.possible().len()
        &&& forall|i: int| 0 <= i < self.unused().len() ==> self.unused()[i] < self.table().len()
        &&& forall|i: int|
            0 <= i < self.possible().len() ==> self.possible()[i] < self.table().len()
    }

    /// `capacity` registers, each at its own place, all free.
    pub fn from_size(capacity: RegisterScalar) -> (r: Self)
        ensures
            r.wf(),
            r.table() == identity(capacity as nat),
            r.unused() == identity(capacity as nat),
            r.possible() == identity(capacity as nat),
    {
        Self {
            registers: count_up(capacity),
            unused: count_up(capacity),
            possible: count_up(capacity),
        }
    }

    /// `capacity` registers, all free, each at a place drawn at random
    /// among the `capacity` first.
    pub fn from_size_randomized(capacity: RegisterScalar) -> (r: Self)
        ensures
            r.wf(),
            r.table().len() == capacity,
            forall|i: int| 0 <= i < capacity ==> r.table()[i] < capacity,
            r.unused() == identity(capacity as nat),
            r.possible() == identity(capacity as nat),
    {
        let mut rng = rand::thread_rng();
        let mut registers: Vec<RegisterScalar> = Vec::new();
        let mut i: usize = 0;
        while i < capacity
            invariant
                i <= capacity,
                registers.len() == i,
                forall|j: int| 0 <= j < i ==> registers[j] < capacity,
            decreases capacity - i,
        {
            registers.push(random_below(&mut rng, capacity));
            i += 1;
        }
        Self { registers, unused: count_up(capacity), possible: count_up(capacity) }
    }

    /// Takes the first free register and gives its place. Fails where no
    /// register is free, and then changes nothing.
    pub fn new(&mut self) -> (r: Result<RegisterScalar, Error>)
        requires
            old(self).wf(),
        ensures
            final(self).wf(),
            final(self).table() == old(self).table(),
            match r {
                Ok(reg) => {
                    &&& old(self).unused().len() > 0
                    &&& reg == old(self).table()[old(self).unused()[0] as int]
                    &&& final(self).unused() == old(self).unused().drop_first()
                    &&& final(self).possible() == old(self).possible().drop_first()
                },
                Err(e) => {
                    &&& old(self).unused().len() == 0
                    &&& e == Error::ResourceExhausted
                    &&& final(self).unused() == old(self).unused()
                    &&& final(self).possible() == old(self).possible()
                },
            },
    {
        if self.unused.len() == 0 {
            return Err(Error::ResourceExhausted);
        }
        let reg_idx = self.unused.remove(0);
        self.possible.remove(0);
        assert(self.unused() =~= old(self).unused().drop_first());
        assert(self.possible() =~= old(self).possible().drop_first());
        Ok(self.registers[reg_idx])
    }

    /// The place of the register that is `reg` places into those left to
    /// the code. Fails where fewer are left.
    pub fn get(&mut self, reg: RegisterScalar) -> (r: Result<RegisterScalar, Error>)
        requires
            old(self).wf(),
        ensures
            final(self).wf(),
            final(self).table() == old(self).table(),
            final(self).unused() == old(self).unused(),
            final(self).possible() == old(self).possible(),
            match r {
                Ok(place) => reg < old(self).possible().len() && place == old(self).table()[old(
                    self,
                ).possible()[reg as int] as int],
                Err(e) => reg >= old(self).possible().len() && e == Error::ResourceExhausted,
            },
    {
        if reg < self.possible.len() {
            Ok(self.registers[self.possible[reg]])
        } else {
            Err(Error::ResourceExhausted)
        }
    }

    /// Puts the register `idx` at the place `reg`. Fails where there is no
    /// register `idx`, and then changes nothing.
    pub fn set(&mut self, idx: usize, reg: RegisterScalar) -> (r: Result<(), Error>)
        requires
            old(self).wf(),
        ensures
            final(self).wf(),
            final(self).unused() == old(self).unused(),
            final(self).possible() == old(self).possible(),
            match r {
                Ok(()) => {
                    &&& idx < old(self).table().len()
                    &&& final(self).table() == old(self).table().update(idx as int, reg)
                },
                Err(e) => {
                    &&& idx >= old(self).table().len()
                    &&& e == Error::ResourceExhausted
                    &&& final(self).table() == old(self).table()
                },
            },
    {
        if idx < self.registers.len() {
            self.registers.set(idx, reg);
            Ok(())
        } else {
            Err(Error::ResourceExhausted)
        }
    }

    /// Takes the `offset` first free registers out of use, and away from
    /// the code. Fails where fewer are free, and then changes nothing.
    pub fn offset(&mut self, offset: usize) -> (r: Result<(), Error>)
        requires
            old(self).wf(),
        ensures
            final(self).wf(),
            final(self).table() == old(self).table(),
            match r {
                Ok(()) => {
                    &&& offset <= old(self).unused().len()
                    &&& final(self).unused() == old(self).unused().skip(offset as int)
                    &&& final(self).possible() == old(self).possible().skip(offset as int)
                },
                Err(e) => {
                    &&& offset > old(self).unused().len()
                    &&& e == Error::ResourceExhausted
                    &&& final(self).unused() == old(self).unused()
                    &&& final(self).possible() == old(self).possible()
                },
            },
    {
        if offset > self.unused.len() {
            return Err(Error::ResourceExhausted);
        }
        let mut n: usize = 0;
        assert(self.unused() =~= old(self).unused().skip(0));
        assert(self.possible() =~= old(self).possible().skip(0));
        while n < offset
            invariant
                n <= offset <= old(self).unused().len(),
                old(self).wf(),
                self.table() == old(self).table(),
                self.unused() == old(self).unused().skip(n as int),
                self.possible() == old(self).possible().skip(n as int),
            decreases offset - n,
        {
            self.unused.remove(0);
            self.possible.remove(0);
            assert(self.unused() =~= old(self).unused().skip(n + 1));
            assert(self.possible() =~= old(self).possible().skip(n + 1));
            n += 1;
        }
        Ok(())
    }
}

/// The numbers from 0 up to `n`, which is left out.
fn count_up(n: usize) -> (r: Vec<usize>)
    ensures
        r@ == identity(n as nat),
{
    let mut list: Vec<usize> = Vec::new();
    let mut i: usize = 0;
    while i < n
        invariant
            i <= n,
            list@ == identity(i as nat),
        decreases n - i,
    {
        list.push(i);
        assert(list@ =~= identity((i + 1) as nat));
        i += 1;
    }
    list
}

} // verus!
