//! The basic blocks of a function's code.

use vstd::prelude::*;
use std::collections::{BTreeSet, HashMap};
use crate::instruction::{Instr, Instruction};

verus! {

/// Where control goes after a block.
#[derive(Debug, Clone, Copy, PartialEq, Eq, Structural)]
pub enum Target {
    /// No block starts where the block's last instruction leads; the
    /// offset of that instruction is kept.
    Undefined(i32),
    /// The index of the block that comes next.
    Label(u32),
}

/// A run of instructions that is entered only at its first.
#[derive(Debug)]
pub struct Block {
    pub code: Vec<usize>,
    pub target: Target,
}

/// The instruction tests a condition and skips the jump that follows it.
pub open spec fn is_conditional(instr: Instr) -> bool {
    instr is Test || instr is TestSet || instr is BinCondOp
}

/// The instruction transfers control by its own offset.
pub open spec fn is_jump_like(instr: Instr) -> bool {
    instr is Jump || instr is ForPrep || instr is ForLoop
}

/// The instruction at `pc` makes `l` the first instruction of a block: a
/// conditional the two places after it; a jump or an end of a numeric loop
/// its own place and the next; a return the place after it.
pub open spec fn leader_by(instr: Instr, pc: int, l: int) -> bool {
    if is_conditional(instr) {
        l == pc + 1 || l == pc + 2
    } else if is_jump_like(instr) {
        l == pc || l == pc + 1
    } else if instr is Return {
        l == pc + 1
    } else {
        false
    }
}

/// Some instruction of `code` makes `l` the first instruction of a block.
pub open spec fn made_leader(code: Seq<Instruction>, n: int, l: int) -> bool {
    exists|pc: int| 0 <= pc < n && pc < code.len() && leader_by(#[trigger] code[pc].1, pc, l)
}

/// The place `l` starts a block of `code`, or ends one: the first place,
/// and every place that an instruction makes one and that does not lie
/// beyond the place after the last instruction.
pub open spec fn is_leader(code: Seq<Instruction>, l: int) -> bool {
    0 <= l <= code.len() && (l == 0 || made_leader(code, code.len() as int, l))
}

/// The offset by which the instruction leads on: 1 for a conditional,
/// which skips a jump; its own offset for a jump or an end of a numeric
/// loop.
pub open spec fn edge_by(instr: Instr) -> Option<i32> {
    match instr {
        Instr::Jump(_, b) | Instr::ForPrep(_, b) | Instr::ForLoop(_, b) => Some(b),
        _ => if is_conditional(instr) {
            Some(1i32)
        } else {
            None
        },
    }
}

/// The numbers of `s` grow from each to the next.
pub open spec fn increasing(s: Seq<usize>) -> bool {
    forall|i: int, j: int| 0 <= i < j < s.len() ==> s[i] < s[j]
}

/// The list `l` holds the numbers of `set`, and these only, in growing
/// order.
pub open spec fn lists(l: Seq<usize>, set: Set<usize>) -> bool {
    increasing(l) && forall|x: usize| l.contains(x) <==> set.contains(x)
}

/// The numbers of `set` in growing order.
pub open spec fn listed(set: Set<usize>) -> Seq<usize> {
    choose|l: Seq<usize>| lists(l, set)
}

/// The offset that `edges` hold for the place `pc`.
pub open spec fn edge_at(edges: Map<usize, i32>, pc: int) -> Option<i32> {
    if 0 <= pc <= usize::MAX && edges.contains_key(pc as usize) {
        Some(edges[pc as usize])
    } else {
        None
    }
}

/// The places from `from` up to `to`, which is left out.
pub open spec fn places(from: int, to: int) -> Seq<usize> {
    Seq::new((to - from) as nat, |i: int| (from + i) as usize)
}

/// The block `b` among those that `leaders` cut starts at `dest`, and its
/// index can be a label.
pub open spec fn starts_at(leaders: Seq<usize>, b: int, dest: int) -> bool {
    0 <= b < leaders.len() - 1 && b <= u32::MAX && leaders[b] == dest
}

/// The target of the block that ends before the leader at `i + 1` of
/// `leaders`: the block that starts where the offset recorded for its
/// last instruction leads from the place after it, if there is one.
pub open spec fn target_of(leaders: Seq<usize>, edges: Map<usize, i32>, i: int) -> Target {
    let post = leaders[i + 1] as int;
    let offset = match edge_at(edges, post - 1) {
        Some(o) => o,
        None => 0i32,
    };
    target_to(leaders, post + offset, offset)
}

/// The label of the block among those that `leaders` cut that starts at
/// `dest`; where there is none, the offset that led there.
pub open spec fn target_to(leaders: Seq<usize>, dest: int, offset: i32) -> Target {
    if exists|b: int| starts_at(leaders, b, dest) {
        Target::Label((choose|b: int| starts_at(leaders, b, dest)) as u32)
    } else {
        Target::Undefined(offset)
    }
}

/// The blocks `blocks` are those that the leaders `leaders` cut: one from
/// each leader to the next, with its target as the edges `edges` give it.
pub open spec fn cut_by(blocks: Seq<Block>, leaders: Seq<usize>, edges: Map<usize, i32>) -> bool {
    &&& blocks.len() == if leaders.len() == 0 {
        0
    } else {
        leaders.len() - 1
    }
    &&& forall|i: int|
        0 <= i < blocks.len() ==> (#[trigger] blocks[i]).code@ == places(
            leaders[i] as int,
            leaders[i + 1] as int,
        ) && blocks[i].target == target_of(leaders, edges, i)
}

/// The offset for `pc` after the instructions of `code` were looked at:
/// that of the instruction at `pc`, if it leads on by one, and else what
/// `edges` held.
pub open spec fn new_edge_at(edges: Map<usize, i32>, code: Seq<Instruction>, pc: int) -> Option<
    i32,
> {
    if 0 <= pc < code.len() && edge_by(code[pc].1) is Some {
        edge_by(code[pc].1)
    } else {
        edge_at(edges, pc)
    }
}

/// Finds the blocks of a function's code. It holds the places where blocks
/// start, and the offsets of the instructions that lead elsewhere than to
/// the next.
pub struct Mapper {
    possible_edges: BTreeSet<usize>,
    edges: HashMap<usize, i32>,
}

impl Mapper {
    /// The places where blocks start or end.
    pub closed spec fn leaders(&self) -> Set<usize> {
        self.possible_edges@
    }

    /// The offsets recorded, each under the place of its instruction.
    pub closed spec fn edges(&self) -> Map<usize, i32> {
        self.edges@
    }

    /// A mapper that knows the first place as a leader, and no edge.
    pub fn new() -> (r: Self)
        ensures
            r.leaders() == Set::<usize>::empty().insert(0usize),
            r.edges() == Map::<usize, i32>::empty(),
    {
        let mut possible_edges: BTreeSet<usize> = BTreeSet::new();
        possible_edges.insert(0);
        Self { possible_edges, edges: HashMap::new() }
    }

    /// Finds the blocks of `code`: marks its leaders, then cuts it at them.
    pub fn map(&mut self, code: &Vec<Instruction>) -> (r: Vec<Block>)
        ensures
            forall|l: usize|
                final(self).leaders().contains(l) <==> l <= code.len() && (old(
                    self,
                ).leaders().contains(l) || made_leader(code@, code.len() as int, l as int)),
            forall|pc: int|
                edge_at(final(self).edges(), pc) == new_edge_at(old(self).edges(), code@, pc),
            lists(listed(final(self).leaders()), final(self).leaders()),
            cut_by(r@, listed(final(self).leaders()), final(self).edges()),
    {
        self.map_edges(code);
        self.split_at_edges(code.len())
    }

    /// Records that the instruction at `pc` leads on by `offset`, and
    /// makes the place to which it leads a leader, if that is a place.
    pub fn add_possible(&mut self, pc: usize, offset: i32)
        ensures
            final(self).edges() == old(self).edges().insert(pc, offset),
            forall|l: usize|
                final(self).leaders().contains(l) <==> old(self).leaders().contains(l) || l == pc
                    + offset + 1,
    {
        if offset >= -1 {
            let step: usize = (offset as i64 + 1) as usize;
            if pc <= usize::MAX - step {
                self.possible_edges.insert(pc + step);
            }
        } else {
            let back: usize = (-(offset as i64) - 1) as usize;
            if back <= pc {
                self.possible_edges.insert(pc - back);
            }
        }
        self.edges.insert(pc, offset);
    }

    /// Marks the leaders of `code` and records the offsets of its
    /// instructions that lead on; then drops the leaders that lie beyond
    /// the place after the last instruction.
    pub fn map_edges(&mut self, code: &Vec<Instruction>)
        ensures
            forall|l: usize|
                final(self).leaders().contains(l) <==> l <= code.len() && (old(
                    self,
                ).leaders().contains(l) || made_leader(code@, code.len() as int, l as int)),
            forall|pc: int|
                edge_at(final(self).edges(), pc) == new_edge_at(old(self).edges(), code@, pc),
    {
        let ghost given = old(self).leaders();
        let ghost given_edges = old(self).edges();
        let mut pc: usize = 0;
        while pc < code.len()
            invariant
                pc <= code.len(),
                forall|l: usize|
                    #![trigger self.leaders().contains(l)]
                    self.leaders().contains(l) <==> given.contains(l) || made_leader(
                        code@,
                        pc as int,
                        l as int,
                    ),
                forall|p: int|
                    edge_at(self.edges(), p) == if p < pc {
                        new_edge_at(given_edges, code@, p)
                    } else {
                        edge_at(given_edges, p)
                    },
            decreases code.len() - pc,
        {
            let ghost before = self.leaders();
            let ghost before_edges = self.edges();
            let ghost instr = code@[pc as int].1;
            match code[pc].1 {
                Instr::Test(..) | Instr::TestSet(..) | Instr::BinCondOp(..) => {
                    self.add_possible(pc, 1);
                    let ghost middle = self.leaders();
                    self.possible_edges.insert(pc + 1);
                    proof {
                        lemma_edge_at_insert(before_edges, pc, 1i32);
                        assert(self.leaders() == middle.insert((pc + 1) as usize));
                        assert forall|l: usize|
                            self.leaders().contains(l) <==> before.contains(l) || leader_by(
                                instr,
                                pc as int,
                                l as int,
                            ) by {
                            assert(middle.contains(l) <==> before.contains(l) || l == pc + 1 + 1);
                        }
                    }
                },
                Instr::Jump(_, b) | Instr::ForPrep(_, b) | Instr::ForLoop(_, b) => {
                    self.possible_edges.insert(pc);
                    self.possible_edges.insert(pc + 1);
                    self.edges.insert(pc, b);
                    proof {
                        lemma_edge_at_insert(before_edges, pc, b);
                        assert(self.leaders() == before.insert(pc).insert((pc + 1) as usize));
                    }
                },
                Instr::Return(..) => {
                    self.possible_edges.insert(pc + 1);
                    assert(self.leaders() == before.insert((pc + 1) as usize));
                },
                _ => {},
            }
            proof {
                assert forall|l: usize|
                    #![trigger self.leaders().contains(l)]
                    self.leaders().contains(l) <==> given.contains(l) || made_leader(
                        code@,
                        pc + 1,
                        l as int,
                    ) by {
                    lemma_made_leader_step(code@, pc as int, l as int);
                    assert(self.leaders().contains(l) <==> before.contains(l) || leader_by(
                        instr,
                        pc as int,
                        l as int,
                    ));
                    assert(before.contains(l) <==> given.contains(l) || made_leader(
                        code@,
                        pc as int,
                        l as int,
                    ));
                }
            }
            pc += 1;
        }
        let ghost all = self.leaders();
        let ghost recorded = self.edges();
        proof {
            assert forall|p: int| edge_at(self.edges(), p) == new_edge_at(
                given_edges,
                code@,
                p,
            ) by {
                assert(edge_at(recorded, p) == if p < code.len() {
                    new_edge_at(given_edges, code@, p)
                } else {
                    edge_at(given_edges, p)
                });
            }
        }
        let mut kept: BTreeSet<usize> = BTreeSet::new();
        let mut l: usize = 0;
        while l < code.len()
            invariant
                l <= code.len(),
                self.leaders() == all,
                self.edges() == recorded,
                forall|x: usize|
                    #![trigger kept@.contains(x)]
                    kept@.contains(x) <==> x < l && all.contains(x),
                forall|p: int| edge_at(self.edges(), p) == new_edge_at(given_edges, code@, p),
            decreases code.len() - l,
        {
            let ghost so_far = kept@;
            let has = self.possible_edges.contains(&l);
            assert(has == all.contains(l));
            if has {
                kept.insert(l);
                assert(kept@ == so_far.insert(l));
            }
            assert forall|x: usize|
                #![trigger kept@.contains(x)]
                kept@.contains(x) <==> x < l + 1 && all.contains(x) by {
                assert(so_far.contains(x) <==> x < l && all.contains(x));
            }
            l += 1;
        }
        let ghost so_far = kept@;
        let has = self.possible_edges.contains(&code.len());
        assert(has == all.contains(code.len()));
        if has {
            kept.insert(code.len());
            assert(kept@ == so_far.insert(code.len()));
        }
        self.possible_edges = kept;
        proof {
            assert forall|x: usize|
                self.leaders().contains(x) <==> x <= code.len() && (given.contains(x)
                    || made_leader(code@, code.len() as int, x as int)) by {
                assert(so_far.contains(x) <==> x < code.len() && all.contains(x));
                assert(all.contains(x) <==> given.contains(x) || made_leader(
                    code@,
                    code.len() as int,
                    x as int,
                ));
            }
        }
    }

    /// The leaders in growing order; none of them lies beyond `limit`.
    fn listing(&self, limit: usize) -> (r: Vec<usize>)
        requires
            forall|x: usize| self.leaders().contains(x) ==> x <= limit,
        ensures
            lists(r@, self.leaders()),
            r@ == listed(self.leaders()),
    {
        let mut order: Vec<usize> = Vec::new();
        let mut l: usize = 0;
        while l < limit
            invariant
                l <= limit,
                increasing(order@),
                forall|j: int| 0 <= j < order.len() ==> order[j] < l,
                forall|x: usize| order@.contains(x) <==> x < l && self.leaders().contains(x),
            decreases limit - l,
        {
            if self.possible_edges.contains(&l) {
                let ghost before = order@;
                order.push(l);
                proof {
                    lemma_pushed(before, l);
                }
            }
            l += 1;
        }
        if self.possible_edges.contains(&limit) {
            let ghost before = order@;
            order.push(limit);
            proof {
                lemma_pushed(before, limit);
            }
        }
        proof {
            assert(lists(order@, self.leaders()));
            lemma_increasing_unique(order@, listed(self.leaders()));
        }
        order
    }

    /// The offset recorded for the instruction at `pc`.
    fn edge_of(&self, pc: usize) -> (r: Option<i32>)
        ensures
            r == edge_at(self.edges(), pc as int),
    {
        match self.edges.get(&pc) {
            Some(offset) => Some(*offset),
            None => None,
        }
    }

    fn get_offsettarget(&self, order: &Vec<usize>, post: usize, offset: i32) -> (r: Target)
        requires
            increasing(order@),
        ensures
            r == target_to(order@, post + offset, offset),
    {
        let dest: usize = if offset >= 0 {
            if post > usize::MAX - offset as usize {
                return Target::Undefined(offset);
            }
            post + offset as usize
        } else {
            let back: usize = (-(offset as i64)) as usize;
            if back > post {
                return Target::Undefined(offset);
            }
            post - back
        };
        if order.len() == 0 {
            return Target::Undefined(offset);
        }
        let mut b: usize = 0;
        while b < order.len() - 1 && b <= 0xffff_ffff
            invariant
                increasing(order@),
                b < order.len(),
                dest == post + offset,
                forall|j: int| 0 <= j < b ==> !starts_at(order@, j, dest as int),
            decreases order.len() - b,
        {
            if order[b] == dest {
                assert(starts_at(order@, b as int, dest as int));
                let ghost chosen = choose|j: int| starts_at(order@, j, dest as int);
                assert(chosen == b) by {
                    if chosen < b {
                        assert(order@[chosen] < order@[b as int]);
                    } else if chosen > b {
                        assert(order@[b as int] < order@[chosen]);
                    }
                }
                return Target::Label(b as u32);
            }
            b += 1;
        }
        Target::Undefined(offset)
    }

    fn split_at_edges(&self, limit: usize) -> (r: Vec<Block>)
        requires
            forall|x: usize| self.leaders().contains(x) ==> x <= limit,
        ensures
            lists(listed(self.leaders()), self.leaders()),
            cut_by(r@, listed(self.leaders()), self.edges()),
    {
        let order = self.listing(limit);
        let mut list: Vec<Block> = Vec::new();
        let mut i: usize = 1;
        while i < order.len()
            invariant
                1 <= i,
                increasing(order@),
                order.len() > 0 ==> i <= order.len(),
                order.len() > 0 ==> list.len() == i - 1,
                order.len() == 0 ==> list.len() == 0,
                forall|k: int|
                    0 <= k < list.len() ==> (#[trigger] list[k]).code@ == places(
                        order[k] as int,
                        order[k + 1] as int,
                    ) && list[k].target == target_of(order@, self.edges(), k),
            decreases order.len() - i,
        {
            let prev = order[i - 1];
            let post = order[i];
            assert(prev < post) by {
                assert(order@[i - 1] < order@[i as int]);
            }
            let offset = match self.edge_of(post - 1) {
                Some(o) => o,
                None => 0,
            };
            let mut code: Vec<usize> = Vec::new();
            let mut at: usize = prev;
            while at < post
                invariant
                    prev <= at <= post,
                    code@ == places(prev as int, at as int),
                decreases post - at,
            {
                code.push(at);
                assert(code@ =~= places(prev as int, at + 1));
                at += 1;
            }
            let target = self.get_offsettarget(&order, post, offset);
            let ghost before = list@;
            list.push(Block { code, target });
            assert forall|k: int| 0 <= k < list.len() implies (#[trigger] list[k]).code@ == places(
                order[k] as int,
                order[k + 1] as int,
            ) && list[k].target == target_of(order@, self.edges(), k) by {
                if k < before.len() {
                    assert(list[k] == before[k]);
                }
            }
            i += 1;
        }
        list
    }
}

/// An offset put under a place is found there, and the others are found
/// as before.
proof fn lemma_edge_at_insert(edges: Map<usize, i32>, pc: usize, offset: i32)
    ensures
        forall|p: int|
            edge_at(edges.insert(pc, offset), p) == if p == pc {
                Some(offset)
            } else {
                edge_at(edges, p)
            },
{
}

/// A list in growing order of numbers below `l`, with `l` at its end, is
/// in growing order and holds `l` besides what it held.
proof fn lemma_pushed(before: Seq<usize>, l: usize)
    requires
        increasing(before),
        forall|j: int| 0 <= j < before.len() ==> before[j] < l,
    ensures
        increasing(before.push(l)),
        forall|x: usize| before.push(l).contains(x) <==> before.contains(x) || x == l,
{
    let after = before.push(l);
    assert forall|x: usize| after.contains(x) <==> before.contains(x) || x == l by {
        if after.contains(x) {
            let k = choose|k: int| 0 <= k < after.len() && after[k] == x;
            if k < before.len() {
                assert(before[k] == x);
            }
        }
        if before.contains(x) {
            let k = choose|k: int| 0 <= k < before.len() && before[k] == x;
            assert(after[k] == x);
        }
        if x == l {
            assert(after[before.len() as int] == x);
        }
    }
}

proof fn lemma_made_leader_step(code: Seq<Instruction>, pc: int, l: int)
    requires
        0 <= pc < code.len(),
    ensures
        made_leader(code, pc + 1, l) <==> made_leader(code, pc, l) || leader_by(code[pc].1, pc, l),
{
    if made_leader(code, pc + 1, l) {
        let w = choose|w: int|
            0 <= w < pc + 1 && w < code.len() && leader_by(#[trigger] code[w].1, w, l);
        if w < pc {
            assert(leader_by(code[w].1, w, l));
        }
    }
    if made_leader(code, pc, l) {
        let w = choose|w: int| 0 <= w < pc && w < code.len() && leader_by(#[trigger] code[w].1, w, l);
        assert(leader_by(code[w].1, w, l));
    }
    if leader_by(code[pc].1, pc, l) {
        assert(0 <= pc < pc + 1);
    }
}

/// The list `l` holds the leaders of `code`, and these only, in growing
/// order.
pub open spec fn lists_leaders(l: Seq<usize>, code: Seq<Instruction>) -> bool {
    increasing(l) && forall|x: usize| l.contains(x) <==> is_leader(code, x as int)
}

/// The leaders of `code` in growing order.
pub open spec fn leaders_of(code: Seq<Instruction>) -> Seq<usize> {
    choose|l: Seq<usize>| lists_leaders(l, code)
}

/// The blocks of `code`, each as the places of its instructions: one from
/// each leader to the next.
pub open spec fn blocks_of(code: Seq<Instruction>) -> Seq<Seq<usize>> {
    let l = leaders_of(code);
    Seq::new(
        if l.len() == 0 {
            0
        } else {
            (l.len() - 1) as nat
        },
        |i: int| places(l[i] as int, l[i + 1] as int),
    )
}

/// Two lists in growing order that hold the same numbers are one list.
pub proof fn lemma_increasing_unique(a: Seq<usize>, b: Seq<usize>)
    requires
        increasing(a),
        increasing(b),
        forall|x: usize| a.contains(x) <==> b.contains(x),
    ensures
        a == b,
    decreases a.len(),
{
    if a.len() == 0 {
        if b.len() > 0 {
            assert(b.contains(b[0]));
        }
        assert(a =~= b);
    } else {
        assert(a.contains(a.last()));
        let ib = choose|i: int| 0 <= i < b.len() && b[i] == a.last();
        assert(b.contains(b.last()));
        let ia = choose|i: int| 0 <= i < a.len() && a[i] == b.last();
        assert(a.last() == b.last()) by {
            if ib < b.len() - 1 {
                assert(b[ib] < b[b.len() - 1]);
            }
            if ia < a.len() - 1 {
                assert(a[ia] < a[a.len() - 1]);
            }
        }
        let a2 = a.drop_last();
        let b2 = b.drop_last();
        assert forall|x: usize| a2.contains(x) <==> b2.contains(x) by {
            if a2.contains(x) {
                let i = choose|i: int| 0 <= i < a2.len() && a2[i] == x;
                assert(a[i] == x && a[i] < a[a.len() - 1]);
                assert(a.contains(x));
                let j = choose|j: int| 0 <= j < b.len() && b[j] == x;
                assert(j < b.len() - 1);
                assert(b2[j] == x);
            }
            if b2.contains(x) {
                let i = choose|i: int| 0 <= i < b2.len() && b2[i] == x;
                assert(b[i] == x && b[i] < b[b.len() - 1]);
                assert(b.contains(x));
                let j = choose|j: int| 0 <= j < a.len() && a[j] == x;
                assert(j < a.len() - 1);
                assert(a2[j] == x);
            }
        }
        lemma_increasing_unique(a2, b2);
        assert(a =~= a2.push(a.last()));
        assert(b =~= b2.push(b.last()));
    }
}

/// The places of each block.
pub open spec fn block_codes(blocks: Seq<Block>) -> Seq<Seq<usize>> {
    Seq::new(blocks.len(), |i: int| blocks[i].code@)
}

/// The offset by which the instruction at `pc` of `code` leads on, if it
/// leads elsewhere than to the next.
pub open spec fn code_edge(code: Seq<Instruction>, pc: int) -> Option<i32> {
    if 0 <= pc < code.len() {
        edge_by(code[pc].1)
    } else {
        None
    }
}

/// The target of the block `i` of `code`: the label of the block that
/// starts where its last instruction leads from the place after it, if
/// there is one.
pub open spec fn target_in(code: Seq<Instruction>, i: int) -> Target {
    let leaders = leaders_of(code);
    let post = leaders[i + 1] as int;
    let offset = match code_edge(code, post - 1) {
        Some(o) => o,
        None => 0i32,
    };
    target_to(leaders, post + offset, offset)
}

/// The blocks of `code`, as a mapper that starts anew finds them.
pub fn cut(code: &Vec<Instruction>) -> (r: Vec<Block>)
    ensures
        block_codes(r@) == blocks_of(code@),
        forall|i: int| 0 <= i < r.len() ==> (#[trigger] r[i]).target == target_in(code@, i),
{
    let mut flow = Mapper::new();
    let blocks = flow.map(code);
    proof {
        let found = listed(flow.leaders());
        assert forall|x: usize| found.contains(x) <==> is_leader(code@, x as int) by {
            assert(found.contains(x) <==> flow.leaders().contains(x));
        }
        assert(lists_leaders(found, code@));
        let chosen = leaders_of(code@);
        assert(lists_leaders(chosen, code@));
        lemma_increasing_unique(found, chosen);
        assert(block_codes(blocks@) =~= blocks_of(code@));
        assert forall|i: int| 0 <= i < blocks.len() implies (#[trigger] blocks[i]).target
            == target_in(code@, i) by {
            let post = found[i + 1] as int;
            assert(edge_at(flow.edges(), post - 1) == new_edge_at(
                Map::<usize, i32>::empty(),
                code@,
                post - 1,
            ));
            assert(blocks[i].target == target_of(found, flow.edges(), i));
        }
    }
    blocks
}

} // verus!
