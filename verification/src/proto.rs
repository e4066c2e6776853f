//! Prototypes, the compiled form of functions, with their constants and
//! their debug information.

use vstd::prelude::*;
use crate::instruction::{Instruction, advanced, lemma_numbers_distinct, unnumbered_code};
use crate::number::{number_eq, numbers_equal};

verus! {

/// The sizes that a chunk's header declares: of an integer, of a length, of
/// an instruction and of a number, in bytes.
pub type Header = (u8, u8, u8, u8);

/// A constant of a prototype's pool. A number is held as the bits of its
/// double.
#[derive(Debug)]
pub enum Constants {
    Nil,
    Boolean(bool),
    Number(u64),
    String(String),
}

/// What a constant is: a number by its bits, a string by its characters.
pub enum ConstantsView {
    Nil,
    Boolean(bool),
    Number(u64),
    String(Seq<char>),
}

impl View for Constants {
    type V = ConstantsView;

    open spec fn view(&self) -> ConstantsView {
        match self {
            Constants::Nil => ConstantsView::Nil,
            Constants::Boolean(b) => ConstantsView::Boolean(*b),
            Constants::Number(n) => ConstantsView::Number(*n),
            Constants::String(s) => ConstantsView::String(s@),
        }
    }
}

impl ConstantsView {
    /// Two constants are the same value: numbers as doubles compare, so
    /// that the two zeros are one value and what is not a number equals
    /// nothing; the others by what they hold.
    pub open spec fn same(self, other: ConstantsView) -> bool {
        match (self, other) {
            (ConstantsView::Nil, ConstantsView::Nil) => true,
            (ConstantsView::Boolean(a), ConstantsView::Boolean(b)) => a == b,
            (ConstantsView::Number(a), ConstantsView::Number(b)) => number_eq(a, b),
            (ConstantsView::String(a), ConstantsView::String(b)) => a == b,
            _ => false,
        }
    }
}

impl Constants {
    /// Whether `self` and `other` are the same value.
    pub fn equals(&self, other: &Constants) -> (r: bool)
        ensures
            r == self@.same(other@),
    {
        match (self, other) {
            (Constants::Nil, Constants::Nil) => true,
            (Constants::Boolean(a), Constants::Boolean(b)) => *a == *b,
            (Constants::Number(a), Constants::Number(b)) => numbers_equal(*a, *b),
            (Constants::String(a), Constants::String(b)) => *a == *b,
            _ => false,
        }
    }
}

impl PartialEq for Constants {
    fn eq(&self, other: &Constants) -> (r: bool) {
        self.equals(other)
    }
}

impl vstd::std_specs::cmp::PartialEqSpecImpl for Constants {
    open spec fn obeys_eq_spec() -> bool {
        true
    }

    open spec fn eq_spec(&self, other: &Constants) -> bool {
        self@.same(other@)
    }
}

impl Clone for Constants {
    fn clone(&self) -> (r: Self)
        ensures
            r@ == self@,
    {
        match self {
            Constants::Nil => Constants::Nil,
            Constants::Boolean(b) => Constants::Boolean(*b),
            Constants::Number(n) => Constants::Number(*n),
            Constants::String(s) => Constants::String(s.clone()),
        }
    }
}

/// A local variable of the debug information: its name and the range of
/// instructions over which it lives.
#[derive(Debug)]
pub struct Local(pub String, pub u32, pub u32);

pub struct LocalView {
    pub name: Seq<char>,
    pub start: u32,
    pub end: u32,
}

impl View for Local {
    type V = LocalView;

    open spec fn view(&self) -> LocalView {
        LocalView { name: self.0@, start: self.1, end: self.2 }
    }
}

impl Clone for Local {
    fn clone(&self) -> (r: Self)
        ensures
            r@ == self@,
    {
        Local(self.0.clone(), self.1, self.2)
    }
}

/// A function as compiled: its code, its constants, the functions nested in
/// it, and what the compiler recorded about it.
#[derive(Debug)]
pub struct Proto {
    pub source: String,
    pub line_defined: u32,
    pub last_line_defined: u32,
    pub nupvals: u8,
    pub nparams: u8,
    pub is_vararg_flag: u8,
    pub max_stack_size: u8,
    pub instructions: Vec<Instruction>,
    pub constants: Vec<Constants>,
    pub prototypes: Vec<Proto>,
    pub source_lines: Option<Vec<u32>>,
    pub locals: Option<Vec<Local>>,
    pub upvals: Option<Vec<String>>,
}

/// What is written of a prototype. The numbers of its instructions are
/// not written: in the view each instruction stands without its number.
pub struct ProtoView {
    pub source: Seq<char>,
    pub line_defined: u32,
    pub last_line_defined: u32,
    pub nupvals: u8,
    pub nparams: u8,
    pub is_vararg_flag: u8,
    pub max_stack_size: u8,
    pub instructions: Seq<Instruction>,
    pub constants: Seq<ConstantsView>,
    pub prototypes: Seq<ProtoView>,
    pub source_lines: Option<Seq<u32>>,
    pub locals: Option<Seq<LocalView>>,
    pub upvals: Option<Seq<Seq<char>>>,
}

/// The values of a pool of constants, in order.
pub open spec fn constants_view(v: Seq<Constants>) -> Seq<ConstantsView> {
    Seq::new(v.len(), |i: int| v[i]@)
}

pub open spec fn locals_view(v: Seq<Local>) -> Seq<LocalView> {
    Seq::new(v.len(), |i: int| v[i]@)
}

pub open spec fn strings_view(v: Seq<String>) -> Seq<Seq<char>> {
    Seq::new(v.len(), |i: int| v[i]@)
}

/// The views of the first `n` of the prototypes `v`.
pub open spec fn prototypes_view(v: Seq<Proto>, n: nat) -> Seq<ProtoView>
    decreases v, n,
{
    if n == 0 || n > v.len() {
        Seq::empty()
    } else {
        prototypes_view(v, (n - 1) as nat).push(v[n - 1]@)
    }
}

impl View for Proto {
    type V = ProtoView;

    open spec fn view(&self) -> ProtoView
        decreases self,
    {
        ProtoView {
            source: self.source@,
            line_defined: self.line_defined,
            last_line_defined: self.last_line_defined,
            nupvals: self.nupvals,
            nparams: self.nparams,
            is_vararg_flag: self.is_vararg_flag,
            max_stack_size: self.max_stack_size,
            instructions: unnumbered_code(self.instructions@),
            constants: constants_view(self.constants@),
            prototypes: prototypes_view(self.prototypes@, self.prototypes@.len()),
            source_lines: match self.source_lines {
                Some(v) => Some(v@),
                None => None,
            },
            locals: match self.locals {
                Some(v) => Some(locals_view(v@)),
                None => None,
            },
            upvals: match self.upvals {
                Some(v) => Some(strings_view(v@)),
                None => None,
            },
        }
    }
}

/// The views of the first `n` prototypes are `n` views, each of the
/// prototype at its place.
pub proof fn lemma_prototypes_view(v: Seq<Proto>, n: nat)
    requires
        n <= v.len(),
    ensures
        prototypes_view(v, n).len() == n,
        forall|i: int| 0 <= i < n ==> (#[trigger] prototypes_view(v, n)[i]) == v[i]@,
    decreases n,
{
    if n > 0 {
        lemma_prototypes_view(v, (n - 1) as nat);
        assert(prototypes_view(v, n) == prototypes_view(v, (n - 1) as nat).push(v[n - 1]@));
    }
}

/// The count of the instructions of `p` and of all that is nested in it.
pub open spec fn count_of(p: Proto) -> nat
    decreases p,
{
    p.instructions@.len() + count_all(p.prototypes@, p.prototypes@.len())
}

/// The count of the instructions of the first `n` of the prototypes `v`
/// and of all that is nested in them.
pub open spec fn count_all(v: Seq<Proto>, n: nat) -> nat
    decreases v, n,
{
    if n == 0 || n > v.len() {
        0
    } else {
        count_all(v, (n - 1) as nat) + count_of(v[n - 1])
    }
}

/// The numbers of the instructions `code` are those issued from `first`
/// on, in the order of the instructions.
pub open spec fn numbered_from(code: Seq<Instruction>, first: usize) -> bool {
    forall|j: int| 0 <= j < code.len() ==> (#[trigger] code[j]).3 == advanced(first, j as nat)
}

/// Instructions that were numbered in their order carry distinct numbers.
pub proof fn lemma_numbered_distinct(code: Seq<Instruction>, first: usize, i: int, j: int)
    requires
        numbered_from(code, first),
        0 <= i < j < code.len() <= usize::MAX + 1,
    ensures
        code[i].3 != code[j].3,
{
    lemma_numbers_distinct(first, i as nat, j as nat);
}

/// The instructions of `p` and of all that is nested in it carry the
/// numbers issued from `first` on in the order in which a chunk is read:
/// the code of a prototype, then the prototypes nested in it, one after
/// the other.
pub open spec fn numbered_as_read(p: Proto, first: usize) -> bool
    decreases p,
{
    numbered_from(p.instructions@, first) && all_numbered_as_read(
        p.prototypes@,
        p.prototypes@.len(),
        advanced(first, p.instructions@.len()),
    )
}

/// The first `n` of the prototypes `v` carry the numbers issued from
/// `first` on in the order in which a chunk is read.
pub open spec fn all_numbered_as_read(v: Seq<Proto>, n: nat, first: usize) -> bool
    decreases v, n,
{
    if n == 0 || n > v.len() {
        true
    } else {
        all_numbered_as_read(v, (n - 1) as nat, first) && numbered_as_read(
            v[n - 1],
            advanced(first, count_all(v, (n - 1) as nat)),
        )
    }
}

/// What is said of the first `n` prototypes of a list holds of the first
/// `n` of any list that starts with them.
pub proof fn lemma_first_prototypes(a: Seq<Proto>, b: Seq<Proto>, n: nat, first: usize)
    requires
        n <= a.len(),
        n <= b.len(),
        forall|j: int| 0 <= j < n ==> a[j] == b[j],
    ensures
        count_all(a, n) == count_all(b, n),
        all_numbered_as_read(a, n, first) == all_numbered_as_read(b, n, first),
    decreases n,
{
    if n > 0 {
        lemma_first_prototypes(a, b, (n - 1) as nat, first);
    }
}

impl Proto {
    /// An empty function that takes a variable number of arguments.
    pub fn default() -> (r: Self)
        ensures
            r.instructions.len() == 0,
            r.constants.len() == 0,
            r.prototypes.len() == 0,
            r@ == (ProtoView {
                source: "@default.lua"@,
                line_defined: 0,
                last_line_defined: 0,
                nupvals: 0,
                nparams: 0,
                is_vararg_flag: 2,
                max_stack_size: 2,
                instructions: Seq::empty(),
                constants: Seq::empty(),
                prototypes: Seq::empty(),
                source_lines: Some(Seq::empty()),
                locals: Some(Seq::empty()),
                upvals: Some(Seq::empty()),
            }),
    {
        let r = Self {
            source: "@default.lua".to_owned(),
            line_defined: 0,
            last_line_defined: 0,
            nupvals: 0,
            nparams: 0,
            is_vararg_flag: 2,
            max_stack_size: 2,
            instructions: Vec::new(),
            constants: Vec::new(),
            prototypes: Vec::new(),
            source_lines: Some(Vec::new()),
            locals: Some(Vec::new()),
            upvals: Some(Vec::new()),
        };
        assert(r@.instructions =~= Seq::empty());
        assert(r@.constants =~= Seq::empty());
        assert(r@.prototypes =~= Seq::empty());
        assert(r@.locals->0 =~= Seq::empty());
        assert(r@.upvals->0 =~= Seq::empty());
        r
    }
}

/// A copy of the constants `v`.
pub fn copy_constants(v: &Vec<Constants>) -> (r: Vec<Constants>)
    ensures
        r.len() == v.len(),
        constants_view(r@) == constants_view(v@),
{
    let mut list: Vec<Constants> = Vec::new();
    let mut i: usize = 0;
    while i < v.len()
        invariant
            i <= v.len(),
            list.len() == i,
            forall|j: int| 0 <= j < i ==> (#[trigger] list[j])@ == v[j]@,
        decreases v.len() - i,
    {
        list.push(v[i].clone());
        i += 1;
    }
    assert(constants_view(list@) =~= constants_view(v@));
    list
}

/// A copy of the instructions `v`.
pub fn copy_instructions(v: &Vec<Instruction>) -> (r: Vec<Instruction>)
    ensures
        r@ == v@,
{
    let mut list: Vec<Instruction> = Vec::new();
    let mut i: usize = 0;
    while i < v.len()
        invariant
            i <= v.len(),
            list@ == v@.subrange(0, i as int),
        decreases v.len() - i,
    {
        list.push(v[i]);
        assert(list@ =~= v@.subrange(0, i + 1));
        i += 1;
    }
    assert(v@.subrange(0, v.len() as int) =~= v@);
    list
}

/// A copy of the strings `v`.
fn copy_strings(v: &Vec<String>) -> (r: Vec<String>)
    ensures
        strings_view(r@) == strings_view(v@),
{
    let mut list: Vec<String> = Vec::new();
    let mut i: usize = 0;
    while i < v.len()
        invariant
            i <= v.len(),
            list.len() == i,
            forall|j: int| 0 <= j < i ==> (#[trigger] list[j])@ == v[j]@,
        decreases v.len() - i,
    {
        list.push(v[i].clone());
        i += 1;
    }
    assert(strings_view(list@) =~= strings_view(v@));
    list
}

/// A copy of the local variables `v`.
fn copy_locals(v: &Vec<Local>) -> (r: Vec<Local>)
    ensures
        locals_view(r@) == locals_view(v@),
{
    let mut list: Vec<Local> = Vec::new();
    let mut i: usize = 0;
    while i < v.len()
        invariant
            i <= v.len(),
            list.len() == i,
            forall|j: int| 0 <= j < i ==> (#[trigger] list[j])@ == v[j]@,
        decreases v.len() - i,
    {
        list.push(v[i].clone());
        i += 1;
    }
    assert(locals_view(list@) =~= locals_view(v@));
    list
}

/// A copy of the numbers `v`.
fn copy_lines(v: &Vec<u32>) -> (r: Vec<u32>)
    ensures
        r@ == v@,
{
    let mut list: Vec<u32> = Vec::new();
    let mut i: usize = 0;
    while i < v.len()
        invariant
            i <= v.len(),
            list@ == v@.subrange(0, i as int),
        decreases v.len() - i,
    {
        list.push(v[i]);
        assert(list@ =~= v@.subrange(0, i + 1));
        i += 1;
    }
    assert(v@.subrange(0, v.len() as int) =~= v@);
    list
}

impl Clone for Proto {
    fn clone(&self) -> (r: Self)
        ensures
            r@ == self@,
        decreases self,
    {
        let mut prototypes: Vec<Proto> = Vec::new();
        let mut i: usize = 0;
        while i < self.prototypes.len()
            invariant
                i <= self.prototypes.len(),
                prototypes.len() == i,
                forall|j: int| 0 <= j < i ==> (#[trigger] prototypes[j])@ == self.prototypes[j]@,
            decreases self.prototypes.len() - i,
        {
            prototypes.push(self.prototypes[i].clone());
            i += 1;
        }
        proof {
            lemma_prototypes_view(prototypes@, prototypes@.len());
            lemma_prototypes_view(self.prototypes@, self.prototypes@.len());
            assert(prototypes_view(prototypes@, prototypes@.len()) =~= prototypes_view(
                self.prototypes@,
                self.prototypes@.len(),
            ));
        }
        Proto {
            source: self.source.clone(),
            line_defined: self.line_defined,
            last_line_defined: self.last_line_defined,
            nupvals: self.nupvals,
            nparams: self.nparams,
            is_vararg_flag: self.is_vararg_flag,
            max_stack_size: self.max_stack_size,
            instructions: copy_instructions(&self.instructions),
            constants: copy_constants(&self.constants),
            prototypes,
            source_lines: match &self.source_lines {
                Some(v) => Some(copy_lines(v)),
                None => None,
            },
            locals: match &self.locals {
                Some(v) => Some(copy_locals(v)),
                None => None,
            },
            upvals: match &self.upvals {
                Some(v) => Some(copy_strings(v)),
                None => None,
            },
        }
    }
}

} // verus!
