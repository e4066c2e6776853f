//! One run of the obfuscator on a chunk.

use vstd::prelude::*;
use crate::context::Context;
use crate::deserialize::{deserialize_bytecode, read_bytecode};
use crate::error::Error;
use crate::flatten::{
    flatten, flattened, all_numbered_as_flattened, numbered_as_laid, lemma_first_flattened,
};
use crate::instruction::{Ids, advanced, lemma_advanced_on};
use crate::options::Options;
use crate::proto::{
    Proto, ProtoView, prototypes_view, lemma_prototypes_view, count_of, count_all,
    numbered_as_read, lemma_first_prototypes,
};

verus! {

/// The main prototypes of the first `n` of the chunks `compiled`, or
/// nothing where one of them is no chunk.
pub open spec fn read_all(compiled: Seq<Seq<u8>>, n: nat) -> Option<Seq<ProtoView>>
    decreases n,
{
    if n == 0 || n > compiled.len() {
        Some(Seq::empty())
    } else {
        match read_all(compiled, (n - 1) as nat) {
            None => None,
            Some(before) => match read_bytecode(compiled[n - 1]) {
                None => None,
                Some((_, p)) => Some(before.push(p)),
            },
        }
    }
}

/// The bytes of each chunk.
pub open spec fn chunks_view(compiled: Seq<Vec<u8>>) -> Seq<Seq<u8>> {
    Seq::new(compiled.len(), |i: int| compiled[i]@)
}

/// What obfuscating the prototype `chunk` gives under `options`, with the
/// chunks `compiled` to add: nothing where the control flow is not to
/// be flattened; else the flattened prototype, with the main prototypes of
/// the chunks added after its own nested prototypes.
pub open spec fn obfuscated(
    chunk: ProtoView,
    options: Options,
    names: nat,
    compiled: Seq<Seq<u8>>,
) -> Result<Option<ProtoView>, Error> {
    if !options.flatten_control_flow {
        Ok(None)
    } else {
        match flattened(chunk, options.target_vm.config().max_stack_size) {
            Err(e) => Err(e),
            Ok(v) => if names != compiled.len() {
                Err(Error::FormatError)
            } else {
                match read_all(compiled, compiled.len()) {
                    None => Err(Error::FormatError),
                    Some(more) => Ok(Some(ProtoView { prototypes: v.prototypes + more, ..v })),
                }
            },
        }
    }
}

/// The instructions of the result `p` of a run, to which `added`
/// prototypes were added, carry the numbers issued from `first` on in the
/// order of their making: first the flattened prototype, with all that is
/// nested in it; then the prototypes that were added, each as it was read.
pub open spec fn numbered_as_obfuscated(p: Proto, added: nat, first: usize) -> bool {
    let own = (p.prototypes@.len() - added) as nat;
    &&& added <= p.prototypes@.len()
    &&& all_numbered_as_flattened(p.prototypes@, own, first)
    &&& numbered_as_laid(p.instructions@, advanced(first, count_all(p.prototypes@, own)))
    &&& forall|k: int|
        own <= k < p.prototypes@.len() ==> numbered_as_read(
            #[trigger] p.prototypes@[k],
            advanced(first, count_all(p.prototypes@, k as nat) + p.instructions@.len()),
        )
}

/// One run of the obfuscator: the options, the names of the chunks to
/// add, and the result once there is one.
pub struct Obfuscate {
    ctx: Option<Context>,
    options: Options,
    includes: Vec<String>,
}

impl Obfuscate {
    /// The result of the run.
    pub closed spec fn result(&self) -> Option<Context> {
        self.ctx
    }

    pub closed spec fn options(&self) -> Options {
        self.options
    }

    /// The names of the chunks to add, in the order in which they were
    /// given.
    pub closed spec fn names(&self) -> Seq<String> {
        self.includes@
    }

    pub fn new(options: Options) -> (r: Self)
        ensures
            r.result() is None,
            r.options() == options,
            r.names() == Seq::<String>::empty(),
    {
        Self { ctx: None, options, includes: Vec::new() }
    }

    /// Asks for the main prototype of the chunk named `file` to be added.
    pub fn add_include(&mut self, file: &str)
        ensures
            final(self).result() == old(self).result(),
            final(self).options() == old(self).options(),
            final(self).names().len() == old(self).names().len() + 1,
            final(self).names().drop_last() == old(self).names(),
            final(self).names().last()@ == file@,
    {
        self.includes.push(file.to_owned());
        assert(self.includes@.drop_last() =~= old(self).includes@);
    }

    /// The names of the chunks to add.
    pub fn included(&self) -> (r: &Vec<String>)
        ensures
            r@ == self.names(),
    {
        &self.includes
    }

    /// Obfuscates the prototype of `ctx`. `compiled` holds the chunk of
    /// each name that was given to `add_include`, in their order. The
    /// instructions of the result are made under numbers of `ids`. On an
    /// error the run has no result.
    pub fn obfuscate(&mut self, ctx: Context, compiled: &Vec<Vec<u8>>, ids: &mut Ids) -> (r: Result<
        (),
        Error,
    >)
        ensures
            final(self).options() == old(self).options(),
            final(self).names() == old(self).names(),
            match obfuscated(
                ctx.chunk@,
                old(self).options(),
                old(self).names().len(),
                chunks_view(compiled@),
            ) {
                Err(e) => r == Err::<(), Error>(e) && final(self).result() is None,
                Ok(None) => r is Ok && final(self).result() is None,
                Ok(Some(v)) => {
                    &&& r is Ok
                    &&& final(self).result() is Some
                    &&& final(self).result()->0.wf()
                    &&& final(self).result()->0.header == ctx.header
                    &&& final(self).result()->0.chunk@ == v
                    &&& numbered_as_obfuscated(
                        final(self).result()->0.chunk,
                        compiled@.len(),
                        old(ids).next(),
                    )
                    &&& final(ids).next() == advanced(
                        old(ids).next(),
                        count_of(final(self).result()->0.chunk),
                    )
                },
            },
    {
        let ghost first = ids.next();
        self.ctx = None;
        if !self.options.flatten_control_flow {
            return Ok(());
        }
        let mut flat = flatten(&ctx, &ctx.chunk, &self.options, ids)?;
        if self.includes.len() != compiled.len() {
            return Err(Error::FormatError);
        }
        let ghost own = flat.chunk@.prototypes;
        let ghost bytes = chunks_view(compiled@);
        let ghost start = flat;
        let ghost kept = flat.chunk.prototypes@.len();
        let mut i: usize = 0;
        proof {
            lemma_prototypes_view(flat.chunk.prototypes@, flat.chunk.prototypes@.len());
            assert(own + Seq::<ProtoView>::empty() =~= own);
        }
        while i < compiled.len()
            invariant
                i <= compiled.len(),
                bytes == chunks_view(compiled@),
                self.options() == old(self).options(),
                self.names() == old(self).names(),
                self.result() is None,
                self.options().flatten_control_flow,
                self.names().len() == compiled.len(),
                flattened(ctx.chunk@, self.options().target_vm.config().max_stack_size)
                    == Ok::<ProtoView, Error>(start.chunk@),
                own == start.chunk@.prototypes,
                start.header == ctx.header,
                flat.wf(),
                flat.header == start.header,
                flat.code() == start.code(),
                flat.pool() == start.pool(),
                flat.chunk.source == start.chunk.source,
                flat.chunk.line_defined == start.chunk.line_defined,
                flat.chunk.last_line_defined == start.chunk.last_line_defined,
                flat.chunk.nupvals == start.chunk.nupvals,
                flat.chunk.nparams == start.chunk.nparams,
                flat.chunk.is_vararg_flag == start.chunk.is_vararg_flag,
                flat.chunk.max_stack_size == start.chunk.max_stack_size,
                flat.chunk.source_lines == start.chunk.source_lines,
                flat.chunk.locals == start.chunk.locals,
                flat.chunk.upvals == start.chunk.upvals,
                read_all(bytes, i as nat) matches Some(more) && prototypes_view(
                    flat.chunk.prototypes@,
                    flat.chunk.prototypes@.len(),
                ) == own + more,
                flat.chunk.prototypes@.len() == kept + i,
                numbered_as_obfuscated(flat.chunk, i as nat, first),
                ids.next() == advanced(first, count_of(flat.chunk)),
            decreases compiled.len() - i,
        {
            let ghost before = flat.chunk.prototypes@;
            let ghost more = read_all(bytes, i as nat)->0;
            match deserialize_bytecode(compiled[i].as_slice(), ids) {
                Ok((_, proto)) => {
                    let ghost prior = flat;
                    let ghost added = proto@;
                    flat.chunk.prototypes.push(proto);
                    proof {
                        assert(flat.code() == prior.code());
                        assert(flat.refs() == prior.refs());
                        assert(flat.pool() == prior.pool());
                        let now = flat.chunk.prototypes@;
                        let length = flat.chunk.instructions@.len();
                        lemma_first_flattened(before, now, kept as nat, first);
                        lemma_first_prototypes(before, now, kept as nat, first);
                        lemma_first_prototypes(before, now, before.len(), first);
                        lemma_advanced_on(first, count_of(prior.chunk), count_of(now[kept + i]));
                        assert forall|k: int| kept <= k < now.len() implies numbered_as_read(
                            #[trigger] now[k],
                            advanced(first, count_all(now, k as nat) + length),
                        ) by {
                            lemma_first_prototypes(before, now, k as nat, first);
                            if k < before.len() {
                                assert(now[k] == before[k]);
                            }
                        }
                        lemma_prototypes_view(before, before.len());
                        lemma_prototypes_view(now, now.len());
                        assert(prototypes_view(now, now.len()) =~= (own + more).push(added));
                        assert((own + more).push(added) =~= own + more.push(added));
                    }
                },
                Err(e) => {
                    proof {
                        lemma_read_all_none(bytes, (i + 1) as nat, bytes.len());
                    }
                    return Err(e);
                },
            }
            i += 1;
        }
        proof {
            let more = read_all(bytes, bytes.len())->0;
            assert(flat.chunk@ == (ProtoView { prototypes: own + more, ..start.chunk@ }));
        }
        self.ctx = Some(flat);
        Ok(())
    }

    /// The result of the run.
    pub fn get(self) -> (r: Option<Context>)
        ensures
            r == self.result(),
    {
        self.ctx
    }
}

/// Where the first `n` chunks cannot all be read, no more can.
proof fn lemma_read_all_none(compiled: Seq<Seq<u8>>, n: nat, m: nat)
    requires
        n <= m <= compiled.len(),
        read_all(compiled, n) is None,
    ensures
        read_all(compiled, m) is None,
    decreases m,
{
    if n < m {
        lemma_read_all_none(compiled, n, (m - 1) as nat);
    }
}

} // verus!
