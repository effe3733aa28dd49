//! The handler registry: named bindings from handler names to handler
//! implementations, built before expansion runs and read-only afterwards.

use vstd::prelude::*;
use crate::doc::{DocView, Document};

verus! {

/// Why one handler call failed: the argument value did not decode into the
/// handler's expected shape, or the handler itself rejected the decoded
/// argument with an application message.
#[derive(Debug)]
pub enum HandlerFailure {
    Decode(String),
    Failed(String),
}

/// Model of a handler failure.
pub enum HandlerFailureView {
    Decode(Seq<char>),
    Failed(Seq<char>),
}

impl View for HandlerFailure {
    type V = HandlerFailureView;

    open spec fn view(&self) -> HandlerFailureView {
        match self {
            HandlerFailure::Decode(m) => HandlerFailureView::Decode(m@),
            HandlerFailure::Failed(m) => HandlerFailureView::Failed(m@),
        }
    }
}

/// A handler binding's behaviour: it decodes the argument value into its
/// expected shape, computes, and encodes the result as a document. The
/// registry's users implement this trait; `spec_call` names the outcome the
/// implementation must deliver, so everything the engine proves holds for
/// whatever the implementation does, provided it meets its own contract.
pub trait Handler: Sized {
    /// The outcome of calling this handler on an argument value. The
    /// default stands for an implementation about which nothing is claimed;
    /// an implementation that overrides it must prove `call` against it.
    open spec fn spec_call(&self, arg: DocView) -> Result<DocView, HandlerFailureView> {
        Result::Err(HandlerFailureView::Failed(Seq::empty()))
    }

    /// Decodes the argument, runs the handler, encodes its result.
    fn call(&self, arg: &Document) -> (r: Result<Document, HandlerFailure>)
        ensures
            r is Ok <==> self.spec_call(arg@) is Ok,
            r is Ok ==> r->Ok_0@ == self.spec_call(arg@)->Ok_0,
            r is Err ==> r->Err_0@ == self.spec_call(arg@)->Err_0,
    ;
}

/// The error kinds the expansion core produces.
#[derive(Debug)]
pub enum ExpandError {
    /// `register` was handed a name that is already bound.
    DuplicateHandler(String),
    /// An invocation names a handler with no binding.
    UnknownHandler(String),
    /// A located node no longer parses as an invocation.
    MalformedInvocation,
    /// An invocation's argument value did not decode; carries the decode
    /// diagnostic.
    ArgumentDecodeError(String),
    /// A handler rejected its argument; carries the handler's own message.
    HandlerError(String),
}

/// Model of an expansion error.
pub enum ExpandErrorView {
    DuplicateHandler(Seq<char>),
    UnknownHandler(Seq<char>),
    MalformedInvocation,
    ArgumentDecodeError(Seq<char>),
    HandlerError(Seq<char>),
}

impl View for ExpandError {
    type V = ExpandErrorView;

    open spec fn view(&self) -> ExpandErrorView {
        match self {
            ExpandError::DuplicateHandler(n) => ExpandErrorView::DuplicateHandler(n@),
            ExpandError::UnknownHandler(n) => ExpandErrorView::UnknownHandler(n@),
            ExpandError::MalformedInvocation => ExpandErrorView::MalformedInvocation,
            ExpandError::ArgumentDecodeError(m) => ExpandErrorView::ArgumentDecodeError(m@),
            ExpandError::HandlerError(m) => ExpandErrorView::HandlerError(m@),
        }
    }
}

/// Index of the first binding under the name, or the number of bindings
/// when the name is unbound.
pub open spec fn binding_index<H>(bindings: Seq<(Seq<char>, H)>, name: Seq<char>) -> int
    decreases bindings.len(),
{
    if bindings.len() == 0 {
        0
    } else if bindings[0].0 == name {
        0
    } else {
        1 + binding_index(bindings.subrange(1, bindings.len() as int), name)
    }
}

pub proof fn lemma_binding_index<H>(bindings: Seq<(Seq<char>, H)>, name: Seq<char>)
    ensures
        0 <= binding_index(bindings, name) <= bindings.len(),
        binding_index(bindings, name) < bindings.len() ==> bindings[binding_index(
            bindings,
            name,
        )].0 == name,
        forall|j: int|
            0 <= j < binding_index(bindings, name) ==> (#[trigger] bindings[j]).0 != name,
    decreases bindings.len(),
{
    if bindings.len() > 0 && bindings[0].0 != name {
        lemma_binding_index(bindings.subrange(1, bindings.len() as int), name);
        assert forall|j: int| 0 <= j < binding_index(bindings, name) implies (
        #[trigger] bindings[j]).0 != name by {
            if j > 0 {
                assert(bindings.subrange(1, bindings.len() as int)[j - 1] == bindings[j]);
            }
        }
    }
}

/// The handler registry: each name bound at most once.
pub struct Registry<H> {
    pub bindings: Vec<(String, H)>,
}

impl<H: Handler> Registry<H> {
    /// The bound names with their handlers, in registration order.
    pub open spec fn bindings_view(&self) -> Seq<(Seq<char>, H)> {
        self.bindings@.map_values(|b: (String, H)| (b.0@, b.1))
    }

    /// The handler bound under a name, if any.
    pub open spec fn spec_resolve(&self, name: Seq<char>) -> Option<H> {
        let i = binding_index(self.bindings_view(), name);
        if i < self.bindings_view().len() {
            Option::Some(self.bindings_view()[i].1)
        } else {
            Option::None
        }
    }

    /// An empty registry: no name bound.
    pub fn new() -> (r: Registry<H>)
        ensures
            r.bindings@.len() == 0,
            forall|name: Seq<char>| r.spec_resolve(name) is None,
    {
        let r = Registry { bindings: Vec::new() };
        proof {
            assert forall|name: Seq<char>| r.spec_resolve(name) is None by {
                lemma_binding_index(r.bindings_view(), name);
            }
        }
        r
    }

    /// Binds `handler` under `name`. Rejects a name that is already bound,
    /// leaving the registry unchanged.
    #[verifier::loop_isolation(false)]
    pub fn register(&mut self, name: String, handler: H) -> (r: Result<(), ExpandError>)
        ensures
            old(self).spec_resolve(name@) is Some ==> (r matches Result::Err(e) && e@
                == ExpandErrorView::DuplicateHandler(name@) && *final(self) == *old(self)),
            old(self).spec_resolve(name@) is None ==> r is Ok && final(self).bindings@ == old(
                self,
            ).bindings@.push((name, handler)),
    {
        proof {
            lemma_binding_index(self.bindings_view(), name@);
        }
        let n = self.bindings.len();
        for j in 0..n
            invariant
                forall|m: int| 0 <= m < j ==> self.bindings_view()[m].0 != name@,
        {
            if self.bindings[j].0 == name {
                proof {
                    assert(self.bindings_view()[j as int].0 == name@);
                    assert(binding_index(self.bindings_view(), name@) == j as int);
                }
                return Result::Err(ExpandError::DuplicateHandler(name));
            }
            proof {
                assert(self.bindings_view()[j as int].0 != name@);
            }
        }
        proof {
            let idx = binding_index(self.bindings_view(), name@);
            if idx < self.bindings_view().len() {
                assert(self.bindings_view()[idx].0 == name@);
                assert(false);
            }
        }
        self.bindings.push((name, handler));
        Result::Ok(())
    }

    /// The handler bound under `name`, or `None` when the name is unbound.
    #[verifier::loop_isolation(false)]
    pub fn resolve(&self, name: &String) -> (r: Option<&H>)
        ensures
            match r {
                Option::Some(h) => self.spec_resolve(name@) == Option::Some(*h),
                Option::None => self.spec_resolve(name@) is None,
            },
    {
        proof {
            lemma_binding_index(self.bindings_view(), name@);
        }
        let n = self.bindings.len();
        for j in 0..n
            invariant
                forall|m: int| 0 <= m < j ==> self.bindings_view()[m].0 != name@,
        {
            if self.bindings[j].0 == *name {
                proof {
                    assert(self.bindings_view()[j as int].0 == name@);
                    assert(binding_index(self.bindings_view(), name@) == j as int);
                }
                return Option::Some(&self.bindings[j].1);
            }
            proof {
                assert(self.bindings_view()[j as int].0 != name@);
            }
        }
        proof {
            let idx = binding_index(self.bindings_view(), name@);
            if idx < self.bindings_view().len() {
                assert(self.bindings_view()[idx].0 == name@);
                assert(false);
            }
        }
        Option::None
    }
}

} // verus!
