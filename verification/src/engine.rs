//! Substitution and the expansion driver: for each discovered location, in
//! discovery order, read the invocation from the argument snapshot, resolve
//! and call its handler, and write the result into the live document,
//! stopping at the first failure.

use vstd::prelude::*;
use crate::doc::{DocView, Document};
use crate::invoke::{invocation_name, is_invocation, parse_macro_call};
use crate::locate::{doc_locs, find_macro_invocations, locs_of};
use crate::path::{doc_get, doc_set, get_at, with_set, SegView};
use crate::registry::{ExpandError, ExpandErrorView, Handler, HandlerFailure,
    HandlerFailureView, Registry};

verus! {

/// The snapshot-side outcome for one location: the node is read from the
/// snapshot and parsed, its handler resolved and called. Only the snapshot,
/// the registry and the location decide this outcome; the live document
/// plays no part, which is what makes the snapshot isolate arguments.
pub open spec fn eval_loc<H: Handler>(
    snap: DocView,
    reg: Registry<H>,
    loc: Seq<SegView>,
) -> Result<DocView, ExpandErrorView> {
    match doc_get(snap, loc) {
        Option::None => Result::Err(ExpandErrorView::MalformedInvocation),
        Option::Some(node) => if !is_invocation(node) {
            Result::Err(ExpandErrorView::MalformedInvocation)
        } else {
            match reg.spec_resolve(invocation_name(node->Obj_0[0].0)) {
                Option::None => Result::Err(
                    ExpandErrorView::UnknownHandler(invocation_name(node->Obj_0[0].0)),
                ),
                Option::Some(h) => match h.spec_call(node->Obj_0[0].1) {
                    Result::Ok(v) => Result::Ok(v),
                    Result::Err(HandlerFailureView::Decode(m)) => Result::Err(
                        ExpandErrorView::ArgumentDecodeError(m),
                    ),
                    Result::Err(HandlerFailureView::Failed(m)) => Result::Err(
                        ExpandErrorView::HandlerError(m),
                    ),
                },
            }
        },
    }
}

/// Substitution over a list of locations: each location's outcome is decided
/// against the fixed snapshot, its result written into the live tree, and
/// the first error ends the run with no document.
pub open spec fn spec_run<H: Handler>(
    snap: DocView,
    reg: Registry<H>,
    live: DocView,
    locs: Seq<Seq<SegView>>,
) -> Result<DocView, ExpandErrorView>
    decreases locs.len(),
{
    if locs.len() == 0 {
        Result::Ok(live)
    } else {
        match eval_loc(snap, reg, locs[0]) {
            Result::Err(e) => Result::Err(e),
            Result::Ok(v) => spec_run(
                snap,
                reg,
                doc_set(live, locs[0], v),
                locs.subrange(1, locs.len() as int),
            ),
        }
    }
}

/// Full expansion of a document under a registry: discovery on the document
/// as given, then substitution with that same tree as the snapshot.
pub open spec fn spec_expand<H: Handler>(d: DocView, reg: Registry<H>) -> Result<
    DocView,
    ExpandErrorView,
> {
    spec_run(d, reg, d, doc_locs(d, Seq::empty()))
}

/// Expands the document: every invocation node is replaced by its handler's
/// result, or the first failure is returned and no document. Arguments are
/// read from a snapshot taken before any substitution, so a handler never
/// sees an earlier substitution's output.
#[verifier::loop_isolation(false)]
pub fn expand<H: Handler>(doc: Document, registry: &Registry<H>) -> (r: Result<
    Document,
    ExpandError,
>)
    ensures
        r is Ok <==> spec_expand(doc@, *registry) is Ok,
        r is Ok ==> r->Ok_0@ == spec_expand(doc@, *registry)->Ok_0,
        r is Err ==> r->Err_0@ == spec_expand(doc@, *registry)->Err_0,
{
    let ghost d0 = doc@;
    let ghost regv = *registry;
    let snapshot = doc.deep_copy();
    let locs = find_macro_invocations(&snapshot);
    let ghost all = locs_of(locs@);
    proof {
        assert(all == doc_locs(d0, Seq::empty()));
    }
    let mut live = doc;
    let n = locs.len();
    proof {
        assert(n == all.len());
        assert(all.subrange(0, all.len() as int) =~= all);
    }
    for i in 0..n
        invariant
            spec_run(d0, regv, live@, all.subrange(i as int, all.len() as int)) == spec_run(
                d0,
                regv,
                d0,
                all,
            ),
    {
        let ghost suffix = all.subrange(i as int, all.len() as int);
        let loc = &locs[i];
        proof {
            assert(loc@ == all[i as int]);
            assert(suffix[0] == all[i as int]);
            assert(suffix.subrange(1, suffix.len() as int) =~= all.subrange(
                i as int + 1,
                all.len() as int,
            ));
            assert(loc@.subrange(0, loc@.len() as int) =~= loc@);
        }
        let node = match get_at(&snapshot, loc, 0) {
            Option::Some(nd) => nd,
            Option::None => {
                return Result::Err(ExpandError::MalformedInvocation);
            },
        };
        let call = match parse_macro_call(node) {
            Option::Some(c) => c,
            Option::None => {
                return Result::Err(ExpandError::MalformedInvocation);
            },
        };
        let handler = match registry.resolve(&call.name) {
            Option::Some(h) => h,
            Option::None => {
                proof {
                    assert(eval_loc(d0, regv, loc@) == Result::<DocView,
                        ExpandErrorView>::Err(ExpandErrorView::UnknownHandler(call.name@)));
                }
                return Result::Err(ExpandError::UnknownHandler(call.name));
            },
        };
        match handler.call(&call.args) {
            Result::Err(HandlerFailure::Decode(m)) => {
                proof {
                    assert(eval_loc(d0, regv, loc@) == Result::<DocView,
                        ExpandErrorView>::Err(ExpandErrorView::ArgumentDecodeError(m@)));
                }
                return Result::Err(ExpandError::ArgumentDecodeError(m));
            },
            Result::Err(HandlerFailure::Failed(m)) => {
                proof {
                    assert(eval_loc(d0, regv, loc@) == Result::<DocView,
                        ExpandErrorView>::Err(ExpandErrorView::HandlerError(m@)));
                }
                return Result::Err(ExpandError::HandlerError(m));
            },
            Result::Ok(result) => {
                proof {
                    assert(eval_loc(d0, regv, loc@) == Result::<DocView,
                        ExpandErrorView>::Ok(result@));
                }
                live = with_set(live, loc, 0, result);
            },
        }
    }
    proof {
        assert(all.subrange(n as int, all.len() as int) =~= Seq::<Seq<SegView>>::empty());
    }
    Result::Ok(live)
}

} // verus!
