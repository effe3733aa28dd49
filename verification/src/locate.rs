//! Discovery: the post-order, depth-first walk that records the location of
//! every invocation node in the tree. A nested invocation is recorded before
//! the invocation enclosing it, which fixes substitution order.

use vstd::prelude::*;
use crate::doc::{arr_views, doc_view, lemma_arr_views, lemma_obj_views, obj_views, DocView, Document};
use crate::invoke::{is_invocation, key_is_marker};
use crate::path::{Location, PathSeg, SegView};

verus! {

/// Models of a sequence of path segments.
pub open spec fn segs_view(s: Seq<PathSeg>) -> Seq<SegView> {
    s.map_values(|p: PathSeg| p@)
}

/// Models of a sequence of locations.
pub open spec fn locs_of(s: Seq<Location>) -> Seq<Seq<SegView>> {
    s.map_values(|l: Location| l@)
}

/// The ordered locations of every invocation node in `d`, each prefixed by
/// `at`, the path of `d` itself. Children are visited before the node's own
/// invocation check, so inner invocations precede outer ones.
pub open spec fn doc_locs(d: DocView, at: Seq<SegView>) -> Seq<Seq<SegView>>
    decreases d, 1int, 0int,
{
    match d {
        DocView::Arr(items) => arr_locs_from(items, at, 0),
        DocView::Obj(entries) => obj_locs_from(entries, at, 0) + if is_invocation(d) {
            seq![at]
        } else {
            Seq::empty()
        },
        _ => Seq::empty(),
    }
}

/// Locations found in the array elements from index `j` on.
pub open spec fn arr_locs_from(items: Seq<DocView>, at: Seq<SegView>, j: int) -> Seq<
    Seq<SegView>,
>
    decreases items, 0int, items.len() - j,
{
    if 0 <= j < items.len() {
        doc_locs(items[j], at.push(SegView::Index(j))) + arr_locs_from(items, at, j + 1)
    } else {
        Seq::empty()
    }
}

/// Locations found in the object entries from index `j` on.
pub open spec fn obj_locs_from(
    entries: Seq<(Seq<char>, DocView)>,
    at: Seq<SegView>,
    j: int,
) -> Seq<Seq<SegView>>
    decreases entries, 0int, entries.len() - j,
{
    if 0 <= j < entries.len() {
        doc_locs(entries[j].1, at.push(SegView::Key(entries[j].0))) + obj_locs_from(
            entries,
            at,
            j + 1,
        )
    } else {
        Seq::empty()
    }
}

/// A fresh vector of segments equal to the given one.
#[verifier::loop_isolation(false)]
fn duplicate_segs(v: &Vec<PathSeg>) -> (r: Vec<PathSeg>)
    ensures
        r@ == v@,
{
    let mut out: Vec<PathSeg> = Vec::new();
    let n = v.len();
    for i in 0..n
        invariant
            out@.len() == i,
            forall|j: int| 0 <= j < i ==> out@[j] == v@[j],
    {
        out.push(v[i].duplicate());
    }
    proof {
        assert(out@ =~= v@);
    }
    out
}

/// Appends to `out` the location of every invocation node inside `d`, whose
/// own path is `cur`, in discovery order; `cur` is restored on return.
#[verifier::loop_isolation(false)]
fn walk(d: &Document, cur: &mut Vec<PathSeg>, out: &mut Vec<Location>)
    ensures
        final(cur)@ == old(cur)@,
        locs_of(final(out)@) == locs_of(old(out)@) + doc_locs(d@, segs_view(old(cur)@)),
    decreases d,
{
    let ghost cur0 = old(cur)@;
    let ghost out0 = old(out)@;
    let ghost sv = segs_view(cur0);
    match d {
        Document::Array(items) => {
            proof {
                lemma_arr_views(items@);
            }
            let ghost vs = arr_views(items@);
            let n = items.len();
            for i in 0..n
                invariant
                    cur@ == cur0,
                    locs_of(out@) + arr_locs_from(vs, sv, i as int) == locs_of(out0)
                        + arr_locs_from(vs, sv, 0),
            {
                cur.push(PathSeg::Index(i));
                proof {
                    assert(segs_view(cur@) =~= sv.push(SegView::Index(i as int)));
                }
                walk(&items[i], cur, out);
                cur.pop();
                proof {
                    assert(cur@ =~= cur0);
                    assert(doc_view(items@[i as int]) == vs[i as int]);
                    assert(arr_locs_from(vs, sv, i as int) == doc_locs(
                        vs[i as int],
                        sv.push(SegView::Index(i as int)),
                    ) + arr_locs_from(vs, sv, i + 1));
                    assert(locs_of(out@) + arr_locs_from(vs, sv, i + 1) =~= locs_of(out0)
                        + arr_locs_from(vs, sv, 0));
                }
            }
            proof {
                assert(arr_locs_from(vs, sv, n as int) =~= Seq::<Seq<SegView>>::empty());
                assert(locs_of(out@) =~= locs_of(out0) + doc_locs(d@, sv));
            }
        },
        Document::Object(entries) => {
            proof {
                lemma_obj_views(entries@);
            }
            let ghost es = obj_views(entries@);
            let n = entries.len();
            for i in 0..n
                invariant
                    cur@ == cur0,
                    locs_of(out@) + obj_locs_from(es, sv, i as int) == locs_of(out0)
                        + obj_locs_from(es, sv, 0),
            {
                cur.push(PathSeg::Key(entries[i].0.clone()));
                proof {
                    assert(segs_view(cur@) =~= sv.push(SegView::Key(es[i as int].0)));
                }
                walk(&entries[i].1, cur, out);
                cur.pop();
                proof {
                    assert(cur@ =~= cur0);
                    assert(doc_view(entries@[i as int].1) == es[i as int].1);
                    assert(obj_locs_from(es, sv, i as int) == doc_locs(
                        es[i as int].1,
                        sv.push(SegView::Key(es[i as int].0)),
                    ) + obj_locs_from(es, sv, i + 1));
                    assert(locs_of(out@) + obj_locs_from(es, sv, i + 1) =~= locs_of(out0)
                        + obj_locs_from(es, sv, 0));
                }
            }
            proof {
                assert(obj_locs_from(es, sv, n as int) =~= Seq::<Seq<SegView>>::empty());
            }
            let self_is_invocation = if entries.len() == 1 {
                key_is_marker(entries[0].0.as_str())
            } else {
                false
            };
            proof {
                assert(self_is_invocation == is_invocation(d@));
            }
            if self_is_invocation {
                let loc = Location { segs: duplicate_segs(cur) };
                proof {
                    assert(loc@ == sv);
                }
                out.push(loc);
                proof {
                    assert(locs_of(out@) =~= locs_of(out0) + obj_locs_from(es, sv, 0)
                        + seq![sv]);
                    assert(locs_of(out@) =~= locs_of(out0) + doc_locs(d@, sv));
                }
            } else {
                proof {
                    assert(locs_of(out@) =~= locs_of(out0) + doc_locs(d@, sv));
                }
            }
        },
        _ => {
            proof {
                assert(doc_locs(d@, sv) =~= Seq::<Seq<SegView>>::empty());
                assert(locs_of(out@) =~= locs_of(out0) + doc_locs(d@, sv));
            }
        },
    }
}

/// Discovery: the ordered locations of every invocation node in the
/// document, inner invocations before the invocations enclosing them.
pub fn find_macro_invocations(d: &Document) -> (r: Vec<Location>)
    ensures
        locs_of(r@) == doc_locs(d@, Seq::empty()),
{
    let mut cur: Vec<PathSeg> = Vec::new();
    let mut out: Vec<Location> = Vec::new();
    proof {
        assert(segs_view(cur@) =~= Seq::<SegView>::empty());
        assert(locs_of(out@) =~= Seq::<Seq<SegView>>::empty());
    }
    walk(d, &mut cur, &mut out);
    proof {
        assert(locs_of(out@) =~= doc_locs(d@, Seq::empty()));
    }
    out
}

} // verus!
