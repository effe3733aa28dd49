//! Laws of discovery and substitution, proved over the specification
//! functions that the executable functions' contracts are stated with.

use vstd::prelude::*;
use crate::doc::{doc_wf, DocView};
use crate::engine::{eval_loc, spec_expand, spec_run};
use crate::invoke::is_invocation;
use crate::locate::{arr_locs_from, doc_locs, obj_locs_from};
use crate::path::{doc_get, doc_set, SegView};
use crate::registry::{ExpandErrorView, Handler, Registry};

verus! {

/// The number of invocation nodes in a tree, nested ones counted
/// separately.
pub open spec fn inv_count(d: DocView) -> nat
    decreases d, 1int, 0int,
{
    match d {
        DocView::Arr(items) => arr_inv_count(items, 0),
        DocView::Obj(entries) => obj_inv_count(entries, 0) + if is_invocation(d) {
            1nat
        } else {
            0nat
        },
        _ => 0,
    }
}

/// Invocation nodes in the array elements from index `j` on.
pub open spec fn arr_inv_count(items: Seq<DocView>, j: int) -> nat
    decreases items, 0int, items.len() - j,
{
    if 0 <= j < items.len() {
        inv_count(items[j]) + arr_inv_count(items, j + 1)
    } else {
        0
    }
}

/// Invocation nodes in the object entries from index `j` on.
pub open spec fn obj_inv_count(entries: Seq<(Seq<char>, DocView)>, j: int) -> nat
    decreases entries, 0int, entries.len() - j,
{
    if 0 <= j < entries.len() {
        inv_count(entries[j].1) + obj_inv_count(entries, j + 1)
    } else {
        0
    }
}

/// Discovery is a function of the document alone: two runs of the locator
/// on the same document yield identical location sequences.
pub proof fn lemma_discovery_idempotent(
    d: DocView,
    first: Seq<Seq<SegView>>,
    second: Seq<Seq<SegView>>,
)
    requires
        first == doc_locs(d, Seq::<SegView>::empty()),
        second == doc_locs(d, Seq::<SegView>::empty()),
    ensures
        first == second,
{
}

/// Completeness: discovery returns exactly one location per invocation node
/// of the tree, nested-in-argument invocations counted separately.
pub proof fn lemma_discovery_complete(d: DocView, at: Seq<SegView>)
    ensures
        doc_locs(d, at).len() == inv_count(d),
    decreases d, 1int, 0int,
{
    match d {
        DocView::Arr(items) => {
            lemma_arr_complete(items, at, 0);
        },
        DocView::Obj(entries) => {
            lemma_obj_complete(entries, at, 0);
        },
        _ => {},
    }
}

proof fn lemma_arr_complete(items: Seq<DocView>, at: Seq<SegView>, j: int)
    ensures
        arr_locs_from(items, at, j).len() == arr_inv_count(items, j),
    decreases items, 0int, items.len() - j,
{
    if 0 <= j < items.len() {
        lemma_discovery_complete(items[j], at.push(SegView::Index(j)));
        lemma_arr_complete(items, at, j + 1);
    }
}

proof fn lemma_obj_complete(entries: Seq<(Seq<char>, DocView)>, at: Seq<SegView>, j: int)
    ensures
        obj_locs_from(entries, at, j).len() == obj_inv_count(entries, j),
    decreases entries, 0int, entries.len() - j,
{
    if 0 <= j < entries.len() {
        lemma_discovery_complete(entries[j].1, at.push(SegView::Key(entries[j].0)));
        lemma_obj_complete(entries, at, j + 1);
    }
}

/// `a` addresses `b`'s node or an ancestor of it.
pub open spec fn is_path_prefix(a: Seq<SegView>, b: Seq<SegView>) -> bool {
    a.len() <= b.len() && a == b.subrange(0, a.len() as int)
}

/// Discovery order never puts an enclosing location before a location it
/// encloses: a nested invocation is substituted before the invocation
/// around it, and no location is repeated.
pub open spec fn discovery_ordered(locs: Seq<Seq<SegView>>) -> bool {
    forall|i: int, j: int|
        0 <= i < j < locs.len() ==> !is_path_prefix(#[trigger] locs[i], #[trigger] locs[j])
}

/// Every location found under a node lies at that node's path or below it;
/// locations found in the children strictly below it, each tagged with the
/// child's own segment.
proof fn lemma_doc_locs_within(d: DocView, at: Seq<SegView>)
    ensures
        forall|m: int|
            0 <= m < doc_locs(d, at).len() ==> is_path_prefix(
                at,
                #[trigger] doc_locs(d, at)[m],
            ),
    decreases d, 1int, 0int,
{
    assert(at.subrange(0, at.len() as int) =~= at);
    match d {
        DocView::Arr(items) => {
            lemma_arr_within(items, at, 0);
            assert forall|m: int| 0 <= m < doc_locs(d, at).len() implies is_path_prefix(
                at,
                #[trigger] doc_locs(d, at)[m],
            ) by {
                let l = arr_locs_from(items, at, 0)[m];
                assert(at.push(SegView::Index(l[at.len() as int]->Index_0)).subrange(
                    0,
                    at.len() as int,
                ) =~= at);
                assert(l.subrange(0, at.len() as int + 1).subrange(0, at.len() as int) =~= l
                    .subrange(0, at.len() as int));
            }
        },
        DocView::Obj(entries) => {
            lemma_obj_within(entries, at, 0);
            assert forall|m: int| 0 <= m < doc_locs(d, at).len() implies is_path_prefix(
                at,
                #[trigger] doc_locs(d, at)[m],
            ) by {
                let part = obj_locs_from(entries, at, 0);
                if m < part.len() {
                    let l = part[m];
                    assert(l.subrange(0, at.len() as int + 1).subrange(0, at.len() as int)
                        =~= l.subrange(0, at.len() as int));
                }
            }
        },
        _ => {},
    }
}

/// Locations from array elements `j` on: each strictly below `at`, tagged
/// at position `at.len()` with the index of the element it came from.
proof fn lemma_arr_within(items: Seq<DocView>, at: Seq<SegView>, j: int)
    ensures
        forall|m: int|
            0 <= m < arr_locs_from(items, at, j).len() ==> {
                let l = #[trigger] arr_locs_from(items, at, j)[m];
                &&& l.len() > at.len()
                &&& l.subrange(0, at.len() as int) == at
                &&& l[at.len() as int] is Index
                &&& j <= l[at.len() as int]->Index_0 < items.len()
            },
    decreases items, 0int, items.len() - j,
{
    if 0 <= j < items.len() {
        let child_at = at.push(SegView::Index(j));
        let block = doc_locs(items[j], child_at);
        lemma_doc_locs_within(items[j], child_at);
        lemma_arr_within(items, at, j + 1);
        assert forall|m: int| 0 <= m < arr_locs_from(items, at, j).len() implies {
            let l = #[trigger] arr_locs_from(items, at, j)[m];
            &&& l.len() > at.len()
            &&& l.subrange(0, at.len() as int) == at
            &&& l[at.len() as int] is Index
            &&& j <= l[at.len() as int]->Index_0 < items.len()
        } by {
            let l = arr_locs_from(items, at, j)[m];
            if m < block.len() {
                assert(block[m] == l);
                assert(is_path_prefix(child_at, l));
                assert(l.subrange(0, child_at.len() as int) == child_at);
                assert(l[at.len() as int] == child_at[at.len() as int]);
                assert(l.subrange(0, child_at.len() as int).subrange(0, at.len() as int) =~= l
                    .subrange(0, at.len() as int));
                assert(child_at.subrange(0, at.len() as int) =~= at);
            } else {
                assert(arr_locs_from(items, at, j + 1)[m - block.len()] == l);
            }
        }
    }
}

/// Locations from object entries `j` on: each strictly below `at`, tagged
/// at position `at.len()` with the key of the entry it came from.
proof fn lemma_obj_within(entries: Seq<(Seq<char>, DocView)>, at: Seq<SegView>, j: int)
    ensures
        forall|m: int|
            0 <= m < obj_locs_from(entries, at, j).len() ==> {
                let l = #[trigger] obj_locs_from(entries, at, j)[m];
                &&& l.len() > at.len()
                &&& l.subrange(0, at.len() as int) == at
                &&& l[at.len() as int] is Key
                &&& exists|k: int|
                    j <= k < entries.len() && l[at.len() as int] == SegView::Key(
                        (#[trigger] entries[k]).0,
                    )
            },
    decreases entries, 0int, entries.len() - j,
{
    if 0 <= j < entries.len() {
        let child_at = at.push(SegView::Key(entries[j].0));
        let block = doc_locs(entries[j].1, child_at);
        lemma_doc_locs_within(entries[j].1, child_at);
        lemma_obj_within(entries, at, j + 1);
        assert forall|m: int| 0 <= m < obj_locs_from(entries, at, j).len() implies {
            let l = #[trigger] obj_locs_from(entries, at, j)[m];
            &&& l.len() > at.len()
            &&& l.subrange(0, at.len() as int) == at
            &&& l[at.len() as int] is Key
            &&& exists|k: int|
                j <= k < entries.len() && l[at.len() as int] == SegView::Key(
                    (#[trigger] entries[k]).0,
                )
        } by {
            let l = obj_locs_from(entries, at, j)[m];
            if m < block.len() {
                assert(block[m] == l);
                assert(is_path_prefix(child_at, l));
                assert(l.subrange(0, child_at.len() as int) == child_at);
                assert(l[at.len() as int] == child_at[at.len() as int]);
                assert(l.subrange(0, child_at.len() as int).subrange(0, at.len() as int) =~= l
                    .subrange(0, at.len() as int));
                assert(child_at.subrange(0, at.len() as int) =~= at);
                assert(l[at.len() as int] == SegView::Key(entries[j].0));
            } else {
                assert(obj_locs_from(entries, at, j + 1)[m - block.len()] == l);
            }
        }
    }
}

/// Ordering: in a well-formed document no discovered location precedes a
/// location nested inside it, so inner invocations are substituted first.
pub proof fn lemma_discovery_ordered(d: DocView, at: Seq<SegView>)
    requires
        doc_wf(d),
    ensures
        discovery_ordered(doc_locs(d, at)),
    decreases d, 1int, 0int,
{
    match d {
        DocView::Arr(items) => {
            lemma_arr_ordered(items, at, 0);
        },
        DocView::Obj(entries) => {
            lemma_obj_ordered(entries, at, 0);
            let part = obj_locs_from(entries, at, 0);
            let whole = doc_locs(d, at);
            lemma_obj_within(entries, at, 0);
            assert forall|i: int, j: int| 0 <= i < j < whole.len() implies !is_path_prefix(
                #[trigger] whole[i],
                #[trigger] whole[j],
            ) by {
                if j < part.len() {
                    assert(whole[i] == part[i] && whole[j] == part[j]);
                } else {
                    assert(is_invocation(d) && j == part.len() && whole[j] == at);
                    assert(whole[i] == part[i]);
                    assert(part[i].len() > at.len());
                }
            }
        },
        _ => {},
    }
}

proof fn lemma_arr_ordered(items: Seq<DocView>, at: Seq<SegView>, j: int)
    requires
        forall|i: int| 0 <= i < items.len() ==> doc_wf(#[trigger] items[i]),
    ensures
        discovery_ordered(arr_locs_from(items, at, j)),
    decreases items, 0int, items.len() - j,
{
    if 0 <= j < items.len() {
        let child_at = at.push(SegView::Index(j));
        let block = doc_locs(items[j], child_at);
        let rest = arr_locs_from(items, at, j + 1);
        lemma_discovery_ordered(items[j], child_at);
        lemma_arr_ordered(items, at, j + 1);
        lemma_doc_locs_within(items[j], child_at);
        lemma_arr_within(items, at, j);
        lemma_arr_within(items, at, j + 1);
        assert forall|x: int, y: int| 0 <= x < y < arr_locs_from(items, at, j).len() implies
            !is_path_prefix(
            #[trigger] arr_locs_from(items, at, j)[x],
            #[trigger] arr_locs_from(items, at, j)[y],
        ) by {
            let whole = arr_locs_from(items, at, j);
            let a = whole[x];
            let b = whole[y];
            if y < block.len() {
                assert(a == block[x] && b == block[y]);
            } else if x >= block.len() {
                assert(a == rest[x - block.len()] && b == rest[y - block.len()]);
            } else {
                assert(a == block[x] && b == rest[y - block.len()]);
                assert(is_path_prefix(child_at, a));
                assert(a.subrange(0, child_at.len() as int) == child_at);
                assert(a[at.len() as int] == child_at[at.len() as int]);
                assert(a[at.len() as int]->Index_0 == j);
                assert(j + 1 <= b[at.len() as int]->Index_0);
                if is_path_prefix(a, b) {
                    assert(a.len() > at.len());
                    assert(b.subrange(0, a.len() as int)[at.len() as int] == b[at.len() as int]);
                    assert(a[at.len() as int] == b[at.len() as int]);
                    assert(false);
                }
            }
        }
    }
}

proof fn lemma_obj_ordered(entries: Seq<(Seq<char>, DocView)>, at: Seq<SegView>, j: int)
    requires
        forall|i: int, k: int|
            0 <= i < k < entries.len() ==> (#[trigger] entries[i]).0 != (
            #[trigger] entries[k]).0,
        forall|i: int| 0 <= i < entries.len() ==> doc_wf((#[trigger] entries[i]).1),
    ensures
        discovery_ordered(obj_locs_from(entries, at, j)),
    decreases entries, 0int, entries.len() - j,
{
    if 0 <= j < entries.len() {
        let child_at = at.push(SegView::Key(entries[j].0));
        let block = doc_locs(entries[j].1, child_at);
        let rest = obj_locs_from(entries, at, j + 1);
        lemma_discovery_ordered(entries[j].1, child_at);
        lemma_obj_ordered(entries, at, j + 1);
        lemma_doc_locs_within(entries[j].1, child_at);
        lemma_obj_within(entries, at, j);
        lemma_obj_within(entries, at, j + 1);
        assert forall|x: int, y: int| 0 <= x < y < obj_locs_from(entries, at, j).len() implies
            !is_path_prefix(
            #[trigger] obj_locs_from(entries, at, j)[x],
            #[trigger] obj_locs_from(entries, at, j)[y],
        ) by {
            let whole = obj_locs_from(entries, at, j);
            let a = whole[x];
            let b = whole[y];
            if y < block.len() {
                assert(a == block[x] && b == block[y]);
            } else if x >= block.len() {
                assert(a == rest[x - block.len()] && b == rest[y - block.len()]);
            } else {
                assert(a == block[x] && b == rest[y - block.len()]);
                assert(is_path_prefix(child_at, a));
                assert(a.subrange(0, child_at.len() as int) == child_at);
                assert(a[at.len() as int] == child_at[at.len() as int]);
                assert(a[at.len() as int] == SegView::Key(entries[j].0));
                let k = choose|k: int|
                    j + 1 <= k < entries.len() && b[at.len() as int] == SegView::Key(
                        (#[trigger] entries[k]).0,
                    );
                assert(entries[j].0 != entries[k].0);
                if is_path_prefix(a, b) {
                    assert(a.len() > at.len());
                    assert(b.subrange(0, a.len() as int)[at.len() as int] == b[at.len() as int]);
                    assert(a[at.len() as int] == b[at.len() as int]);
                    assert(false);
                }
            }
        }
    }
}

/// Snapshot isolation: what each location's handler is handed, and hence
/// whether and how a run fails, depends on the snapshot alone, never on the
/// live document that earlier substitutions have already changed.
pub proof fn lemma_snapshot_isolation<H: Handler>(
    snap: DocView,
    reg: Registry<H>,
    live1: DocView,
    live2: DocView,
    locs: Seq<Seq<SegView>>,
)
    ensures
        spec_run(snap, reg, live1, locs) is Err <==> spec_run(snap, reg, live2, locs) is Err,
        spec_run(snap, reg, live1, locs) is Err ==> spec_run(snap, reg, live1, locs) == spec_run(
            snap,
            reg,
            live2,
            locs,
        ),
    decreases locs.len(),
{
    if locs.len() > 0 {
        match eval_loc(snap, reg, locs[0]) {
            Result::Err(e) => {},
            Result::Ok(v) => {
                lemma_snapshot_isolation(
                    snap,
                    reg,
                    doc_set(live1, locs[0], v),
                    doc_set(live2, locs[0], v),
                    locs.subrange(1, locs.len() as int),
                );
            },
        }
    }
}

/// Fail-fast: when every location before `i` succeeds and location `i`
/// fails, the run returns exactly that failure; locations after `i` play no
/// part in the outcome.
pub proof fn lemma_fail_fast<H: Handler>(
    snap: DocView,
    reg: Registry<H>,
    live: DocView,
    locs: Seq<Seq<SegView>>,
    i: int,
    e: ExpandErrorView,
)
    requires
        0 <= i < locs.len(),
        forall|j: int| 0 <= j < i ==> eval_loc(snap, reg, #[trigger] locs[j]) is Ok,
        eval_loc(snap, reg, locs[i]) == Result::<DocView, ExpandErrorView>::Err(e),
    ensures
        spec_run(snap, reg, live, locs) == Result::<DocView, ExpandErrorView>::Err(e),
    decreases i,
{
    if i > 0 {
        let rest = locs.subrange(1, locs.len() as int);
        let v = eval_loc(snap, reg, locs[0])->Ok_0;
        assert(rest[i - 1] == locs[i]);
        assert forall|j: int| 0 <= j < i - 1 implies eval_loc(snap, reg, #[trigger] rest[j])
            is Ok by {
            assert(rest[j] == locs[j + 1]);
        }
        lemma_fail_fast(snap, reg, doc_set(live, locs[0], v), rest, i - 1, e);
    }
}

/// No-op on empty: a document with no invocation nodes expands to itself,
/// whatever the registry holds.
pub proof fn lemma_expand_no_invocations<H: Handler>(d: DocView, reg: Registry<H>)
    requires
        inv_count(d) == 0,
    ensures
        spec_expand(d, reg) == Result::<DocView, ExpandErrorView>::Ok(d),
{
    lemma_discovery_complete(d, Seq::<SegView>::empty());
}

/// The path resolves in `root` to an invocation node.
pub open spec fn resolves_to_invocation(root: DocView, l: Seq<SegView>) -> bool {
    match doc_get(root, l) {
        Option::Some(node) => is_invocation(node),
        Option::None => false,
    }
}

/// Reading a concatenated path reads the second part from what the first
/// part resolved to.
pub proof fn lemma_get_append(d: DocView, p: Seq<SegView>, q: Seq<SegView>)
    ensures
        doc_get(d, p + q) == match doc_get(d, p) {
            Option::Some(x) => doc_get(x, q),
            Option::None => Option::<DocView>::None,
        },
    decreases p.len(),
{
    if p.len() == 0 {
        assert(p + q =~= q);
    } else {
        assert((p + q)[0] == p[0]);
        assert((p + q).subrange(1, (p + q).len() as int) =~= p.subrange(1, p.len() as int)
            + q);
        match p[0] {
            SegView::Index(i) => {
                if d is Arr && 0 <= i < d->Arr_0.len() {
                    lemma_get_append(d->Arr_0[i], p.subrange(1, p.len() as int), q);
                }
            },
            SegView::Key(k) => {
                if d is Obj {
                    let idx = crate::path::obj_key_index(d->Obj_0, k);
                    if idx < d->Obj_0.len() {
                        lemma_get_append(d->Obj_0[idx].1, p.subrange(1, p.len() as int), q);
                    }
                }
            },
        }
    }
}

/// Every location found under a well-formed node resolves, relative to that
/// node, to an invocation node: discovered locations address nodes that
/// exist at discovery time.
proof fn lemma_doc_locs_resolve(d: DocView, at: Seq<SegView>)
    requires
        doc_wf(d),
    ensures
        forall|m: int|
            0 <= m < doc_locs(d, at).len() ==> resolves_to_invocation(
                d,
                (#[trigger] doc_locs(d, at)[m]).subrange(
                    at.len() as int,
                    doc_locs(d, at)[m].len() as int,
                ),
            ),
    decreases d, 1int, 0int,
{
    match d {
        DocView::Arr(items) => {
            lemma_arr_resolve(items, at, 0);
            assert forall|m: int| 0 <= m < doc_locs(d, at).len() implies
                resolves_to_invocation(
                d,
                (#[trigger] doc_locs(d, at)[m]).subrange(
                    at.len() as int,
                    doc_locs(d, at)[m].len() as int,
                ),
            ) by {
                assert(doc_locs(d, at)[m] == arr_locs_from(items, at, 0)[m]);
            }
        },
        DocView::Obj(entries) => {
            lemma_obj_resolve(entries, at, 0);
            let part = obj_locs_from(entries, at, 0);
            let whole = doc_locs(d, at);
            assert forall|m: int| 0 <= m < whole.len() implies resolves_to_invocation(
                d,
                (#[trigger] whole[m]).subrange(at.len() as int, whole[m].len() as int),
            ) by {
                if m < part.len() {
                    assert(whole[m] == part[m]);
                } else {
                    assert(is_invocation(d) && whole[m] == at);
                    assert(at.subrange(at.len() as int, at.len() as int) =~= Seq::<
                        SegView,
                    >::empty());
                }
            }
        },
        _ => {},
    }
}

proof fn lemma_arr_resolve(items: Seq<DocView>, at: Seq<SegView>, j: int)
    requires
        forall|i: int| 0 <= i < items.len() ==> doc_wf(#[trigger] items[i]),
    ensures
        forall|m: int|
            0 <= m < arr_locs_from(items, at, j).len() ==> resolves_to_invocation(
                DocView::Arr(items),
                (#[trigger] arr_locs_from(items, at, j)[m]).subrange(
                    at.len() as int,
                    arr_locs_from(items, at, j)[m].len() as int,
                ),
            ),
    decreases items, 0int, items.len() - j,
{
    if 0 <= j < items.len() {
        let child_at = at.push(SegView::Index(j));
        let block = doc_locs(items[j], child_at);
        lemma_doc_locs_resolve(items[j], child_at);
        lemma_doc_locs_within(items[j], child_at);
        lemma_arr_resolve(items, at, j + 1);
        assert forall|m: int| 0 <= m < arr_locs_from(items, at, j).len() implies
            resolves_to_invocation(
            DocView::Arr(items),
            (#[trigger] arr_locs_from(items, at, j)[m]).subrange(
                at.len() as int,
                arr_locs_from(items, at, j)[m].len() as int,
            ),
        ) by {
            let l = arr_locs_from(items, at, j)[m];
            if m < block.len() {
                assert(block[m] == l);
                assert(is_path_prefix(child_at, l));
                assert(l.subrange(0, child_at.len() as int) == child_at);
                let rel = l.subrange(at.len() as int, l.len() as int);
                assert(rel[0] == l[at.len() as int]);
                assert(l[at.len() as int] == child_at[at.len() as int]);
                assert(rel.subrange(1, rel.len() as int) =~= l.subrange(
                    child_at.len() as int,
                    l.len() as int,
                ));
                assert(resolves_to_invocation(
                    items[j],
                    l.subrange(child_at.len() as int, l.len() as int),
                ));
            } else {
                assert(arr_locs_from(items, at, j + 1)[m - block.len()] == l);
            }
        }
    }
}

proof fn lemma_obj_resolve(entries: Seq<(Seq<char>, DocView)>, at: Seq<SegView>, j: int)
    requires
        forall|i: int, k: int|
            0 <= i < k < entries.len() ==> (#[trigger] entries[i]).0 != (
            #[trigger] entries[k]).0,
        forall|i: int| 0 <= i < entries.len() ==> doc_wf((#[trigger] entries[i]).1),
    ensures
        forall|m: int|
            0 <= m < obj_locs_from(entries, at, j).len() ==> resolves_to_invocation(
                DocView::Obj(entries),
                (#[trigger] obj_locs_from(entries, at, j)[m]).subrange(
                    at.len() as int,
                    obj_locs_from(entries, at, j)[m].len() as int,
                ),
            ),
    decreases entries, 0int, entries.len() - j,
{
    if 0 <= j < entries.len() {
        let child_at = at.push(SegView::Key(entries[j].0));
        let block = doc_locs(entries[j].1, child_at);
        lemma_doc_locs_resolve(entries[j].1, child_at);
        lemma_doc_locs_within(entries[j].1, child_at);
        lemma_obj_resolve(entries, at, j + 1);
        assert forall|m: int| 0 <= m < obj_locs_from(entries, at, j).len() implies
            resolves_to_invocation(
            DocView::Obj(entries),
            (#[trigger] obj_locs_from(entries, at, j)[m]).subrange(
                at.len() as int,
                obj_locs_from(entries, at, j)[m].len() as int,
            ),
        ) by {
            let l = obj_locs_from(entries, at, j)[m];
            if m < block.len() {
                assert(block[m] == l);
                assert(is_path_prefix(child_at, l));
                assert(l.subrange(0, child_at.len() as int) == child_at);
                let rel = l.subrange(at.len() as int, l.len() as int);
                assert(rel[0] == l[at.len() as int]);
                assert(l[at.len() as int] == child_at[at.len() as int]);
                assert(rel[0] == SegView::Key(entries[j].0));
                crate::path::lemma_obj_key_index(entries, entries[j].0);
                let idx = crate::path::obj_key_index(entries, entries[j].0);
                assert(idx <= j);
                if idx < j {
                    assert(entries[idx].0 == entries[j].0);
                    assert(false);
                }
                assert(rel.subrange(1, rel.len() as int) =~= l.subrange(
                    child_at.len() as int,
                    l.len() as int,
                ));
                assert(resolves_to_invocation(
                    entries[j].1,
                    l.subrange(child_at.len() as int, l.len() as int),
                ));
            } else {
                assert(obj_locs_from(entries, at, j + 1)[m - block.len()] == l);
            }
        }
    }
}

/// In a well-formed document every discovered location addresses an
/// invocation node of the document itself.
pub proof fn lemma_discovered_locations_resolve(d: DocView)
    requires
        doc_wf(d),
    ensures
        forall|m: int|
            0 <= m < doc_locs(d, Seq::<SegView>::empty()).len() ==> resolves_to_invocation(
                d,
                #[trigger] doc_locs(d, Seq::<SegView>::empty())[m],
            ),
{
    lemma_doc_locs_resolve(d, Seq::<SegView>::empty());
    let locs = doc_locs(d, Seq::<SegView>::empty());
    assert forall|m: int| 0 <= m < locs.len() implies resolves_to_invocation(
        d,
        #[trigger] locs[m],
    ) by {
        assert(locs[m].subrange(0, locs[m].len() as int) =~= locs[m]);
    }
}

proof fn lemma_run_never_malformed<H: Handler>(
    snap: DocView,
    reg: Registry<H>,
    live: DocView,
    locs: Seq<Seq<SegView>>,
)
    requires
        forall|m: int|
            0 <= m < locs.len() ==> resolves_to_invocation(snap, #[trigger] locs[m]),
    ensures
        spec_run(snap, reg, live, locs) != Result::<DocView, ExpandErrorView>::Err(
            ExpandErrorView::MalformedInvocation,
        ),
    decreases locs.len(),
{
    if locs.len() > 0 {
        match eval_loc(snap, reg, locs[0]) {
            Result::Err(e) => {},
            Result::Ok(v) => {
                let rest = locs.subrange(1, locs.len() as int);
                assert forall|m: int| 0 <= m < rest.len() implies resolves_to_invocation(
                    snap,
                    #[trigger] rest[m],
                ) by {
                    assert(rest[m] == locs[m + 1]);
                }
                lemma_run_never_malformed(snap, reg, doc_set(live, locs[0], v), rest);
            },
        }
    }
}

/// The defensive malformed-invocation check never fires on a well-formed
/// document: every located node still parses as an invocation when it is
/// read back from the snapshot.
pub proof fn lemma_wf_never_malformed<H: Handler>(d: DocView, reg: Registry<H>)
    requires
        doc_wf(d),
    ensures
        spec_expand(d, reg) != Result::<DocView, ExpandErrorView>::Err(
            ExpandErrorView::MalformedInvocation,
        ),
{
    lemma_discovered_locations_resolve(d);
    lemma_run_never_malformed(d, reg, d, doc_locs(d, Seq::<SegView>::empty()));
}

/// When every location's snapshot-side outcome succeeds, the whole run
/// succeeds: substitution owes a document whenever no handler step fails.
pub proof fn lemma_all_locations_succeed<H: Handler>(
    snap: DocView,
    reg: Registry<H>,
    live: DocView,
    locs: Seq<Seq<SegView>>,
)
    requires
        forall|m: int| 0 <= m < locs.len() ==> eval_loc(snap, reg, #[trigger] locs[m]) is Ok,
    ensures
        spec_run(snap, reg, live, locs) is Ok,
    decreases locs.len(),
{
    if locs.len() > 0 {
        let rest = locs.subrange(1, locs.len() as int);
        let v = eval_loc(snap, reg, locs[0])->Ok_0;
        assert forall|m: int| 0 <= m < rest.len() implies eval_loc(
            snap,
            reg,
            #[trigger] rest[m],
        ) is Ok by {
            assert(rest[m] == locs[m + 1]);
        }
        lemma_all_locations_succeed(snap, reg, doc_set(live, locs[0], v), rest);
    }
}

} // verus!
