//! Location addressing: paths of key/index segments from the document root,
//! with reading and in-place overwriting of the addressed node.

use vstd::prelude::*;
use crate::doc::{arr_views, doc_view, lemma_arr_views, lemma_obj_views, obj_views, DocView,
    Document};

verus! {

/// One step of a path: an object key or an array index.
#[derive(Debug, PartialEq, Eq)]
pub enum PathSeg {
    Key(String),
    Index(usize),
}

/// Model of a path segment.
pub enum SegView {
    Key(Seq<char>),
    Index(int),
}

impl View for PathSeg {
    type V = SegView;

    open spec fn view(&self) -> SegView {
        match self {
            PathSeg::Key(k) => SegView::Key(k@),
            PathSeg::Index(i) => SegView::Index(*i as int),
        }
    }
}

impl PathSeg {
    /// A fresh segment equal to this one.
    pub fn duplicate(&self) -> (r: PathSeg)
        ensures
            r == *self,
    {
        match self {
            PathSeg::Key(k) => PathSeg::Key(k.clone()),
            PathSeg::Index(i) => PathSeg::Index(*i),
        }
    }
}

/// An addressable path from the document root to one node; the root is the
/// empty path.
#[derive(Debug, PartialEq, Eq)]
pub struct Location {
    pub segs: Vec<PathSeg>,
}

impl View for Location {
    type V = Seq<SegView>;

    open spec fn view(&self) -> Seq<SegView> {
        self.segs@.map_values(|p: PathSeg| p@)
    }
}

impl Location {
    /// A fresh location addressing the same node.
    #[verifier::loop_isolation(false)]
    pub fn duplicate(&self) -> (r: Location)
        ensures
            r@ == self@,
            r.segs@.len() == self.segs@.len(),
    {
        let mut out: Vec<PathSeg> = Vec::new();
        let n = self.segs.len();
        for i in 0..n
            invariant
                out@.len() == i,
                forall|j: int| 0 <= j < i ==> out@[j] == self.segs@[j],
        {
            out.push(self.segs[i].duplicate());
        }
        proof {
            assert(out@ =~= self.segs@);
        }
        Location { segs: out }
    }
}

/// Index of the first entry of an object carrying the key, or the number of
/// entries when no entry does.
pub open spec fn obj_key_index(entries: Seq<(Seq<char>, DocView)>, k: Seq<char>) -> int
    decreases entries.len(),
{
    if entries.len() == 0 {
        0
    } else if entries[0].0 == k {
        0
    } else {
        1 + obj_key_index(entries.subrange(1, entries.len() as int), k)
    }
}

pub proof fn lemma_obj_key_index(entries: Seq<(Seq<char>, DocView)>, k: Seq<char>)
    ensures
        0 <= obj_key_index(entries, k) <= entries.len(),
        obj_key_index(entries, k) < entries.len() ==> entries[obj_key_index(entries, k)].0 == k,
        forall|j: int| 0 <= j < obj_key_index(entries, k) ==> (#[trigger] entries[j]).0 != k,
    decreases entries.len(),
{
    if entries.len() > 0 && entries[0].0 != k {
        lemma_obj_key_index(entries.subrange(1, entries.len() as int), k);
        assert forall|j: int| 0 <= j < obj_key_index(entries, k) implies (
        #[trigger] entries[j]).0 != k by {
            if j > 0 {
                assert(entries.subrange(1, entries.len() as int)[j - 1] == entries[j]);
            }
        }
    }
}

/// The node addressed by a path, read from the given tree; `None` when the
/// path does not resolve. An object key resolves to the first entry with
/// that key.
pub open spec fn doc_get(d: DocView, p: Seq<SegView>) -> Option<DocView>
    decreases p.len(),
{
    if p.len() == 0 {
        Some(d)
    } else {
        match p[0] {
            SegView::Index(i) => match d {
                DocView::Arr(items) => if 0 <= i < items.len() {
                    doc_get(items[i], p.subrange(1, p.len() as int))
                } else {
                    Option::None
                },
                _ => Option::None,
            },
            SegView::Key(k) => match d {
                DocView::Obj(entries) => {
                    let j = obj_key_index(entries, k);
                    if j < entries.len() {
                        doc_get(entries[j].1, p.subrange(1, p.len() as int))
                    } else {
                        Option::None
                    }
                },
                _ => Option::None,
            },
        }
    }
}

/// The tree with the node addressed by the path replaced by `v`; the tree
/// unchanged when the path does not resolve.
pub open spec fn doc_set(d: DocView, p: Seq<SegView>, v: DocView) -> DocView
    decreases p.len(),
{
    if p.len() == 0 {
        v
    } else {
        match p[0] {
            SegView::Index(i) => match d {
                DocView::Arr(items) => if 0 <= i < items.len() {
                    DocView::Arr(
                        items.update(i, doc_set(items[i], p.subrange(1, p.len() as int), v)),
                    )
                } else {
                    d
                },
                _ => d,
            },
            SegView::Key(k) => match d {
                DocView::Obj(entries) => {
                    let j = obj_key_index(entries, k);
                    if j < entries.len() {
                        DocView::Obj(
                            entries.update(
                                j,
                                (
                                    entries[j].0,
                                    doc_set(entries[j].1, p.subrange(1, p.len() as int), v),
                                ),
                            ),
                        )
                    } else {
                        d
                    }
                },
                _ => d,
            },
        }
    }
}

/// Reads the node addressed by `loc`'s segments from position `from` on.
#[verifier::loop_isolation(false)]
pub fn get_at<'a>(d: &'a Document, loc: &Location, from: usize) -> (r: Option<&'a Document>)
    requires
        from <= loc.segs@.len(),
    ensures
        match r {
            Option::Some(node) => doc_get(d@, loc@.subrange(from as int, loc@.len() as int))
                == Option::Some(node@),
            Option::None => doc_get(d@, loc@.subrange(from as int, loc@.len() as int))
                is None,
        },
    decreases loc.segs@.len() - from,
{
    let ghost p = loc@.subrange(from as int, loc@.len() as int);
    if from == loc.segs.len() {
        proof {
            assert(p.len() == 0);
        }
        return Option::Some(d);
    }
    proof {
        assert(p[0] == loc@[from as int]);
        assert(p.subrange(1, p.len() as int) =~= loc@.subrange(
            from as int + 1,
            loc@.len() as int,
        ));
    }
    match &loc.segs[from] {
        PathSeg::Index(i) => match d {
            Document::Array(items) => {
                proof {
                    lemma_arr_views(items@);
                }
                if *i < items.len() {
                    get_at(&items[*i], loc, from + 1)
                } else {
                    Option::None
                }
            },
            _ => Option::None,
        },
        PathSeg::Key(k) => match d {
            Document::Object(entries) => {
                proof {
                    lemma_obj_views(entries@);
                    lemma_obj_key_index(obj_views(entries@), k@);
                }
                let n = entries.len();
                for j in 0..n
                    invariant
                        forall|m: int| 0 <= m < j ==> obj_views(entries@)[m].0 != k@,
                {
                    proof {
                        lemma_obj_views(entries@);
                        lemma_obj_key_index(obj_views(entries@), k@);
                    }
                    if entries[j].0 == *k {
                        proof {
                            assert(obj_views(entries@)[j as int].0 == k@);
                            assert(obj_key_index(obj_views(entries@), k@) == j as int);
                        }
                        return get_at(&entries[j].1, loc, from + 1);
                    }
                    proof {
                        assert(obj_views(entries@)[j as int].0 != k@);
                    }
                }
                proof {
                    assert(obj_key_index(obj_views(entries@), k@) == obj_views(
                        entries@,
                    ).len() as int);
                }
                Option::None
            },
            _ => Option::None,
        },
    }
}

/// The document with the node addressed by `loc`'s segments from position
/// `from` on replaced by `v`; unchanged when the path does not resolve.
#[verifier::loop_isolation(false)]
pub fn with_set(d: Document, loc: &Location, from: usize, v: Document) -> (r: Document)
    requires
        from <= loc.segs@.len(),
    ensures
        r@ == doc_set(d@, loc@.subrange(from as int, loc@.len() as int), v@),
    decreases loc.segs@.len() - from,
{
    let ghost p = loc@.subrange(from as int, loc@.len() as int);
    if from == loc.segs.len() {
        proof {
            assert(p.len() == 0);
        }
        return v;
    }
    proof {
        assert(p[0] == loc@[from as int]);
        assert(p.subrange(1, p.len() as int) =~= loc@.subrange(
            from as int + 1,
            loc@.len() as int,
        ));
    }
    match &loc.segs[from] {
        PathSeg::Index(i) => match d {
            Document::Array(mut items) => {
                proof {
                    lemma_arr_views(items@);
                }
                if *i < items.len() {
                    let ghost before = items@;
                    let old_elem = items.remove(*i);
                    let new_elem = with_set(old_elem, loc, from + 1, v);
                    items.insert(*i, new_elem);
                    proof {
                        assert(items@ =~= before.update(*i as int, new_elem));
                        lemma_arr_views(items@);
                        assert(arr_views(items@) =~= arr_views(before).update(
                            *i as int,
                            new_elem@,
                        ));
                    }
                    Document::Array(items)
                } else {
                    Document::Array(items)
                }
            },
            other => {
                proof {
                    assert(doc_set(other@, p, v@) == other@);
                }
                other
            },
        },
        PathSeg::Key(k) => match d {
            Document::Object(mut entries) => {
                proof {
                    lemma_obj_views(entries@);
                    lemma_obj_key_index(obj_views(entries@), k@);
                }
                let n = entries.len();
                for j in 0..n
                    invariant
                        entries@.len() == n,
                        entries@ == d->Object_0@,
                        forall|m: int| 0 <= m < j ==> obj_views(entries@)[m].0 != k@,
                {
                    proof {
                        lemma_obj_views(entries@);
                        lemma_obj_key_index(obj_views(entries@), k@);
                    }
                    if entries[j].0 == *k {
                        proof {
                            assert(obj_views(entries@)[j as int].0 == k@);
                            assert(obj_key_index(obj_views(entries@), k@) == j as int);
                        }
                        let ghost before = entries@;
                        let (key, old_elem) = entries.remove(j);
                        let new_elem = with_set(old_elem, loc, from + 1, v);
                        entries.insert(j, (key, new_elem));
                        proof {
                            lemma_obj_views(before);
                            assert(d@ == DocView::Obj(obj_views(before)));
                            assert(entries@ =~= before.update(j as int, (before[j as int].0,
                                new_elem)));
                            lemma_obj_views(entries@);
                            assert(obj_views(before)[j as int].1 == doc_view(before[j as int].1));
                            assert(new_elem@ == doc_set(obj_views(before)[j as int].1, p.subrange(
                                1, p.len() as int), v@));
                            assert(obj_views(entries@) =~= obj_views(before).update(
                                j as int,
                                (obj_views(before)[j as int].0, new_elem@),
                            ));
                            assert(doc_set(d@, p, v@) == DocView::Obj(obj_views(before).update(
                                j as int,
                                (obj_views(before)[j as int].0, new_elem@),
                            )));
                        }
                        return Document::Object(entries);
                    }
                    proof {
                        assert(obj_views(entries@)[j as int].0 != k@);
                    }
                }
                proof {
                    lemma_obj_views(entries@);
                    lemma_obj_key_index(obj_views(entries@), k@);
                    let idx = obj_key_index(obj_views(entries@), k@);
                    if idx < obj_views(entries@).len() {
                        assert(obj_views(entries@)[idx].0 == k@);
                        assert(false);
                    }
                    assert(doc_set(d@, p, v@) == d@);
                }
                Document::Object(entries)
            },
            other => {
                proof {
                    assert(doc_set(other@, p, v@) == other@);
                }
                other
            },
        },
    }
}

} // verus!
