//! The document tree: a JSON-like value of nulls, booleans, integers,
//! strings, arrays and objects, together with its mathematical model.

use vstd::prelude::*;

verus! {

/// Mathematical model of a document node. Objects are modelled as the
/// sequence of their entries, in the object's own entry order, so that entry
/// order (which discovery depends on) is part of the model.
#[verifier::ext_equal]
pub enum DocView {
    Null,
    Bool(bool),
    Int(i64),
    Text(Seq<char>),
    Arr(Seq<DocView>),
    Obj(Seq<(Seq<char>, DocView)>),
}

/// A document node: a JSON-like tree. An object keeps its entries in
/// insertion order as a list of key/value pairs; well-formed documents
/// (see [`doc_wf`]) never repeat a key within one object.
#[derive(Debug)]
pub enum Document {
    Null,
    Bool(bool),
    Int(i64),
    Text(String),
    Array(Vec<Document>),
    Object(Vec<(String, Document)>),
}

/// The model of a document node.
pub open spec fn doc_view(d: Document) -> DocView
    decreases d, 1int,
{
    match d {
        Document::Null => DocView::Null,
        Document::Bool(b) => DocView::Bool(b),
        Document::Int(n) => DocView::Int(n),
        Document::Text(s) => DocView::Text(s@),
        Document::Array(items) => DocView::Arr(arr_views(items@)),
        Document::Object(entries) => DocView::Obj(obj_views(entries@)),
    }
}

/// Models of the elements of an array, in order.
pub open spec fn arr_views(s: Seq<Document>) -> Seq<DocView>
    decreases s, 0int,
{
    if s.len() == 0 {
        Seq::empty()
    } else {
        seq![doc_view(s[0])] + arr_views(s.subrange(1, s.len() as int))
    }
}

/// Models of the entries of an object, in order.
pub open spec fn obj_views(s: Seq<(String, Document)>) -> Seq<(Seq<char>, DocView)>
    decreases s, 0int,
{
    if s.len() == 0 {
        Seq::empty()
    } else {
        seq![(s[0].0@, doc_view(s[0].1))] + obj_views(s.subrange(1, s.len() as int))
    }
}

pub broadcast proof fn lemma_arr_views(s: Seq<Document>)
    ensures
        (#[trigger] arr_views(s)).len() == s.len(),
        forall|i: int| 0 <= i < s.len() ==> #[trigger] arr_views(s)[i] == doc_view(s[i]),
    decreases s.len(),
{
    if s.len() > 0 {
        lemma_arr_views(s.subrange(1, s.len() as int));
        assert forall|i: int| 0 <= i < s.len() implies #[trigger] arr_views(s)[i] == doc_view(
            s[i],
        ) by {
            if i > 0 {
                assert(s.subrange(1, s.len() as int)[i - 1] == s[i]);
            }
        }
    }
}

pub broadcast proof fn lemma_obj_views(s: Seq<(String, Document)>)
    ensures
        (#[trigger] obj_views(s)).len() == s.len(),
        forall|i: int|
            0 <= i < s.len() ==> #[trigger] obj_views(s)[i] == (s[i].0@, doc_view(s[i].1)),
    decreases s.len(),
{
    if s.len() > 0 {
        lemma_obj_views(s.subrange(1, s.len() as int));
        assert forall|i: int| 0 <= i < s.len() implies #[trigger] obj_views(s)[i] == (
            s[i].0@,
            doc_view(s[i].1),
        ) by {
            if i > 0 {
                assert(s.subrange(1, s.len() as int)[i - 1] == s[i]);
            }
        }
    }
}

impl View for Document {
    type V = DocView;

    open spec fn view(&self) -> DocView {
        doc_view(*self)
    }
}

/// Well-formedness: within every object of the tree, keys are pairwise
/// distinct, as the ordered-unique-keyed data model demands.
pub open spec fn doc_wf(d: DocView) -> bool
    decreases d,
{
    match d {
        DocView::Arr(items) => forall|i: int| 0 <= i < items.len() ==> doc_wf(#[trigger] items[i]),
        DocView::Obj(entries) => {
            &&& forall|i: int, j: int|
                0 <= i < j < entries.len() ==> (#[trigger] entries[i]).0 != (
                #[trigger] entries[j]).0
            &&& forall|i: int| 0 <= i < entries.len() ==> doc_wf((#[trigger] entries[i]).1)
        },
        _ => true,
    }
}

impl Document {
    /// Deep structural equality: true exactly when the two trees have the
    /// same model.
    #[verifier::loop_isolation(false)]
    pub fn deep_eq(&self, other: &Document) -> (r: bool)
        ensures
            r == (self@ == other@),
        decreases self,
    {
        match self {
            Document::Null => match other {
                Document::Null => true,
                _ => false,
            },
            Document::Bool(a) => match other {
                Document::Bool(b) => *a == *b,
                _ => false,
            },
            Document::Int(a) => match other {
                Document::Int(b) => *a == *b,
                _ => false,
            },
            Document::Text(a) => match other {
                Document::Text(b) => *a == *b,
                _ => false,
            },
            Document::Array(xs) => match other {
                Document::Array(ys) => {
                    if xs.len() != ys.len() {
                        proof {
                            lemma_arr_views(xs@);
                            lemma_arr_views(ys@);
                        }
                        return false;
                    }
                    let n = xs.len();
                    for i in 0..n
                        invariant
                            forall|j: int| 0 <= j < i ==> doc_view(xs@[j]) == doc_view(ys@[j]),
                    {
                        if !xs[i].deep_eq(&ys[i]) {
                            proof {
                                lemma_arr_views(xs@);
                                lemma_arr_views(ys@);
                                assert(arr_views(xs@)[i as int] != arr_views(ys@)[i as int]);
                            }
                            return false;
                        }
                    }
                    proof {
                        lemma_arr_views(xs@);
                        lemma_arr_views(ys@);
                        assert(arr_views(xs@) =~= arr_views(ys@));
                    }
                    true
                },
                _ => false,
            },
            Document::Object(xs) => match other {
                Document::Object(ys) => {
                    if xs.len() != ys.len() {
                        proof {
                            lemma_obj_views(xs@);
                            lemma_obj_views(ys@);
                        }
                        return false;
                    }
                    let n = xs.len();
                    for i in 0..n
                        invariant
                            forall|j: int|
                                0 <= j < i ==> xs@[j].0@ == ys@[j].0@ && doc_view(xs@[j].1)
                                    == doc_view(ys@[j].1),
                    {
                        if !(xs[i].0 == ys[i].0) {
                            proof {
                                lemma_obj_views(xs@);
                                lemma_obj_views(ys@);
                                assert(obj_views(xs@)[i as int].0 != obj_views(ys@)[i as int].0);
                            }
                            return false;
                        }
                        if !xs[i].1.deep_eq(&ys[i].1) {
                            proof {
                                lemma_obj_views(xs@);
                                lemma_obj_views(ys@);
                                assert(obj_views(xs@)[i as int].1 != obj_views(ys@)[i as int].1);
                            }
                            return false;
                        }
                    }
                    proof {
                        lemma_obj_views(xs@);
                        lemma_obj_views(ys@);
                        assert(obj_views(xs@) =~= obj_views(ys@));
                    }
                    true
                },
                _ => false,
            },
        }
    }

    /// A fresh tree with the same model, used to take the argument
    /// snapshot without aliasing the live document.
    #[verifier::loop_isolation(false)]
    pub fn deep_copy(&self) -> (r: Document)
        ensures
            r@ == self@,
        decreases self,
    {
        match self {
            Document::Null => Document::Null,
            Document::Bool(b) => Document::Bool(*b),
            Document::Int(n) => Document::Int(*n),
            Document::Text(s) => Document::Text(s.clone()),
            Document::Array(xs) => {
                let n = xs.len();
                let mut out: Vec<Document> = Vec::new();
                for i in 0..n
                    invariant
                        out@.len() == i,
                        forall|j: int| 0 <= j < i ==> doc_view(out@[j]) == doc_view(xs@[j]),
                {
                    out.push(xs[i].deep_copy());
                }
                proof {
                    lemma_arr_views(out@);
                    lemma_arr_views(xs@);
                    assert(arr_views(out@) =~= arr_views(xs@));
                }
                Document::Array(out)
            },
            Document::Object(xs) => {
                let n = xs.len();
                let mut out: Vec<(String, Document)> = Vec::new();
                for i in 0..n
                    invariant
                        out@.len() == i,
                        forall|j: int|
                            0 <= j < i ==> out@[j].0@ == xs@[j].0@ && doc_view(out@[j].1)
                                == doc_view(xs@[j].1),
                {
                    out.push((xs[i].0.clone(), xs[i].1.deep_copy()));
                }
                proof {
                    lemma_obj_views(out@);
                    lemma_obj_views(xs@);
                    assert(obj_views(out@) =~= obj_views(xs@));
                }
                Document::Object(out)
            },
        }
    }
}

} // verus!
