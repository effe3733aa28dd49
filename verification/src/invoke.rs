//! Invocation nodes: single-entry objects whose key wraps a handler name in
//! the fixed `%{` ... `}%` markers.

use vstd::prelude::*;
use vstd::string::StrSliceExecFns;
use crate::doc::{lemma_obj_views, obj_views, DocView, Document};

verus! {

/// A key that invokes a handler: at least one character of name framed by
/// the two-character open marker `%{` and close marker `}%`.
pub open spec fn is_invocation_key(k: Seq<char>) -> bool {
    &&& k.len() >= 5
    &&& k[0] == '%'
    &&& k[1] == '{'
    &&& k[k.len() - 2] == '}'
    &&& k[k.len() - 1] == '%'
}

/// The handler name carried by an invocation key: what stands between the
/// markers, verbatim.
pub open spec fn invocation_name(k: Seq<char>) -> Seq<char> {
    k.subrange(2, k.len() - 2)
}

/// An invocation key always wraps a name of at least one character: the
/// name between the markers is used verbatim for the lookup, never empty.
pub proof fn lemma_invocation_name_nonempty(k: Seq<char>)
    requires
        is_invocation_key(k),
    ensures
        invocation_name(k).len() >= 1,
{
}

/// An invocation node: an object with exactly one entry whose key matches
/// the marker pattern. Arrays and scalars never qualify.
pub open spec fn is_invocation(d: DocView) -> bool {
    &&& d is Obj
    &&& d->Obj_0.len() == 1
    &&& is_invocation_key(d->Obj_0[0].0)
}

/// Whether a key string matches the marker pattern.
pub fn key_is_marker(k: &str) -> (b: bool)
    ensures
        b == is_invocation_key(k@),
{
    let n = k.unicode_len();
    if n < 5 {
        return false;
    }
    if k.get_char(0) != '%' {
        return false;
    }
    if k.get_char(1) != '{' {
        return false;
    }
    if k.get_char(n - 2) != '}' {
        return false;
    }
    k.get_char(n - 1) == '%'
}

/// A parsed invocation: the handler name between the markers, and the
/// argument value to hand to the handler.
pub struct MacroCall {
    /// The handler's name.
    pub name: String,
    /// The argument value passed to the handler.
    pub args: Document,
}

/// Parses an invocation node into its handler name and a copy of its
/// argument value; `None` exactly when the node is no invocation.
pub fn parse_macro_call(node: &Document) -> (r: Option<MacroCall>)
    ensures
        r is Some <==> is_invocation(node@),
        r is Some ==> r->0.name@ == invocation_name(node@->Obj_0[0].0),
        r is Some ==> r->0.args@ == node@->Obj_0[0].1,
{
    match node {
        Document::Object(entries) => {
            proof {
                lemma_obj_views(entries@);
            }
            if entries.len() != 1 {
                return Option::None;
            }
            let key: &String = &entries[0].0;
            if !key_is_marker(key.as_str()) {
                return Option::None;
            }
            let n = key.as_str().unicode_len();
            let name = key.as_str().substring_char(2, n - 2).to_owned();
            let args = entries[0].1.deep_copy();
            proof {
                assert(node@->Obj_0[0].0 == entries@[0].0@);
                assert(node@->Obj_0[0].1 == entries@[0].1@);
            }
            Option::Some(MacroCall { name, args })
        },
        _ => Option::None,
    }
}

} // verus!
