use std::cell::Cell;
use std::rc::Rc;

use schema_expand::doc::Document;
use schema_expand::engine::expand;
use schema_expand::invoke::parse_macro_call;
use schema_expand::locate::find_macro_invocations;
use schema_expand::path::{Location, PathSeg};
use schema_expand::registry::{ExpandError, Handler, HandlerFailure, Registry};

fn text(s: &str) -> Document {
    Document::Text(String::from(s))
}

fn entry(k: &str, v: Document) -> (String, Document) {
    (String::from(k), v)
}

fn invocation(name: &str, arg: Document) -> Document {
    Document::Object(vec![(format!("%{{{}}}%", name), arg)])
}

struct Uppercase;

impl Handler for Uppercase {
    fn call(&self, arg: &Document) -> Result<Document, HandlerFailure> {
        match arg {
            Document::Text(s) => Ok(Document::Text(s.to_uppercase())),
            _ => Err(HandlerFailure::Decode(String::from("expected a string"))),
        }
    }
}

#[test]
fn scenario_uppercase_in_place() {
    let mut registry: Registry<Uppercase> = Registry::new();
    registry.register(String::from("uppercase"), Uppercase).unwrap();
    let doc = Document::Object(vec![entry("message", invocation("uppercase", text("hi")))]);
    let out = expand(doc, &registry).unwrap();
    let expected = Document::Object(vec![entry("message", text("HI"))]);
    assert!(out.deep_eq(&expected));
}

struct FetchMessage;

impl Handler for FetchMessage {
    fn call(&self, arg: &Document) -> Result<Document, HandlerFailure> {
        match arg {
            Document::Null => Ok(text("Hello, world!")),
            _ => Err(HandlerFailure::Decode(String::from("expected null"))),
        }
    }
}

#[test]
fn scenario_whole_document_invocation() {
    let mut registry: Registry<FetchMessage> = Registry::new();
    registry.register(String::from("fetchMessage"), FetchMessage).unwrap();
    let doc = invocation("fetchMessage", Document::Null);
    let out = expand(doc, &registry).unwrap();
    assert!(out.deep_eq(&text("Hello, world!")));
}

#[test]
fn scenario_unknown_handler() {
    let registry: Registry<Uppercase> = Registry::new();
    let doc = Document::Object(vec![entry("message", invocation("uppercase", text("hi")))]);
    let err = expand(doc, &registry).unwrap_err();
    match err {
        ExpandError::UnknownHandler(name) => assert_eq!(name, "uppercase"),
        _ => panic!("expected an unknown-handler error"),
    }
}

#[test]
fn duplicate_registration_is_rejected() {
    let mut registry: Registry<Uppercase> = Registry::new();
    registry.register(String::from("uppercase"), Uppercase).unwrap();
    let err = registry.register(String::from("uppercase"), Uppercase).unwrap_err();
    match err {
        ExpandError::DuplicateHandler(name) => assert_eq!(name, "uppercase"),
        _ => panic!("expected a duplicate-handler error"),
    }
    assert!(registry.resolve(&String::from("uppercase")).is_some());
    assert!(registry.resolve(&String::from("lowercase")).is_none());
}

#[test]
fn expansion_without_invocations_is_identity() {
    let registry: Registry<Uppercase> = Registry::new();
    let doc = Document::Object(vec![
        entry("a", Document::Int(3)),
        entry(
            "b",
            Document::Array(vec![Document::Null, Document::Bool(true), text("x")]),
        ),
    ]);
    let copy = doc.deep_copy();
    let out = expand(doc, &registry).unwrap();
    assert!(out.deep_eq(&copy));
}

enum Snapshotting {
    Inner,
    Outer(Rc<Cell<bool>>),
}

impl Handler for Snapshotting {
    fn call(&self, arg: &Document) -> Result<Document, HandlerFailure> {
        match self {
            Snapshotting::Inner => match arg {
                Document::Int(n) => Ok(Document::Int(n + 1)),
                _ => Err(HandlerFailure::Decode(String::from("expected a number"))),
            },
            Snapshotting::Outer(saw_unexpanded) => {
                // The argument must be the unexpanded inner invocation read
                // from the snapshot, not the inner handler's output.
                if let Document::Object(entries) = arg {
                    if entries.len() == 1 && entries[0].0 == "%{inner}%" {
                        saw_unexpanded.set(true);
                    }
                }
                Ok(arg.deep_copy())
            }
        }
    }
}

#[test]
fn outer_handler_reads_the_snapshot() {
    let saw = Rc::new(Cell::new(false));
    let mut registry: Registry<Snapshotting> = Registry::new();
    registry.register(String::from("inner"), Snapshotting::Inner).unwrap();
    registry
        .register(String::from("outer"), Snapshotting::Outer(saw.clone()))
        .unwrap();
    let doc = invocation("outer", invocation("inner", Document::Int(1)));
    let out = expand(doc, &registry).unwrap();
    // The outer handler saw `{"%{inner}%": 1}`, not `2`, and its result
    // (the argument handed back unchanged) overwrote the root last.
    assert!(saw.get());
    assert!(out.deep_eq(&invocation("inner", Document::Int(1))));
}

enum FailFast {
    Bad,
    Count(Rc<Cell<u32>>),
}

impl Handler for FailFast {
    fn call(&self, arg: &Document) -> Result<Document, HandlerFailure> {
        match self {
            FailFast::Bad => Err(HandlerFailure::Decode(String::from("bad argument shape"))),
            FailFast::Count(calls) => {
                calls.set(calls.get() + 1);
                Ok(arg.deep_copy())
            }
        }
    }
}

#[test]
fn first_failure_stops_the_run() {
    let calls = Rc::new(Cell::new(0));
    let mut registry: Registry<FailFast> = Registry::new();
    registry.register(String::from("bad"), FailFast::Bad).unwrap();
    registry
        .register(String::from("count"), FailFast::Count(calls.clone()))
        .unwrap();
    let doc = Document::Object(vec![
        entry("a", invocation("bad", Document::Null)),
        entry("b", invocation("count", Document::Null)),
    ]);
    let err = expand(doc, &registry).unwrap_err();
    match err {
        ExpandError::ArgumentDecodeError(m) => assert_eq!(m, "bad argument shape"),
        _ => panic!("expected an argument-decode error"),
    }
    assert_eq!(calls.get(), 0);
}

#[test]
fn discovery_is_idempotent() {
    let doc = Document::Object(vec![
        entry("a", invocation("one", Document::Null)),
        entry(
            "b",
            Document::Array(vec![Document::Int(1), invocation("two", text("x"))]),
        ),
    ]);
    let first = find_macro_invocations(&doc);
    let second = find_macro_invocations(&doc);
    assert_eq!(first, second);
}

#[test]
fn discovery_finds_every_invocation() {
    // Three invocations: one nested inside another's argument, one in an
    // array; a two-entry object with a marker key is not an invocation.
    let doc = Document::Object(vec![
        entry("a", invocation("outer", invocation("inner", Document::Null))),
        entry("b", Document::Array(vec![invocation("third", Document::Null)])),
        entry(
            "c",
            Document::Object(vec![
                entry("%{not_alone}%", Document::Null),
                entry("extra", Document::Null),
            ]),
        ),
    ]);
    let locs = find_macro_invocations(&doc);
    assert_eq!(locs.len(), 3);
}

#[test]
fn nested_invocation_comes_first() {
    let doc = Document::Object(vec![entry(
        "p",
        invocation("outer", invocation("inner", Document::Int(1))),
    )]);
    let locs = find_macro_invocations(&doc);
    assert_eq!(locs.len(), 2);
    let inner = Location {
        segs: vec![
            PathSeg::Key(String::from("p")),
            PathSeg::Key(String::from("%{outer}%")),
        ],
    };
    let outer = Location {
        segs: vec![PathSeg::Key(String::from("p"))],
    };
    assert_eq!(locs[0], inner);
    assert_eq!(locs[1], outer);
}

#[test]
fn empty_document_has_no_invocations() {
    let locs = find_macro_invocations(&Document::Object(vec![]));
    assert_eq!(locs.len(), 0);
    let locs = find_macro_invocations(&Document::Null);
    assert_eq!(locs.len(), 0);
}

#[test]
fn marker_needs_a_nonempty_name() {
    // `%{}%` wraps an empty name and is not an invocation key.
    let empty_name = Document::Object(vec![entry("%{}%", Document::Null)]);
    assert_eq!(find_macro_invocations(&empty_name).len(), 0);
    assert!(parse_macro_call(&empty_name).is_none());

    let named = invocation("x", Document::Null);
    let call = parse_macro_call(&named).unwrap();
    assert_eq!(call.name, "x");
    assert!(call.args.deep_eq(&Document::Null));
}
