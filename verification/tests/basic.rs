use xcept::context::CatchAllContext;
use xcept::context::HandlerContext;
use xcept::context::HandlingScopes;
use xcept::context::ScopeNode;
use xcept::context::{pop_handling_scope, push_handling_scope};
use xcept::Result;
use xcept::TypeTag;

#[test]
fn error_without_scopes() {
    let mut scopes = HandlingScopes::new();
    let res: Result<i32> = Result::new_error(&mut scopes, true);
    assert!(res.is_error());
}

#[test]
fn value_round_trip() {
    let x = Result::new(10);
    assert!(x.is_ok());
    assert!(!x.is_error());
    assert_eq!(x.unwrap(), 10);

    let y: Result<i32> = 7.into();
    assert!(y.is_ok());
    assert_eq!(y.ok(), Some(7));

    let z = Result::new(String::from("text"));
    assert_eq!(z.unwrap_unchecked(), "text");
}

#[test]
fn error_id_accessors() {
    let ok = Result::new(3);
    assert_eq!(ok.error_id(), None);

    let err: Result<i32> = Result::new_with_error_id(42);
    assert!(err.is_error());
    assert_eq!(err.error_id(), Some(42));
    assert_eq!(err.unchecked_error_id(), 42);
    assert_eq!(err.ok(), None);
}

#[test]
fn tokens_are_distinct() {
    let mut scopes = HandlingScopes::new();
    let a: Result<i32> = Result::new_error(&mut scopes, 1);
    let b: Result<i32> = Result::new_error(&mut scopes, String::from("e"));
    let c: Result<i32> = Result::new_error(&mut scopes, false);
    let ia = a.error_id().expect("error state");
    let ib = b.error_id().expect("error state");
    let ic = c.error_id().expect("error state");
    assert_ne!(ia, ib);
    assert_ne!(ib, ic);
    assert_ne!(ia, ic);
    assert_eq!(ia, 1);
    assert_eq!(ib, 2);
    assert_eq!(ic, 3);
}

#[test]
fn from_result_adapts() {
    let mut scopes = HandlingScopes::new();
    let good: core::result::Result<i32, bool> = Ok(9);
    let r = Result::from_result(&mut scopes, good);
    assert_eq!(r.unwrap(), 9);

    let bad: core::result::Result<i32, bool> = Err(true);
    let r = Result::from_result(&mut scopes, bad);
    assert!(r.is_error());
}

#[test]
fn later_report_overwrites_storage() {
    let mut scopes = HandlingScopes::new();
    let storage = xcept::context::SingleErrorStorage::new(TypeTag::Flag);
    let node = ScopeNode::new(HandlerContext::Single(storage));
    let guard = push_handling_scope(&mut scopes, node);

    let first: Result<i32> = Result::new_error(&mut scopes, true);
    let second: Result<i32> = Result::new_error(&mut scopes, false);

    let node = pop_handling_scope(&mut scopes, guard);
    match node.context {
        HandlerContext::Single(st) => match st.captured {
            Some((id, xcept::ErrorValue::Flag(b))) => {
                assert_eq!(Some(id), second.error_id());
                assert_ne!(Some(id), first.error_id());
                assert!(!b);
            }
            _ => panic!("storage must hold the second report"),
        },
        _ => panic!("context kind changed while registered"),
    }
}

#[test]
fn guard_restores_depth() {
    let mut scopes = HandlingScopes::new();
    assert_eq!(scopes.depth(), 0);
    let node = ScopeNode::new(HandlerContext::CatchAll(CatchAllContext { inner: None }));
    let guard = push_handling_scope(&mut scopes, node);
    assert_eq!(scopes.depth(), 1);

    let r: Result<i32> = Result::new_error(&mut scopes, 5);
    assert!(r.is_error());

    let node = pop_handling_scope(&mut scopes, guard);
    assert_eq!(scopes.depth(), 0);
    match node.context {
        HandlerContext::CatchAll(c) => {
            let (id, tag) = c.inner.expect("catch-all records identity");
            assert_eq!(Some(id), r.error_id());
            assert_eq!(tag, TypeTag::Int);
        }
        _ => panic!("context kind changed while registered"),
    }
}
