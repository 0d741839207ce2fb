use std::cell::RefCell;
use xcept::context::HandlingScopes;
use xcept::multihandler::builder;
use xcept::Result;

fn handler1(s: HandlingScopes, e: i32) -> (HandlingScopes, Result<i32>) {
    (s, (e * 2).into())
}

fn handler2(s: HandlingScopes, _e: String) -> (HandlingScopes, Result<i32>) {
    (s, (-1).into())
}

fn handler3(mut s: HandlingScopes, _e: bool) -> (HandlingScopes, Result<i32>) {
    let r = Result::new_error(&mut s, String::from("Bool not supported!"));
    (s, r)
}

#[test]
fn multi_handlers() {
    let handlers = builder(handler1).handle(handler2).handle(handler3).build();
    let scopes = HandlingScopes::new();

    let (scopes, res) = xcept::try_or_handle(scopes, |s: HandlingScopes| (s, 10.into()), handlers.clone());
    assert_eq!(res.unwrap(), 10);

    let report_int = |mut s: HandlingScopes| {
        let r: Result<i32> = Result::new_error(&mut s, 15);
        (s, r)
    };
    let (scopes, res) = xcept::try_or_handle(scopes, report_int, handlers.clone());
    assert_eq!(res.unwrap(), 30);

    let report_text = |mut s: HandlingScopes| {
        let r: Result<i32> = Result::new_error(&mut s, String::from("should be -1"));
        (s, r)
    };
    let (scopes, res) = xcept::try_or_handle(scopes, report_text, handlers.clone());
    assert_eq!(res.unwrap(), -1);

    let report_flag = |mut s: HandlingScopes| {
        let r: Result<i32> = Result::new_error(&mut s, false);
        (s, r)
    };
    let (_scopes, res) = xcept::try_or_handle(scopes, report_flag, handlers.clone());
    assert_eq!(res.is_error(), true);
}

#[test]
fn multi_handlers_with_refs() {
    let which = RefCell::new(0);
    let handlers = builder(|s: HandlingScopes, _: i32| {
        *which.borrow_mut() = 1;
        (s, Result::new(1))
    })
    .handle(|s: HandlingScopes, _: String| {
        *which.borrow_mut() = 2;
        (s, Result::new(2))
    })
    .build();

    let scopes = HandlingScopes::new();
    let report_int = |mut s: HandlingScopes| {
        let r: Result<i32> = Result::new_error(&mut s, 0);
        (s, r)
    };
    let (scopes, res) = xcept::try_or_handle(scopes, report_int, handlers.clone());
    assert_eq!(res.unwrap(), 1);
    assert_eq!(*which.borrow(), 1);

    let report_text = |mut s: HandlingScopes| {
        let r: Result<i32> = Result::new_error(&mut s, String::from("hello"));
        (s, r)
    };
    let (_scopes, res) = xcept::try_or_handle(scopes, report_text, handlers.clone());
    assert_eq!(res.unwrap(), 2);
    assert_eq!(*which.borrow(), 2);
}

#[test]
fn undeclared_type_passes_through() {
    let handlers = builder(|s: HandlingScopes, e: i32| (s, (e * 2).into()))
        .handle(|s: HandlingScopes, _e: String| (s, (-1).into()))
        .build();
    let scopes = HandlingScopes::new();
    let report_flag = |mut s: HandlingScopes| {
        let r: Result<i32> = Result::new_error(&mut s, true);
        (s, r)
    };
    let (s_after, res) = xcept::try_or_handle(scopes, report_flag, handlers);
    assert!(res.is_error());
    assert_eq!(s_after.depth(), 0);
}

#[test]
fn duplicate_type_earlier_handler_wins() {
    let handlers = builder(|s: HandlingScopes, e: i32| (s, (e + 1).into()))
        .handle(|s: HandlingScopes, e: i32| (s, (e + 100).into()))
        .build();
    let scopes = HandlingScopes::new();
    let report_int = |mut s: HandlingScopes| {
        let r: Result<i32> = Result::new_error(&mut s, 1);
        (s, r)
    };
    let (_scopes, res) = xcept::try_or_handle(scopes, report_int, handlers);
    assert_eq!(res.unwrap(), 2);
}
