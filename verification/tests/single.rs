use xcept::context::HandlingScopes;
use xcept::Result;

#[test]
fn try_or_handle_one() {
    let scopes = HandlingScopes::new();
    let func = |mut s: HandlingScopes| {
        let r: Result<i32> = Result::new_error(&mut s, true);
        (s, r)
    };
    let (scopes, x) = xcept::try_or_handle_one(scopes, func, |s, _e: bool| (s, 1.into()));
    assert_eq!(x.unwrap(), 1);

    let two_errors = |mut s: HandlingScopes| {
        let _first: Result<i32> = Result::new_error(&mut s, true);
        let r: Result<i32> = Result::new_error(&mut s, 10);
        (s, r)
    };
    let mut called = false;
    let (_scopes, x) = xcept::try_or_handle_one(scopes, two_errors, |s, _e: bool| {
        called = true;
        (s, 2.into())
    });
    assert!(!called);
    assert!(x.is_error());
}

#[test]
fn stale_first_report_is_unhandled() {
    let scopes = HandlingScopes::new();
    let func = |mut s: HandlingScopes| {
        let first: Result<i32> = Result::new_error(&mut s, true);
        let _second: Result<i32> = Result::new_error(&mut s, false);
        (s, first)
    };
    let mut called = false;
    let (_scopes, x) = xcept::try_or_handle_one(scopes, func, |s, _e: bool| {
        called = true;
        (s, 2.into())
    });
    assert!(!called);
    assert!(x.is_error());
}

#[test]
fn handler_doubles_reported_value() {
    let scopes = HandlingScopes::new();
    let func = |mut s: HandlingScopes| {
        let r: Result<i32> = Result::new_error(&mut s, 5);
        (s, r)
    };
    let (_scopes, x) = xcept::try_or_handle_one(scopes, func, |s, e: i32| (s, (e * 2).into()));
    assert_eq!(x.unwrap(), 10);
}

#[test]
fn mismatched_type_is_untouched() {
    let scopes = HandlingScopes::new();
    let func = |mut s: HandlingScopes| {
        let r: Result<i32> = Result::new_error(&mut s, String::from("x"));
        (s, r)
    };
    let mut called = false;
    let (_scopes, x) = xcept::try_or_handle_one(scopes, func, |s, _e: i32| {
        called = true;
        (s, 0.into())
    });
    assert!(!called);
    assert!(x.is_error());
    assert!(x.error_id().is_some());
}

#[test]
fn nested_scopes_resolve_outermost() {
    let scopes = HandlingScopes::new();
    let outer_func = |s: HandlingScopes| {
        let inner_func = |mut s2: HandlingScopes| {
            let r: Result<i32> = Result::new_error(&mut s2, 7);
            (s2, r)
        };
        let mut inner_called = false;
        let (s, r) = xcept::try_or_handle_one(s, inner_func, |s3, _e: bool| {
            inner_called = true;
            (s3, 0.into())
        });
        assert!(!inner_called);
        (s, r)
    };
    let (s_after, x) = xcept::try_or_handle_one(scopes, outer_func, |s, e: i32| (s, (e + 1).into()));
    assert_eq!(x.unwrap(), 8);
    assert_eq!(s_after.depth(), 0);
}

#[test]
fn value_passes_through_untouched() {
    let scopes = HandlingScopes::new();
    let mut called = false;
    let (s_after, x) = xcept::try_or_handle_one(scopes, |s: HandlingScopes| (s, 11.into()), |s, _e: bool| {
        called = true;
        (s, 0.into())
    });
    assert!(!called);
    assert_eq!(x.unwrap(), 11);
    assert_eq!(s_after.depth(), 0);
}
