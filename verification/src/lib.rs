//! A scoped, strongly-typed error-propagation runtime.
//!
//! A call can report a typed error value without returning it through every
//! intermediate frame: the value is routed to the nearest active handler
//! declared for exactly that type, while the call itself returns a [`Result`]
//! carrying only an opaque token that correlates the two.
//!
//! The scope stack is an explicit value, threaded through the calls that use
//! it; pushes and pops are forced into strict LIFO order by [`context::PopScopeGuard`].

use vstd::prelude::*;

pub mod context;
pub mod multihandler;

use context::HandlingScopes;

verus! {

/// The runtime identity of an error type.
///
/// Reported errors are matched to handlers by exact tag equality; there is no
/// subtype or coercion matching.
#[derive(Clone, Copy, PartialEq, Eq, Structural, Debug)]
pub enum TypeTag {
    /// A signed 32-bit integer error.
    Int,
    /// An owned text error.
    Text,
    /// A boolean error.
    Flag,
}

/// A reported error value, tagged with its runtime type.
#[derive(Clone, Debug)]
pub enum ErrorValue {
    /// Payload of an `Int`-tagged error.
    Int(i32),
    /// Payload of a `Text`-tagged error.
    Text(String),
    /// Payload of a `Flag`-tagged error.
    Flag(bool),
}

impl ErrorValue {
    /// The tag describing this value's runtime type.
    pub open spec fn tag(self) -> TypeTag {
        match self {
            ErrorValue::Int(_) => TypeTag::Int,
            ErrorValue::Text(_) => TypeTag::Text,
            ErrorValue::Flag(_) => TypeTag::Flag,
        }
    }

    /// Computes the tag of this value.
    pub fn type_tag(&self) -> (t: TypeTag)
        ensures
            t == self.tag(),
    {
        match self {
            ErrorValue::Int(_) => TypeTag::Int,
            ErrorValue::Text(_) => TypeTag::Text,
            ErrorValue::Flag(_) => TypeTag::Flag,
        }
    }
}

/// An error-compatible type: one that can be carried through the reporting
/// protocol as a tagged [`ErrorValue`] and recovered on the handler side.
pub trait Error: Sized {
    /// The tag under which values of this type are reported.
    spec fn tag_of() -> TypeTag;

    /// The tagged value that `self` is reported as.
    spec fn as_value(self) -> ErrorValue;

    /// Computes the tag under which this type is reported.
    fn runtime_tag() -> (t: TypeTag)
        ensures
            t == Self::tag_of(),
    ;

    /// Wraps `self` into its tagged form.
    fn to_value(self) -> (v: ErrorValue)
        ensures
            v == self.as_value(),
            v.tag() == Self::tag_of(),
    ;

    /// Recovers a typed value from its tagged form.
    fn from_value(v: ErrorValue) -> (e: Self)
        requires
            v.tag() == Self::tag_of(),
        ensures
            e.as_value() == v,
    ;
}

/// The two-state result descriptor: a value, or an opaque error token.
///
/// Unlike `core::result::Result` it never owns an error payload: when an
/// error is reported, the payload goes straight to the accepting handler
/// context on the scope stack, and the result keeps only the token that
/// correlates the two.
pub struct Result<T> {
    /// The held value, or the token of the reported error.
    pub value: core::result::Result<T, u32>,
}

impl<T> View for Result<T> {
    type V = core::result::Result<T, u32>;

    open spec fn view(&self) -> core::result::Result<T, u32> {
        self.value
    }
}

/// A result holding the value `v`: what `Result::new(v)` builds.
pub open spec fn value_result<T>(v: T) -> Result<T> {
    Result { value: Ok(v) }
}

impl<T> Result<T> {
    /// A result holding `value`.
    pub fn new(value: T) -> (r: Result<T>)
        ensures
            r@ == Ok::<T, u32>(value),
            r == value_result(value),
    {
        Result { value: Ok(value) }
    }

    /// A result in the error state, carrying an already-allocated token.
    pub fn new_with_error_id(id: u32) -> (r: Result<T>)
        ensures
            r@ == Err::<T, u32>(id),
    {
        Result { value: Err(id) }
    }

    /// Reports `err` to the scope stack and wraps the allocated token.
    ///
    /// The error value itself is not held by the result: it now sits with the
    /// innermost accepting handler context, or has been dropped when no
    /// registered context accepts its type — in which case the token can
    /// never be resolved and unwrapping the result is ruled out.
    pub fn new_error<E: Error>(scopes: &mut HandlingScopes, err: E) -> (r: Result<T>)
        requires
            old(scopes)@.wf(),
        ensures
            r@ == Err::<T, u32>(context::report_token(old(scopes)@)),
            final(scopes)@ == context::report_state(old(scopes)@, err.as_value()),
            final(scopes)@.wf(),
    {
        let id = context::push_error(scopes, err);
        Result { value: Err(id) }
    }

    /// Whether this result holds a value.
    pub fn is_ok(&self) -> (b: bool)
        ensures
            b == (self@ is Ok),
    {
        self.value.is_ok()
    }

    /// The held value, if any.
    pub fn ok(self) -> (o: Option<T>)
        ensures
            match self@ {
                Ok(v) => o == Some(v),
                Err(_) => o is None,
            },
    {
        self.value.ok()
    }

    /// Whether this result is in the error state.
    pub fn is_error(&self) -> (b: bool)
        ensures
            b == (self@ is Err),
    {
        self.value.is_err()
    }

    /// The held value. A result carrying an error token cannot be unwrapped:
    /// its value is with a handler context or destroyed, so the attempt is
    /// ruled out statically.
    pub fn unwrap(self) -> (v: T)
        requires
            self@ is Ok,
        ensures
            v == self@->Ok_0,
    {
        self.value.unwrap()
    }

    /// The fast-path unwrap, for use once `is_ok` is already established;
    /// it performs no run-time check at all.
    pub fn unwrap_unchecked(self) -> (v: T)
        requires
            self@ is Ok,
        ensures
            v == self@->Ok_0,
    {
        match self.value {
            Ok(v) => v,
            Err(_) => vstd::pervasive::unreached(),
        }
    }

    /// The token of the reported error, if this result carries one.
    pub fn error_id(&self) -> (o: Option<u32>)
        ensures
            match self@ {
                Ok(_) => o is None,
                Err(id) => o == Some(id),
            },
    {
        match &self.value {
            Ok(_) => None,
            Err(x) => Some(*x),
        }
    }

    /// The fast-path token accessor, for use once `is_error` is already
    /// established; it performs no run-time check at all.
    pub fn unchecked_error_id(&self) -> (id: u32)
        requires
            self@ is Err,
        ensures
            id == self@->Err_0,
    {
        match &self.value {
            Err(x) => *x,
            Ok(_) => vstd::pervasive::unreached(),
        }
    }

    /// Adapts an ordinary result: a value stays a value, an error is
    /// reported to the scope stack as [`Result::new_error`] does.
    pub fn from_result<E: Error>(scopes: &mut HandlingScopes, res: core::result::Result<T, E>) -> (r: Result<T>)
        requires
            old(scopes)@.wf(),
        ensures
            final(scopes)@.wf(),
            match res {
                Ok(v) => {
                    &&& r@ == Ok::<T, u32>(v)
                    &&& final(scopes)@ == old(scopes)@
                },
                Err(e) => {
                    &&& r@ == Err::<T, u32>(context::report_token(old(scopes)@))
                    &&& final(scopes)@ == context::report_state(old(scopes)@, e.as_value())
                },
            },
    {
        match res {
            Ok(v) => Result::new(v),
            Err(e) => Result::new_error(scopes, e),
        }
    }
}

impl<T> From<T> for Result<T> {
    fn from(v: T) -> (r: Result<T>) {
        Result::new(v)
    }
}

impl<T> vstd::std_specs::convert::FromSpecImpl<T> for Result<T> {
    open spec fn obeys_from_spec() -> bool {
        true
    }

    open spec fn from_spec(v: T) -> Result<T> {
        value_result(v)
    }
}

/// A fresh single-type context for `tag`, as pushed by a single-handler
/// invocation.
pub open spec fn single_empty_frame(tag: TypeTag) -> context::ContextView {
    context::ContextView::Single(context::SingleErrorStorage { tag, captured: None })
}

/// What a single-type context has captured; nothing for other context kinds.
pub open spec fn single_captured(cv: context::ContextView) -> Option<(u32, ErrorValue)> {
    match cv {
        context::ContextView::Single(st) => st.captured,
        _ => None,
    }
}

/// How a single-handler invocation resolves the wrapped call's outcome,
/// given the scope-stack state `midv` at the moment the call returned (with
/// the invocation's own context innermost) and the call's result `mid`.
///
/// The handler fires exactly when the call's result carries the same token
/// as the last capture made by the invocation's own storage; the result is
/// then whatever the handler returns. In every other case — a value, no
/// capture, or a stale token — the context is simply discarded and the
/// call's result passes through untouched.
pub open spec fn single_resolution<T, E, H>(
    handler: H,
    midv: context::ScopesView,
    mid: Result<T>,
    r: (HandlingScopes, Result<T>),
) -> bool where E: Error, H: FnOnce(HandlingScopes, E) -> (HandlingScopes, Result<T>) {
    let popped = midv.pop_frame();
    match single_captured(midv.frames.last()) {
        Some((id, v)) => {
            if mid@ is Err && mid@->Err_0 == id {
                exists|s: HandlingScopes, e: E|
                    {
                        &&& s@ == popped
                        &&& e.as_value() == v
                        &&& #[trigger] call_ensures(handler, (s, e), r)
                    }
            } else {
                r.1 == mid && r.0@ == popped
            }
        },
        None => r.1 == mid && r.0@ == popped,
    }
}

/// The full contract of a single-handler invocation: for some behaviour of
/// the wrapped call consistent with its contract — run on the stack `pre`
/// with a fresh storage for `E` pushed innermost — the invocation's result
/// is the resolution of that behaviour.
pub open spec fn single_handled_outcome<T, E, F, H>(
    pre: context::ScopesView,
    func: F,
    handler: H,
    r: (HandlingScopes, Result<T>),
) -> bool where
    E: Error,
    F: FnOnce(HandlingScopes) -> (HandlingScopes, Result<T>),
    H: FnOnce(HandlingScopes, E) -> (HandlingScopes, Result<T>),
 {
    exists|s1: HandlingScopes, s2: HandlingScopes, mid: Result<T>|
        {
            &&& s1@ == pre.push_frame(single_empty_frame(E::tag_of()))
            &&& #[trigger] call_ensures(func, (s1,), (s2, mid))
            &&& single_resolution::<T, E, H>(handler, s2@, mid, r)
        }
}

/// Runs `func` with a fresh single-type storage for `E` pushed as the
/// innermost handler context, then resolves its result against that storage.
///
/// An error of type `E` reported during the call is captured innermost; if
/// the call's own result carries the token of the storage's (last) capture,
/// `handler` is invoked with the captured value and its return becomes the
/// invocation's result. Any other error — another type, an outer capture, or
/// a stale token from an overwritten report — falls through untouched: this
/// invocation never swallows what it cannot match. The context is popped
/// again on every path, so the stack leaves at its entry depth.
pub fn try_or_handle_one<T, E, F, H>(scopes: HandlingScopes, func: F, handler: H) -> (r: (
    HandlingScopes,
    Result<T>,
)) where
    E: Error,
    F: FnOnce(HandlingScopes) -> (HandlingScopes, Result<T>),
    H: FnOnce(HandlingScopes, E) -> (HandlingScopes, Result<T>),

    requires
        scopes@.wf(),
        forall|s: HandlingScopes| s@.wf() ==> #[trigger] call_requires(func, (s,)),
        forall|s: HandlingScopes, out: (HandlingScopes, Result<T>)|
            #[trigger] call_ensures(func, (s,), out) ==> context::scope_evolution(s@, out.0@),
        forall|s: HandlingScopes, e: E| s@.wf() ==> #[trigger] call_requires(handler, (s, e)),
    ensures
        single_handled_outcome::<T, E, F, H>(scopes@, func, handler, r),
{
    let ghost pre = scopes@;
    let storage = context::SingleErrorStorage::new(E::runtime_tag());
    let node = context::ScopeNode::new(context::HandlerContext::Single(storage));
    let ghost nodev = node@;
    let mut s = scopes;
    let guard = context::push_handling_scope(&mut s, node);
    proof {
        assert(nodev == single_empty_frame(E::tag_of()));
        assert forall|i: int| 0 <= i < s@.frames.len() implies (#[trigger] s@.frames[i]).wf() by {
            if i < pre.frames.len() {
                assert(s@.frames[i] == pre.frames[i]);
            }
        }
        assert(s@.wf());
    }
    let ghost s1g = s;
    let (s_mid, mid) = func(s);
    let ghost s2g = s_mid;
    let ghost midg = mid;
    let mut after = s_mid;
    let node_back = context::pop_handling_scope(&mut after, guard);
    let ghost poppedg = s2g@.pop_frame();
    proof {
        assert(context::scope_evolution(s1g@, s2g@));
        assert(s1g@.frames[pre.frames.len() as int] == nodev);
        assert(nodev.same_shape(s2g@.frames.last()));
        assert(node_back@ == s2g@.frames.last());
        assert(after@ == poppedg);
        assert forall|i: int| 0 <= i < poppedg.frames.len() implies (
        #[trigger] poppedg.frames[i]).wf() by {
            assert(poppedg.frames[i] == s2g@.frames[i]);
            assert(s2g@.wf());
        }
        assert(poppedg.wf());
    }
    if mid.is_error() {
        let tok = mid.unchecked_error_id();
        match node_back.context {
            context::HandlerContext::Single(st) => {
                proof {
                    assert(context::ContextView::Single(st) == s2g@.frames.last());
                    assert(single_captured(s2g@.frames.last()) == st.captured);
                }
                match st.captured {
                    Some(pair) => {
                        let (cid, cv) = pair;
                        if cid == tok {
                            proof {
                                assert(s2g@.frames.last().wf());
                                assert(cv.tag() == st.tag);
                                assert(st.tag == E::tag_of());
                            }
                            let e = E::from_value(cv);
                            let ghost s3g = after;
                            let ghost eg = e;
                            let out = handler(after, e);
                            proof {
                                assert(s3g@ == poppedg);
                                assert(call_ensures(handler, (s3g, eg), out));
                                assert(single_resolution::<T, E, H>(handler, s2g@, midg, out));
                                assert(call_ensures(func, (s1g,), (s2g, midg)));
                                assert(single_handled_outcome::<T, E, F, H>(pre, func, handler, out));
                            }
                            out
                        } else {
                            proof {
                                assert(single_resolution::<T, E, H>(handler, s2g@, midg, (after, midg)));
                            }
                            (after, mid)
                        }
                    },
                    None => {
                        proof {
                            assert(single_resolution::<T, E, H>(handler, s2g@, midg, (after, midg)));
                        }
                        (after, mid)
                    },
                }
            },
            _ => {
                proof {
                    assert(false);
                }
                vstd::pervasive::unreached()
            },
        }
    } else {
        proof {
            assert(single_resolution::<T, E, H>(handler, s2g@, midg, (after, midg)));
        }
        (after, mid)
    }
}

/// Runs `func` with a whole composite pushed as one innermost scope, then
/// resolves its result against the chain's captures; see
/// [`multihandler::try_or_handle`], which this forwards to.
pub fn try_or_handle<T, F, H>(scopes: HandlingScopes, func: F, handlers: H) -> (r: (
    HandlingScopes,
    Result<T>,
)) where
    F: FnOnce(HandlingScopes) -> (HandlingScopes, Result<T>),
    H: multihandler::TryHandle<Value = T>,

    requires
        scopes@.wf(),
        forall|s: HandlingScopes| s@.wf() ==> #[trigger] call_requires(func, (s,)),
        forall|s: HandlingScopes, out: (HandlingScopes, Result<T>)|
            #[trigger] call_ensures(func, (s,), out) ==> context::scope_evolution(s@, out.0@),
        forall|i: int, s: HandlingScopes, v: ErrorValue|
            0 <= i < handlers.tags().len() && s@.wf() && v.tag() == handlers.tags()[i]
                ==> #[trigger] handlers.handler_req(i, s, v),
    ensures
        multihandler::multi_handled_outcome::<T, F, H>(scopes@, func, handlers, r),
{
    multihandler::try_or_handle(scopes, func, handlers)
}

/// A result constructed from any value holds it: it is in the value state
/// and unwrapping yields exactly the value it was built from.
pub proof fn lemma_value_round_trip<T>(v: T)
    ensures
        value_result(v)@ is Ok,
        value_result(v)@->Ok_0 == v,
{
}

/// Single-handler match: when the wrapped call's result carries the very
/// token of the invocation's (last) capture, the handler is invoked — once,
/// with the captured value, on the popped stack — and the invocation's
/// result is exactly the handler's return.
pub proof fn lemma_single_handler_match<T, E, H>(
    handler: H,
    midv: context::ScopesView,
    mid: Result<T>,
    r: (HandlingScopes, Result<T>),
    id: u32,
    v: ErrorValue,
) where E: Error, H: FnOnce(HandlingScopes, E) -> (HandlingScopes, Result<T>)
    requires
        midv.frames.len() > 0,
        single_captured(midv.frames.last()) == Some((id, v)),
        mid@ == Err::<T, u32>(id),
        single_resolution::<T, E, H>(handler, midv, mid, r),
    ensures
        exists|s: HandlingScopes, e: E|
            {
                &&& s@ == midv.pop_frame()
                &&& e.as_value() == v
                &&& #[trigger] call_ensures(handler, (s, e), r)
            },
{
}

/// Single-handler stale token: when the wrapped call's result carries a
/// token other than the one of the storage's capture — for instance the
/// first of two reports of the handled type, whose pair was overwritten by
/// the second — the handler must not fire, and the unresolved result passes
/// through untouched.
pub proof fn lemma_single_handler_stale<T, E, H>(
    handler: H,
    midv: context::ScopesView,
    mid: Result<T>,
    r: (HandlingScopes, Result<T>),
    id: u32,
    v: ErrorValue,
) where E: Error, H: FnOnce(HandlingScopes, E) -> (HandlingScopes, Result<T>)
    requires
        midv.frames.len() > 0,
        single_captured(midv.frames.last()) == Some((id, v)),
        mid@ is Err,
        mid@->Err_0 != id,
        single_resolution::<T, E, H>(handler, midv, mid, r),
    ensures
        r.1 == mid,
        r.0@ == midv.pop_frame(),
{
}

/// Single-handler mismatch: a report of a type other than the handled one
/// passes the invocation's empty storage by — it falls through to whatever
/// scopes were active outside — and the call's error result is returned
/// unhandled, the handler never invoked.
pub proof fn lemma_single_handler_mismatch<T, E, H>(
    handler: H,
    sv: context::ScopesView,
    v: ErrorValue,
    mid: Result<T>,
    r: (HandlingScopes, Result<T>),
) where E: Error, H: FnOnce(HandlingScopes, E) -> (HandlingScopes, Result<T>)
    requires
        v.tag() != E::tag_of(),
        mid@ == Err::<T, u32>(context::report_token(sv.push_frame(single_empty_frame(E::tag_of())))),
        single_resolution::<T, E, H>(
            handler,
            context::report_state(sv.push_frame(single_empty_frame(E::tag_of())), v),
            mid,
            r,
        ),
    ensures
        context::report_state(sv.push_frame(single_empty_frame(E::tag_of())), v).frames.last()
            == single_empty_frame(E::tag_of()),
        r.1 == mid,
        r.0@ == context::report_state(
            sv.push_frame(single_empty_frame(E::tag_of())),
            v,
        ).pop_frame(),
{
    context::lemma_inner_scope_passthrough(sv, single_empty_frame(E::tag_of()), v);
}

/// Whatever a single-handler invocation does, the stack leaves at its entry
/// depth: the registration pushed for the wrapped call never outlives the
/// invocation, provided the call and the handler keep their own scopes
/// balanced.
pub proof fn lemma_invocation_depth_restored<T, E, F, H>(
    pre: context::ScopesView,
    func: F,
    handler: H,
    r: (HandlingScopes, Result<T>),
) where
    E: Error,
    F: FnOnce(HandlingScopes) -> (HandlingScopes, Result<T>),
    H: FnOnce(HandlingScopes, E) -> (HandlingScopes, Result<T>),

    requires
        single_handled_outcome::<T, E, F, H>(pre, func, handler, r),
        forall|s: HandlingScopes, out: (HandlingScopes, Result<T>)|
            #[trigger] call_ensures(func, (s,), out) ==> context::scope_evolution(s@, out.0@),
        forall|s: HandlingScopes, e: E, out: (HandlingScopes, Result<T>)|
            #[trigger] call_ensures(handler, (s, e), out) ==> context::scope_evolution(s@, out.0@),
    ensures
        r.0@.frames.len() == pre.frames.len(),
{
    let (s1, s2, mid) = choose|s1: HandlingScopes, s2: HandlingScopes, mid: Result<T>|
        {
            &&& s1@ == pre.push_frame(single_empty_frame(E::tag_of()))
            &&& #[trigger] call_ensures(func, (s1,), (s2, mid))
            &&& single_resolution::<T, E, H>(handler, s2@, mid, r)
        };
    assert(context::scope_evolution(s1@, s2@));
    match single_captured(s2@.frames.last()) {
        Some((id, v)) => {
            if mid@ is Err && mid@->Err_0 == id {
                let (s, e) = choose|s: HandlingScopes, e: E|
                    {
                        &&& s@ == s2@.pop_frame()
                        &&& e.as_value() == v
                        &&& #[trigger] call_ensures(handler, (s, e), r)
                    };
                assert(context::scope_evolution(s@, r.0@));
            }
        },
        None => {},
    }
}

impl Error for i32 {
    open spec fn tag_of() -> TypeTag {
        TypeTag::Int
    }

    open spec fn as_value(self) -> ErrorValue {
        ErrorValue::Int(self)
    }

    fn runtime_tag() -> (t: TypeTag) {
        TypeTag::Int
    }

    fn to_value(self) -> (v: ErrorValue) {
        ErrorValue::Int(self)
    }

    fn from_value(v: ErrorValue) -> (e: Self) {
        match v {
            ErrorValue::Int(x) => x,
            _ => vstd::pervasive::unreached(),
        }
    }
}

impl Error for String {
    open spec fn tag_of() -> TypeTag {
        TypeTag::Text
    }

    open spec fn as_value(self) -> ErrorValue {
        ErrorValue::Text(self)
    }

    fn runtime_tag() -> (t: TypeTag) {
        TypeTag::Text
    }

    fn to_value(self) -> (v: ErrorValue) {
        ErrorValue::Text(self)
    }

    fn from_value(v: ErrorValue) -> (e: Self) {
        match v {
            ErrorValue::Text(x) => x,
            _ => vstd::pervasive::unreached(),
        }
    }
}

impl Error for bool {
    open spec fn tag_of() -> TypeTag {
        TypeTag::Flag
    }

    open spec fn as_value(self) -> ErrorValue {
        ErrorValue::Flag(self)
    }

    fn runtime_tag() -> (t: TypeTag) {
        TypeTag::Flag
    }

    fn to_value(self) -> (v: ErrorValue) {
        ErrorValue::Flag(self)
    }

    fn from_value(v: ErrorValue) -> (e: Self) {
        match v {
            ErrorValue::Flag(x) => x,
            _ => vstd::pervasive::unreached(),
        }
    }
}

} // verus!
