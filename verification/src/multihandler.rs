//! The multi-handler builder and dispatcher.
//!
//! A composite is an ordered chain of typed handlers, built left to right;
//! pushed as one scope, it materializes as a chain of single-type slots, and
//! after the wrapped call returns, the first slot whose capture carries the
//! call's token consumes its handler.

use crate::context;
use crate::context::empty_slots;
use crate::context::HandlingScopes;
use crate::context::SingleErrorStorage;
use crate::Error;
use crate::ErrorValue;
use crate::Result;
use crate::TypeTag;
use vstd::prelude::*;

verus! {

/// An ordered chain of typed handlers that can resolve a captured error
/// against the token a wrapped call returned.
pub trait TryHandle: Sized {
    /// The value type of the results this composite produces.
    type Value;

    /// The declared tags, in declaration order: the dispatch table.
    spec fn tags(&self) -> Seq<TypeTag>;

    /// What the handler at position `i` demands of the stack and the value
    /// it is invoked on.
    spec fn handler_req(&self, i: int, s: HandlingScopes, v: ErrorValue) -> bool;

    /// What holds of the outcome when the handler at position `i` is invoked
    /// on the stack `s` with the captured value `v`.
    spec fn handler_ens(
        &self,
        i: int,
        s: HandlingScopes,
        v: ErrorValue,
        out: (HandlingScopes, Result<Self::Value>),
    ) -> bool;

    /// Appends one fresh, empty slot per declared handler, in declaration
    /// order: the storage that one invocation pushes as its scope.
    fn push_slots(&self, out: &mut Vec<SingleErrorStorage>)
        ensures
            final(out)@ == old(out)@ + empty_slots(self.tags()),
    ;

    /// The number of declared handlers.
    fn tag_count(&self) -> (n: usize)
        requires
            self.tags().len() <= usize::MAX,
        ensures
            n == self.tags().len(),
    ;

    /// Invokes the handler at position `i` with a captured value of its
    /// declared type, consuming the composite: it is single-use per
    /// invocation.
    fn try_handle(self, i: usize, scopes: HandlingScopes, v: ErrorValue) -> (out: (
        HandlingScopes,
        Result<Self::Value>,
    ))
        requires
            self.tags().len() <= usize::MAX,
            i < self.tags().len(),
            v.tag() == self.tags()[i as int],
            self.handler_req(i as int, scopes, v),
        ensures
            self.handler_ens(i as int, scopes, v, out),
    ;
}

/// One typed handler bound into a composite. The typed storage stays empty
/// in a built composite — the composite is immutable and duplicable, and
/// each invocation materializes fresh slots for the scope it pushes — it
/// only anchors the error type the handler is bound to.
#[derive(Clone)]
pub struct BoundHandler<E, H> {
    /// Empty typed storage, anchoring the handled error type.
    pub storage: Option<(u32, E)>,
    /// The user handler, invoked with the captured value.
    pub handler: H,
}

impl<E, H> BoundHandler<E, H> {
    /// Binds `handler` to the error type it handles.
    pub fn new(handler: H) -> (b: BoundHandler<E, H>)
        ensures
            b.handler == handler,
    {
        BoundHandler { storage: None, handler }
    }
}

impl<V, E, H> TryHandle for BoundHandler<E, H> where
    E: Error,
    H: FnOnce(HandlingScopes, E) -> (HandlingScopes, Result<V>),
 {
    type Value = V;

    open spec fn tags(&self) -> Seq<TypeTag> {
        seq![E::tag_of()]
    }

    open spec fn handler_req(&self, i: int, s: HandlingScopes, v: ErrorValue) -> bool {
        forall|e: E| e.as_value() == v ==> #[trigger] call_requires(self.handler, (s, e))
    }

    open spec fn handler_ens(
        &self,
        i: int,
        s: HandlingScopes,
        v: ErrorValue,
        out: (HandlingScopes, Result<V>),
    ) -> bool {
        exists|e: E| e.as_value() == v && #[trigger] call_ensures(self.handler, (s, e), out)
    }

    fn push_slots(&self, out: &mut Vec<SingleErrorStorage>) {
        out.push(SingleErrorStorage::new(E::runtime_tag()));
        proof {
            assert(out@ =~= old(out)@ + empty_slots(self.tags()));
        }
    }

    fn tag_count(&self) -> (n: usize) {
        1
    }

    fn try_handle(self, i: usize, scopes: HandlingScopes, v: ErrorValue) -> (out: (
        HandlingScopes,
        Result<V>,
    )) {
        let e = E::from_value(v);
        let ghost eg = e;
        let ghost sg = scopes;
        let out = (self.handler)(scopes, e);
        proof {
            assert(eg.as_value() == v && call_ensures(self.handler, (sg, eg), out));
        }
        out
    }
}

/// Two composites chained: the left is probed before the right, both for
/// accepting a report and for resolving a token, so handlers fire in the
/// exact order they were declared.
#[derive(Clone)]
pub struct Sequence<Left, Right> {
    /// Probed first.
    pub left: Left,
    /// Probed only when the left does not accept.
    pub right: Right,
}

impl<V, Left, Right> TryHandle for Sequence<Left, Right> where
    Left: TryHandle<Value = V>,
    Right: TryHandle<Value = V>,
 {
    type Value = V;

    open spec fn tags(&self) -> Seq<TypeTag> {
        self.left.tags() + self.right.tags()
    }

    open spec fn handler_req(&self, i: int, s: HandlingScopes, v: ErrorValue) -> bool {
        if i < self.left.tags().len() {
            self.left.handler_req(i, s, v)
        } else {
            self.right.handler_req(i - self.left.tags().len(), s, v)
        }
    }

    open spec fn handler_ens(
        &self,
        i: int,
        s: HandlingScopes,
        v: ErrorValue,
        out: (HandlingScopes, Result<V>),
    ) -> bool {
        if i < self.left.tags().len() {
            self.left.handler_ens(i, s, v, out)
        } else {
            self.right.handler_ens(i - self.left.tags().len(), s, v, out)
        }
    }

    fn push_slots(&self, out: &mut Vec<SingleErrorStorage>) {
        self.left.push_slots(out);
        self.right.push_slots(out);
        proof {
            assert(out@ =~= old(out)@ + empty_slots(self.tags()));
        }
    }

    fn tag_count(&self) -> (n: usize) {
        let a = self.left.tag_count();
        let b = self.right.tag_count();
        a + b
    }

    fn try_handle(self, i: usize, scopes: HandlingScopes, v: ErrorValue) -> (out: (
        HandlingScopes,
        Result<V>,
    )) {
        let lc = self.left.tag_count();
        if i < lc {
            self.left.try_handle(i, scopes, v)
        } else {
            self.right.try_handle(i - lc, scopes, v)
        }
    }
}

/// Builds a composite handler step by step, preserving declaration order.
#[derive(Clone)]
pub struct Builder<T>(pub T);

impl<T: TryHandle> Builder<T> {
    /// Appends a handler for one more error type to the right of the chain.
    pub fn handle<E, H>(self, handler: H) -> (b: Builder<Sequence<T, BoundHandler<E, H>>>) where
        E: Error,
        H: FnOnce(HandlingScopes, E) -> (HandlingScopes, Result<T::Value>),

        ensures
            b.0.left == self.0,
            b.0.right.handler == handler,
    {
        Builder(Sequence { left: self.0, right: BoundHandler::new(handler) })
    }

    /// Finishes the chain: the result is an immutable, duplicable composite
    /// for [`try_or_handle`].
    pub fn build(self) -> (h: T)
        ensures
            h == self.0,
    {
        self.0
    }
}

/// Starts a composite with one bound handler.
pub fn builder<V, E, H>(handler: H) -> (b: Builder<BoundHandler<E, H>>) where
    E: Error,
    H: FnOnce(HandlingScopes, E) -> (HandlingScopes, Result<V>),

    ensures
        b.0.handler == handler,
{
    Builder(BoundHandler::new(handler))
}

/// Whether a slot's capture carries the token `tok`.
pub open spec fn slot_matches(slot: SingleErrorStorage, tok: u32) -> bool {
    match slot.captured {
        Some((id, _)) => id == tok,
        None => false,
    }
}

/// The value a slot has captured; meaningful only when it captured one.
pub open spec fn slot_value(slot: SingleErrorStorage) -> ErrorValue {
    (slot.captured->0).1
}

/// The position of the leftmost slot whose capture carries `tok`, or `-1`:
/// the first token match consumes its handler.
pub open spec fn first_match_ix(slots: Seq<SingleErrorStorage>, tok: u32) -> int
    decreases slots.len(),
{
    if slots.len() == 0 {
        -1
    } else if slot_matches(slots[0], tok) {
        0
    } else {
        let rest = first_match_ix(slots.drop_first(), tok);
        if rest < 0 {
            -1
        } else {
            rest + 1
        }
    }
}

/// The leftmost matching position determines `first_match_ix`.
pub proof fn lemma_first_match_ix_at(slots: Seq<SingleErrorStorage>, tok: u32, k: int)
    requires
        0 <= k < slots.len(),
        slot_matches(slots[k], tok),
        forall|j: int| 0 <= j < k ==> !slot_matches(#[trigger] slots[j], tok),
    ensures
        first_match_ix(slots, tok) == k,
    decreases slots.len(),
{
    if k > 0 {
        lemma_first_match_ix_at(slots.drop_first(), tok, k - 1);
    }
}

/// When no slot's capture carries the token, `first_match_ix` reports none.
pub proof fn lemma_first_match_ix_none(slots: Seq<SingleErrorStorage>, tok: u32)
    requires
        forall|j: int| 0 <= j < slots.len() ==> !slot_matches(#[trigger] slots[j], tok),
    ensures
        first_match_ix(slots, tok) == -1,
    decreases slots.len(),
{
    if slots.len() > 0 {
        lemma_first_match_ix_none(slots.drop_first(), tok);
    }
}

/// The slots of a chain context; empty for other context kinds.
pub open spec fn chain_slots(cv: context::ContextView) -> Seq<SingleErrorStorage> {
    match cv {
        context::ContextView::Chain(slots) => slots,
        _ => Seq::empty(),
    }
}

/// How a multi-handler invocation resolves the wrapped call's outcome, given
/// the scope-stack state `midv` at the moment the call returned (with the
/// composite's chain innermost) and the call's result `mid`.
///
/// On an error, the leftmost slot whose capture carries the call's token
/// consumes its handler, which is invoked with the captured value; its
/// return is the invocation's result. With no token match — or no error —
/// the call's result passes through untouched.
pub open spec fn multi_resolution<T, H>(
    handlers: H,
    midv: context::ScopesView,
    mid: Result<T>,
    r: (HandlingScopes, Result<T>),
) -> bool where H: TryHandle<Value = T> {
    let popped = midv.pop_frame();
    let slots = chain_slots(midv.frames.last());
    if mid@ is Err && first_match_ix(slots, mid@->Err_0) >= 0 {
        let k = first_match_ix(slots, mid@->Err_0);
        exists|s: HandlingScopes|
            {
                &&& s@ == popped
                &&& #[trigger] handlers.handler_ens(k, s, slot_value(slots[k]), r)
            }
    } else {
        r.1 == mid && r.0@ == popped
    }
}

/// The full contract of a multi-handler invocation: for some behaviour of
/// the wrapped call consistent with its contract — run on the stack `pre`
/// with the composite's fresh slot chain pushed innermost — the invocation's
/// result is the resolution of that behaviour.
pub open spec fn multi_handled_outcome<T, F, H>(
    pre: context::ScopesView,
    func: F,
    handlers: H,
    r: (HandlingScopes, Result<T>),
) -> bool where
    F: FnOnce(HandlingScopes) -> (HandlingScopes, Result<T>),
    H: TryHandle<Value = T>,
 {
    exists|s1: HandlingScopes, s2: HandlingScopes, mid: Result<T>|
        {
            &&& s1@ == pre.push_frame(context::ContextView::Chain(empty_slots(handlers.tags())))
            &&& #[trigger] call_ensures(func, (s1,), (s2, mid))
            &&& multi_resolution::<T, H>(handlers, s2@, mid, r)
        }
}

/// Multi-handler dispatch order: on an error result, the leftmost slot
/// whose capture carries the call's token consumes its handler — at most
/// one handler ever fires, invoked with that slot's captured value on the
/// popped stack — and with no token match the call's result passes through
/// untouched.
pub proof fn lemma_multi_dispatch<T, H>(
    handlers: H,
    midv: context::ScopesView,
    mid: Result<T>,
    r: (HandlingScopes, Result<T>),
    k: int,
) where H: TryHandle<Value = T>
    requires
        mid@ is Err,
        first_match_ix(chain_slots(midv.frames.last()), mid@->Err_0) == k,
        multi_resolution::<T, H>(handlers, midv, mid, r),
    ensures
        k >= 0 ==> exists|s: HandlingScopes|
            {
                &&& s@ == midv.pop_frame()
                &&& #[trigger] handlers.handler_ens(
                    k,
                    s,
                    slot_value(chain_slots(midv.frames.last())[k]),
                    r,
                )
            },
        k < 0 ==> r.1 == mid && r.0@ == midv.pop_frame(),
{
}

/// Whatever a multi-handler invocation does, the stack leaves at its entry
/// depth: the chain pushed for the wrapped call never outlives the
/// invocation, provided the call and every handler keep their own scopes
/// balanced.
pub proof fn lemma_multi_depth_restored<T, F, H>(
    pre: context::ScopesView,
    func: F,
    handlers: H,
    r: (HandlingScopes, Result<T>),
) where
    F: FnOnce(HandlingScopes) -> (HandlingScopes, Result<T>),
    H: TryHandle<Value = T>,

    requires
        multi_handled_outcome::<T, F, H>(pre, func, handlers, r),
        forall|s: HandlingScopes, out: (HandlingScopes, Result<T>)|
            #[trigger] call_ensures(func, (s,), out) ==> context::scope_evolution(s@, out.0@),
        forall|i: int, s: HandlingScopes, v: ErrorValue, out: (HandlingScopes, Result<T>)|
            #[trigger] handlers.handler_ens(i, s, v, out) ==> context::scope_evolution(s@, out.0@),
    ensures
        r.0@.frames.len() == pre.frames.len(),
{
    let (s1, s2, mid) = choose|s1: HandlingScopes, s2: HandlingScopes, mid: Result<T>|
        {
            &&& s1@ == pre.push_frame(context::ContextView::Chain(empty_slots(handlers.tags())))
            &&& #[trigger] call_ensures(func, (s1,), (s2, mid))
            &&& multi_resolution::<T, H>(handlers, s2@, mid, r)
        };
    assert(context::scope_evolution(s1@, s2@));
    if mid@ is Err && first_match_ix(chain_slots(s2@.frames.last()), mid@->Err_0) >= 0 {
        let k = first_match_ix(chain_slots(s2@.frames.last()), mid@->Err_0);
        let s = choose|s: HandlingScopes|
            {
                &&& s@ == s2@.pop_frame()
                &&& #[trigger] handlers.handler_ens(
                    k,
                    s,
                    slot_value(chain_slots(s2@.frames.last())[k]),
                    r,
                )
            };
        assert(context::scope_evolution(s@, r.0@));
    }
}

/// Runs `func` with the whole composite pushed as one innermost scope, then
/// resolves its result against the chain's captures.
///
/// Each slot captures only its declared type, leftmost first; on an error
/// result, the leftmost slot whose capture carries the call's token consumes
/// its handler — at most one handler ever fires, and of two handlers
/// declared for the same type the earlier one always wins. The composite is
/// consumed: callers supply an independent copy per call. No match returns
/// the call's result untouched.
pub fn try_or_handle<T, F, H>(scopes: HandlingScopes, func: F, handlers: H) -> (r: (
    HandlingScopes,
    Result<T>,
)) where
    F: FnOnce(HandlingScopes) -> (HandlingScopes, Result<T>),
    H: TryHandle<Value = T>,

    requires
        scopes@.wf(),
        forall|s: HandlingScopes| s@.wf() ==> #[trigger] call_requires(func, (s,)),
        forall|s: HandlingScopes, out: (HandlingScopes, Result<T>)|
            #[trigger] call_ensures(func, (s,), out) ==> context::scope_evolution(s@, out.0@),
        forall|i: int, s: HandlingScopes, v: ErrorValue|
            0 <= i < handlers.tags().len() && s@.wf() && v.tag() == handlers.tags()[i]
                ==> #[trigger] handlers.handler_req(i, s, v),
    ensures
        multi_handled_outcome::<T, F, H>(scopes@, func, handlers, r),
{
    let ghost pre = scopes@;
    let mut slots: Vec<SingleErrorStorage> = Vec::new();
    handlers.push_slots(&mut slots);
    proof {
        assert(slots@ =~= empty_slots(handlers.tags()));
    }
    let node = context::ScopeNode::new(context::HandlerContext::Chain(slots));
    let ghost nodev = node@;
    let mut s = scopes;
    let guard = context::push_handling_scope(&mut s, node);
    proof {
        assert(nodev == context::ContextView::Chain(empty_slots(handlers.tags())));
        assert forall|i: int| 0 <= i < empty_slots(handlers.tags()).len() implies (
        #[trigger] empty_slots(handlers.tags())[i]).wf() by {}
        assert(context::slots_wf(empty_slots(handlers.tags())));
        assert(nodev.wf());
        assert forall|i: int| 0 <= i < s@.frames.len() implies (#[trigger] s@.frames[i]).wf() by {
            if i < pre.frames.len() {
                assert(s@.frames[i] == pre.frames[i]);
            }
        }
        assert(s@.wf());
    }
    let ghost s1g = s;
    let (s_mid, mid) = func(s);
    let ghost s2g = s_mid;
    let ghost midg = mid;
    let mut after = s_mid;
    let node_back = context::pop_handling_scope(&mut after, guard);
    let ghost poppedg = s2g@.pop_frame();
    proof {
        assert(context::scope_evolution(s1g@, s2g@));
        assert(s1g@.frames[pre.frames.len() as int] == nodev);
        assert(nodev.same_shape(s2g@.frames.last()));
        assert(node_back@ == s2g@.frames.last());
        assert(after@ == poppedg);
        assert forall|i: int| 0 <= i < poppedg.frames.len() implies (
        #[trigger] poppedg.frames[i]).wf() by {
            assert(poppedg.frames[i] == s2g@.frames[i]);
            assert(s2g@.wf());
        }
        assert(poppedg.wf());
    }
    if mid.is_error() {
        let tok = mid.unchecked_error_id();
        match node_back.context {
            context::HandlerContext::Chain(mut slots2) => {
                proof {
                    assert(context::ContextView::Chain(slots2@) == s2g@.frames.last());
                    assert(chain_slots(s2g@.frames.last()) == slots2@);
                    assert(context::ContextView::Chain(slots2@).wf());
                    assert(slots2@.len() == empty_slots(handlers.tags()).len());
                }
                let n = slots2.len();
                let mut found: usize = n;
                let mut k: usize = 0;
                while k < n
                    invariant
                        k <= n,
                        n == slots2@.len(),
                        found == n || found < k,
                        found == n ==> forall|j: int|
                            0 <= j < k ==> !slot_matches(#[trigger] slots2@[j], tok),
                        found < n ==> slot_matches(slots2@[found as int], tok) && forall|j: int|
                            0 <= j < found ==> !slot_matches(#[trigger] slots2@[j], tok),
                    decreases n - k,
                {
                    if found == n {
                        let hit = match &slots2[k].captured {
                            Some(p) => p.0 == tok,
                            None => false,
                        };
                        if hit {
                            found = k;
                        }
                    }
                    k = k + 1;
                }
                if found < n {
                    proof {
                        lemma_first_match_ix_at(slots2@, tok, found as int);
                    }
                    let st = slots2.remove(found);
                    match st.captured {
                        Some(pair) => {
                            let (cid, cv) = pair;
                            proof {
                                assert(st == chain_slots(s2g@.frames.last())[found as int]);
                                assert(st.wf());
                                assert(cv.tag() == st.tag);
                                assert(st.tag == empty_slots(handlers.tags())[found as int].tag);
                                assert(cv.tag() == handlers.tags()[found as int]);
                                assert(cv == slot_value(chain_slots(s2g@.frames.last())[found as int]));
                            }
                            let ghost s3g = after;
                            let out = handlers.try_handle(found, after, cv);
                            proof {
                                assert(s3g@ == poppedg);
                                assert(handlers.handler_ens(found as int, s3g, cv, out));
                                assert(multi_resolution::<T, H>(handlers, s2g@, midg, out));
                                assert(call_ensures(func, (s1g,), (s2g, midg)));
                                assert(multi_handled_outcome::<T, F, H>(pre, func, handlers, out));
                            }
                            out
                        },
                        None => {
                            proof {
                                assert(false);
                            }
                            vstd::pervasive::unreached()
                        },
                    }
                } else {
                    proof {
                        lemma_first_match_ix_none(slots2@, tok);
                        assert(multi_resolution::<T, H>(handlers, s2g@, midg, (after, midg)));
                    }
                    (after, mid)
                }
            },
            _ => {
                proof {
                    assert(false);
                }
                vstd::pervasive::unreached()
            },
        }
    } else {
        proof {
            assert(multi_resolution::<T, H>(handlers, s2g@, midg, (after, midg)));
        }
        (after, mid)
    }
}

} // verus!
