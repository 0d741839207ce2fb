//! The scope stack and the reporting protocol.
//!
//! A [`HandlingScopes`] value holds the active handler contexts in strict LIFO
//! order together with the monotonic (wrapping) error counter. Reporting an
//! error allocates the next token and offers the tagged value to each context
//! from the innermost outward until one accepts it.

use crate::ErrorValue;
use crate::TypeTag;
use vstd::prelude::*;

verus! {

/// An ephemeral view of a reported error: the freshly allocated token, the
/// runtime tag of the reported type, and the value itself. It exists only for
/// the duration of one downward scan of the scope stack.
pub struct ReportedError {
    /// The token allocated for this report.
    pub id: u32,
    /// The runtime tag of the reported type.
    pub type_id: TypeTag,
    /// The reported value.
    pub value: ErrorValue,
}

impl ReportedError {
    /// The tag matches the value it describes.
    pub open spec fn wf(self) -> bool {
        self.type_id == self.value.tag()
    }

    /// Builds the scan view of a report: the tag is computed from the value.
    pub fn new(id: u32, value: ErrorValue) -> (r: ReportedError)
        ensures
            r.id == id,
            r.value == value,
            r.wf(),
    {
        let type_id = value.type_tag();
        ReportedError { id, type_id, value }
    }
}

/// The outcome of offering a reported error to one handler context.
pub enum TrySetErrorResult {
    /// The context did not accept the error; the scan continues outward.
    NotHandled,
    /// The context accepted the error and moved the value into its own
    /// storage; the caller no longer owns it.
    NeedForget,
    /// The context accepted the error but recorded only metadata; the caller
    /// still owns the value and lets it drop.
    NeedDrop,
}

/// A capability that, offered a reported error, decides acceptance and, when
/// accepting, takes the value (or records its identity).
pub trait ErrorHandlingContext: Sized {
    /// Well-formedness of the context's storage.
    spec fn ctx_wf(&self) -> bool;

    /// Whether this context accepts a report of the given tag.
    spec fn ctx_accepts(&self, tag: TypeTag) -> bool;

    /// On acceptance, whether only metadata is recorded and the value is
    /// discarded (rather than moved into storage).
    spec fn ctx_discards(&self) -> bool;

    /// Relates the context before and after accepting the report `(id, v)`.
    spec fn ctx_captures(&self, post: &Self, id: u32, v: ErrorValue) -> bool;

    /// Offers a reported error to this context. When the context does not
    /// accept it, the error is handed back unchanged for the scan to continue.
    fn try_set_error(&mut self, error: ReportedError) -> (r: (TrySetErrorResult, Option<ReportedError>))
        requires
            error.wf(),
            old(self).ctx_wf(),
        ensures
            final(self).ctx_wf(),
            old(self).ctx_accepts(error.type_id) ==> {
                &&& old(self).ctx_captures(final(self), error.id, error.value)
                &&& r.1 is None
                &&& (r.0 is NeedDrop <==> old(self).ctx_discards())
                &&& (r.0 is NeedForget <==> !old(self).ctx_discards())
            },
            !old(self).ctx_accepts(error.type_id) ==> {
                &&& *final(self) == *old(self)
                &&& r.0 is NotHandled
                &&& r.1 == Some(error)
            },
    ;
}

/// Storage for at most one `(token, value)` pair of exactly one declared type.
/// A later report of the same type overwrites the earlier pair.
#[derive(Clone, Debug)]
pub struct SingleErrorStorage {
    /// The one tag this storage accepts.
    pub tag: TypeTag,
    /// The last accepted report, if any.
    pub captured: Option<(u32, ErrorValue)>,
}

impl SingleErrorStorage {
    /// A captured value always carries the declared tag.
    pub open spec fn wf(self) -> bool {
        match self.captured {
            Some((id, v)) => v.tag() == self.tag,
            None => true,
        }
    }

    /// Fresh, empty storage for one declared tag.
    pub fn new(tag: TypeTag) -> (r: SingleErrorStorage)
        ensures
            r == (SingleErrorStorage { tag, captured: None::<(u32, ErrorValue)> }),
    {
        SingleErrorStorage { tag, captured: None }
    }
}

impl ErrorHandlingContext for SingleErrorStorage {
    open spec fn ctx_wf(&self) -> bool {
        self.wf()
    }

    open spec fn ctx_accepts(&self, tag: TypeTag) -> bool {
        self.tag == tag
    }

    open spec fn ctx_discards(&self) -> bool {
        false
    }

    open spec fn ctx_captures(&self, post: &Self, id: u32, v: ErrorValue) -> bool {
        *post == (SingleErrorStorage { tag: self.tag, captured: Some((id, v)) })
    }

    fn try_set_error(&mut self, error: ReportedError) -> (r: (TrySetErrorResult, Option<ReportedError>)) {
        if self.tag == error.type_id {
            self.captured = Some((error.id, error.value));
            (TrySetErrorResult::NeedForget, None)
        } else {
            (TrySetErrorResult::NotHandled, Some(error))
        }
    }
}

/// One fresh, empty slot per declared tag, in declaration order.
pub open spec fn empty_slots(tags: Seq<TypeTag>) -> Seq<SingleErrorStorage> {
    tags.map_values(|t: TypeTag| SingleErrorStorage { tag: t, captured: None })
}

/// Every captured value in a slot sequence carries its slot's tag.
pub open spec fn slots_wf(slots: Seq<SingleErrorStorage>) -> bool {
    forall|i: int| 0 <= i < slots.len() ==> (#[trigger] slots[i]).wf()
}

/// The position of the leftmost slot declared for `tag`, or `-1` when no slot
/// accepts it. Probing is left to right, so of two slots sharing a declared
/// type the earlier one always wins.
pub open spec fn first_slot_ix(slots: Seq<SingleErrorStorage>, tag: TypeTag) -> int
    decreases slots.len(),
{
    if slots.len() == 0 {
        -1
    } else if slots[0].tag == tag {
        0
    } else {
        let rest = first_slot_ix(slots.drop_first(), tag);
        if rest < 0 {
            -1
        } else {
            rest + 1
        }
    }
}

/// The slot sequence after the leftmost slot declared for `v`'s tag captures
/// the report `(id, v)`. Meaningful only when some slot accepts the tag.
pub open spec fn chain_capture(slots: Seq<SingleErrorStorage>, id: u32, v: ErrorValue) -> Seq<
    SingleErrorStorage,
> {
    let ix = first_slot_ix(slots, v.tag());
    slots.update(ix, SingleErrorStorage { tag: v.tag(), captured: Some((id, v)) })
}

/// What `first_slot_ix` finds: the leftmost slot with the declared tag.
pub proof fn lemma_first_slot_ix(slots: Seq<SingleErrorStorage>, tag: TypeTag)
    ensures
        -1 <= first_slot_ix(slots, tag) < slots.len(),
        first_slot_ix(slots, tag) >= 0 ==> {
            &&& slots[first_slot_ix(slots, tag)].tag == tag
            &&& forall|j: int|
                0 <= j < first_slot_ix(slots, tag) ==> (#[trigger] slots[j]).tag != tag
        },
        first_slot_ix(slots, tag) == -1 ==> forall|j: int|
            0 <= j < slots.len() ==> (#[trigger] slots[j]).tag != tag,
    decreases slots.len(),
{
    if slots.len() > 0 && slots[0].tag != tag {
        lemma_first_slot_ix(slots.drop_first(), tag);
        assert forall|j: int| 1 <= j < slots.len() implies slots[j] == slots.drop_first()[j - 1] by {}
    }
}

/// The leftmost matching position determines `first_slot_ix`.
pub proof fn lemma_first_slot_ix_at(slots: Seq<SingleErrorStorage>, tag: TypeTag, k: int)
    requires
        0 <= k < slots.len(),
        slots[k].tag == tag,
        forall|j: int| 0 <= j < k ==> (#[trigger] slots[j]).tag != tag,
    ensures
        first_slot_ix(slots, tag) == k,
    decreases slots.len(),
{
    if k > 0 {
        lemma_first_slot_ix_at(slots.drop_first(), tag, k - 1);
    }
}

/// When no slot carries the tag, `first_slot_ix` reports none.
pub proof fn lemma_first_slot_ix_none(slots: Seq<SingleErrorStorage>, tag: TypeTag)
    requires
        forall|j: int| 0 <= j < slots.len() ==> (#[trigger] slots[j]).tag != tag,
    ensures
        first_slot_ix(slots, tag) == -1,
    decreases slots.len(),
{
    if slots.len() > 0 {
        lemma_first_slot_ix_none(slots.drop_first(), tag);
    }
}

impl ErrorHandlingContext for Vec<SingleErrorStorage> {
    open spec fn ctx_wf(&self) -> bool {
        slots_wf(self@)
    }

    open spec fn ctx_accepts(&self, tag: TypeTag) -> bool {
        first_slot_ix(self@, tag) >= 0
    }

    open spec fn ctx_discards(&self) -> bool {
        false
    }

    open spec fn ctx_captures(&self, post: &Self, id: u32, v: ErrorValue) -> bool {
        post@ == chain_capture(self@, id, v)
    }

    fn try_set_error(&mut self, error: ReportedError) -> (r: (TrySetErrorResult, Option<ReportedError>)) {
        let n = self.len();
        let mut k: usize = 0;
        while k < n
            invariant
                n == self@.len(),
                k <= n,
                *self == *old(self),
                error.wf(),
                slots_wf(self@),
                forall|j: int| 0 <= j < k ==> (#[trigger] self@[j]).tag != error.type_id,
            decreases n - k,
        {
            if self[k].tag == error.type_id {
                let slot_tag = self[k].tag;
                let ghost v = error.value;
                proof {
                    lemma_first_slot_ix_at(self@, error.type_id, k as int);
                    assert(slot_tag == v.tag());
                }
                self.set(k, SingleErrorStorage { tag: slot_tag, captured: Some((error.id, error.value)) });
                proof {
                    assert(self@ =~= chain_capture(old(self)@, error.id, v));
                    assert forall|i: int| 0 <= i < self@.len() implies (#[trigger] self@[i]).wf() by {
                        if i != k as int {
                            assert(self@[i] == old(self)@[i]);
                        }
                    }
                    assert(slots_wf(self@));
                }
                return (TrySetErrorResult::NeedForget, None);
            }
            k = k + 1;
        }
        proof {
            lemma_first_slot_ix_none(self@, error.type_id);
        }
        (TrySetErrorResult::NotHandled, Some(error))
    }
}

/// A context that accepts every type, recording only the token and the tag
/// and discarding the value.
#[derive(Clone, Debug)]
pub struct CatchAllContext {
    /// The identity of the last accepted report, if any.
    pub inner: Option<(u32, TypeTag)>,
}

impl ErrorHandlingContext for CatchAllContext {
    open spec fn ctx_wf(&self) -> bool {
        true
    }

    open spec fn ctx_accepts(&self, tag: TypeTag) -> bool {
        true
    }

    open spec fn ctx_discards(&self) -> bool {
        true
    }

    open spec fn ctx_captures(&self, post: &Self, id: u32, v: ErrorValue) -> bool {
        *post == (CatchAllContext { inner: Some((id, v.tag())) })
    }

    fn try_set_error(&mut self, error: ReportedError) -> (r: (TrySetErrorResult, Option<ReportedError>)) {
        self.inner = Some((error.id, error.type_id));
        (TrySetErrorResult::NeedDrop, None)
    }
}

/// A handler context as registered on the scope stack: single-type storage, a
/// catch-all, or an ordered chain of single-type slots (a composite built by
/// the multi-handler builder).
#[derive(Clone, Debug)]
pub enum HandlerContext {
    /// Storage for exactly one declared type.
    Single(SingleErrorStorage),
    /// Accepts everything, keeps only identity.
    CatchAll(CatchAllContext),
    /// An ordered chain of single-type slots, probed left to right.
    Chain(Vec<SingleErrorStorage>),
}

/// The mathematical shape of a registered handler context: as
/// [`HandlerContext`], with the chain's slots as a sequence.
#[verifier::ext_equal]
pub enum ContextView {
    /// Storage for exactly one declared type.
    Single(SingleErrorStorage),
    /// Accepts everything, keeps only identity.
    CatchAll(CatchAllContext),
    /// An ordered chain of single-type slots.
    Chain(Seq<SingleErrorStorage>),
}

impl ContextView {
    /// Every captured value carries the tag of the slot holding it.
    pub open spec fn wf(self) -> bool {
        match self {
            ContextView::Single(st) => st.wf(),
            ContextView::CatchAll(_) => true,
            ContextView::Chain(slots) => slots_wf(slots),
        }
    }

    /// Whether a report with this tag is accepted here.
    pub open spec fn accepts(self, tag: TypeTag) -> bool {
        match self {
            ContextView::Single(st) => st.tag == tag,
            ContextView::CatchAll(_) => true,
            ContextView::Chain(slots) => first_slot_ix(slots, tag) >= 0,
        }
    }

    /// On acceptance, whether the value is discarded rather than stored.
    pub open spec fn discards(self) -> bool {
        self is CatchAll
    }

    /// The context after accepting the report `(id, v)`.
    pub open spec fn capture(self, id: u32, v: ErrorValue) -> ContextView {
        match self {
            ContextView::Single(st) => ContextView::Single(
                SingleErrorStorage { tag: st.tag, captured: Some((id, v)) },
            ),
            ContextView::CatchAll(_) => ContextView::CatchAll(
                CatchAllContext { inner: Some((id, v.tag())) },
            ),
            ContextView::Chain(slots) => ContextView::Chain(chain_capture(slots, id, v)),
        }
    }

    /// Two contexts of the same kind, declared for the same tags. Capturing
    /// reports changes a context's storage but never its shape.
    pub open spec fn same_shape(self, other: ContextView) -> bool {
        match (self, other) {
            (ContextView::Single(a), ContextView::Single(b)) => a.tag == b.tag,
            (ContextView::CatchAll(_), ContextView::CatchAll(_)) => true,
            (ContextView::Chain(a), ContextView::Chain(b)) => {
                &&& a.len() == b.len()
                &&& forall|i: int| 0 <= i < a.len() ==> (#[trigger] a[i]).tag == b[i].tag
            },
            _ => false,
        }
    }
}

impl View for HandlerContext {
    type V = ContextView;

    open spec fn view(&self) -> ContextView {
        match self {
            HandlerContext::Single(st) => ContextView::Single(*st),
            HandlerContext::CatchAll(c) => ContextView::CatchAll(*c),
            HandlerContext::Chain(slots) => ContextView::Chain(slots@),
        }
    }
}

impl ErrorHandlingContext for HandlerContext {
    open spec fn ctx_wf(&self) -> bool {
        self@.wf()
    }

    open spec fn ctx_accepts(&self, tag: TypeTag) -> bool {
        self@.accepts(tag)
    }

    open spec fn ctx_discards(&self) -> bool {
        self@.discards()
    }

    open spec fn ctx_captures(&self, post: &Self, id: u32, v: ErrorValue) -> bool {
        post@ == self@.capture(id, v)
    }

    fn try_set_error(&mut self, error: ReportedError) -> (r: (TrySetErrorResult, Option<ReportedError>)) {
        let mut owned = HandlerContext::CatchAll(CatchAllContext { inner: None });
        core::mem::swap(self, &mut owned);
        match owned {
            HandlerContext::Single(mut st) => {
                let r = st.try_set_error(error);
                *self = HandlerContext::Single(st);
                r
            },
            HandlerContext::CatchAll(mut c) => {
                let r = c.try_set_error(error);
                *self = HandlerContext::CatchAll(c);
                r
            },
            HandlerContext::Chain(mut slots) => {
                proof {
                    assert(old(self)@ == ContextView::Chain(slots@));
                    assert(ContextView::Chain(slots@).wf());
                }
                let r = slots.try_set_error(error);
                *self = HandlerContext::Chain(slots);
                r
            },
        }
    }
}

/// One registration of a handler context on the scope stack.
pub struct ScopeNode {
    /// The handler context registered by this node.
    pub context: HandlerContext,
}

impl View for ScopeNode {
    type V = ContextView;

    open spec fn view(&self) -> ContextView {
        self.context@
    }
}

impl ScopeNode {
    /// Wraps a handler context for registration.
    pub fn new(context: HandlerContext) -> (n: ScopeNode)
        ensures
            n == (ScopeNode { context }),
    {
        ScopeNode { context }
    }
}

/// Every frame of a scope stack is well-formed.
pub open spec fn frames_wf(frames: Seq<ContextView>) -> bool {
    forall|i: int| 0 <= i < frames.len() ==> (#[trigger] frames[i]).wf()
}

/// The mathematical state of a scope stack: the registered contexts from
/// outermost to innermost, and the error counter.
#[verifier::ext_equal]
pub struct ScopesView {
    /// Registered contexts; the innermost is last.
    pub frames: Seq<ContextView>,
    /// The wrapping error counter; the token most recently handed out.
    pub counter: u32,
}

impl ScopesView {
    /// Every registered context is well-formed.
    pub open spec fn wf(self) -> bool {
        frames_wf(self.frames)
    }

    /// The number of registered contexts.
    pub open spec fn depth(self) -> nat {
        self.frames.len()
    }

    /// The state after registering one more context innermost.
    pub open spec fn push_frame(self, cv: ContextView) -> ScopesView {
        ScopesView { frames: self.frames.push(cv), counter: self.counter }
    }

    /// The state after removing the innermost registration.
    pub open spec fn pop_frame(self) -> ScopesView {
        ScopesView { frames: self.frames.drop_last(), counter: self.counter }
    }
}

/// The scope stack: the active handler contexts in strict LIFO order, plus
/// the error counter. It is an explicit value, threaded through the calls
/// that report or handle errors; it must never be shared across threads.
pub struct HandlingScopes {
    scopes: Vec<ScopeNode>,
    error_id: u32,
}

impl View for HandlingScopes {
    type V = ScopesView;

    closed spec fn view(&self) -> ScopesView {
        ScopesView {
            frames: Seq::new(self.scopes@.len(), |i: int| self.scopes@[i]@),
            counter: self.error_id,
        }
    }
}

impl HandlingScopes {
    /// An empty stack whose counter has handed out no token yet.
    pub fn new() -> (s: HandlingScopes)
        ensures
            s@ == (ScopesView { frames: Seq::<ContextView>::empty(), counter: 0u32 }),
    {
        let s = HandlingScopes { scopes: Vec::new(), error_id: 0 };
        proof {
            assert(s@.frames =~= Seq::<ContextView>::empty());
            assert(s@ =~= (ScopesView { frames: Seq::<ContextView>::empty(), counter: 0u32 }));
        }
        s
    }

    /// The current nesting depth: how many contexts are registered.
    pub fn depth(&self) -> (n: usize)
        ensures
            n == self@.depth(),
    {
        self.scopes.len()
    }
}

/// Proof that one scope registration is live: created by
/// [`push_handling_scope`], consumed by [`pop_handling_scope`]. Consuming it
/// validates that the node being removed is the innermost one, which forces
/// releases into exact LIFO order.
pub struct PopScopeGuard {
    /// The position in the stack of the registration this guard releases.
    pub index: usize,
}

/// Registers `node` as the innermost handler context.
///
/// The returned guard must be handed back to [`pop_handling_scope`] exactly
/// when this registration is again the innermost one: pops happen in exact
/// LIFO order, and a skipped or re-ordered release is a contract violation
/// that the guard's precondition rules out.
pub fn push_handling_scope(scopes: &mut HandlingScopes, node: ScopeNode) -> (guard: PopScopeGuard)
    ensures
        final(scopes)@ == old(scopes)@.push_frame(node@),
        guard.index == old(scopes)@.depth(),
{
    let guard = PopScopeGuard { index: scopes.scopes.len() };
    scopes.scopes.push(node);
    proof {
        assert(scopes@.frames =~= old(scopes)@.frames.push(node@));
        assert(scopes@ =~= old(scopes)@.push_frame(node@));
    }
    guard
}

/// Removes the innermost registration, handing its context back.
///
/// The guard must be the one returned by the matching push, with every scope
/// pushed since then already popped.
pub fn pop_handling_scope(scopes: &mut HandlingScopes, guard: PopScopeGuard) -> (node: ScopeNode)
    requires
        old(scopes)@.depth() == guard.index + 1,
    ensures
        node@ == old(scopes)@.frames.last(),
        final(scopes)@ == old(scopes)@.pop_frame(),
{
    let node = scopes.scopes.pop().unwrap();
    proof {
        assert(scopes@.frames =~= old(scopes)@.frames.drop_last());
        assert(scopes@ =~= old(scopes)@.pop_frame());
    }
    node
}

/// The token that follows `counter`: a wrapping increment.
pub open spec fn next_token(counter: u32) -> u32 {
    if counter == u32::MAX {
        0u32
    } else {
        (counter + 1) as u32
    }
}

/// The position of the innermost context accepting `tag`, or `-1` when none
/// does. The scan runs from the innermost (last) frame outward.
pub open spec fn accepting_ix(frames: Seq<ContextView>, tag: TypeTag) -> int
    decreases frames.len(),
{
    if frames.len() == 0 {
        -1
    } else if frames.last().accepts(tag) {
        frames.len() - 1
    } else {
        accepting_ix(frames.drop_last(), tag)
    }
}

/// The token allocated by a report made in state `sv`.
pub open spec fn report_token(sv: ScopesView) -> u32 {
    next_token(sv.counter)
}

/// The scope-stack state after reporting `v` in state `sv`: the counter
/// advances by one (wrapping), and the innermost context accepting `v`'s tag,
/// if any, captures the report; with no acceptor the value is dropped and
/// only the counter moves.
pub open spec fn report_state(sv: ScopesView, v: ErrorValue) -> ScopesView {
    let id = next_token(sv.counter);
    let ix = accepting_ix(sv.frames, v.tag());
    ScopesView {
        frames: if ix >= 0 {
            sv.frames.update(ix, sv.frames[ix].capture(id, v))
        } else {
            sv.frames
        },
        counter: id,
    }
}

/// What `accepting_ix` finds: the innermost accepting position.
pub proof fn lemma_accepting_ix(frames: Seq<ContextView>, tag: TypeTag)
    ensures
        -1 <= accepting_ix(frames, tag) < frames.len(),
        accepting_ix(frames, tag) >= 0 ==> {
            &&& frames[accepting_ix(frames, tag)].accepts(tag)
            &&& forall|j: int|
                accepting_ix(frames, tag) < j < frames.len() ==> !(#[trigger] frames[j]).accepts(
                    tag,
                )
        },
        accepting_ix(frames, tag) == -1 ==> forall|j: int|
            0 <= j < frames.len() ==> !(#[trigger] frames[j]).accepts(tag),
    decreases frames.len(),
{
    if frames.len() > 0 && !frames.last().accepts(tag) {
        lemma_accepting_ix(frames.drop_last(), tag);
        assert forall|j: int| 0 <= j < frames.len() - 1 implies frames.drop_last()[j]
            == frames[j] by {}
    }
}

/// The innermost accepting position determines `accepting_ix`.
pub proof fn lemma_accepting_ix_at(frames: Seq<ContextView>, tag: TypeTag, k: int)
    requires
        0 <= k < frames.len(),
        frames[k].accepts(tag),
        forall|j: int| k < j < frames.len() ==> !(#[trigger] frames[j]).accepts(tag),
    ensures
        accepting_ix(frames, tag) == k,
    decreases frames.len(),
{
    if k < frames.len() - 1 {
        lemma_accepting_ix_at(frames.drop_last(), tag, k);
    }
}

/// When no registered context accepts the tag, `accepting_ix` reports none.
pub proof fn lemma_accepting_ix_none(frames: Seq<ContextView>, tag: TypeTag)
    requires
        forall|j: int| 0 <= j < frames.len() ==> !(#[trigger] frames[j]).accepts(tag),
    ensures
        accepting_ix(frames, tag) == -1,
    decreases frames.len(),
{
    if frames.len() > 0 {
        lemma_accepting_ix_none(frames.drop_last(), tag);
    }
}

/// Two scope-stack states of the same shape: equally deep, and at each depth
/// a context of the same kind, declared for the same tags. A well-behaved
/// wrapped call may report errors (which change captured storage) and push
/// and pop balanced scopes of its own, but it returns the stack at its entry
/// shape — an abandoned registration would later be consulted by an
/// unrelated report.
pub open spec fn scope_evolution(a: ScopesView, b: ScopesView) -> bool {
    &&& b.frames.len() == a.frames.len()
    &&& (forall|i: int|
        0 <= i < a.frames.len() ==> (#[trigger] a.frames[i]).same_shape(b.frames[i]))
    &&& (a.wf() ==> b.wf())
}

/// A context keeps its own shape.
pub proof fn lemma_same_shape_refl(cv: ContextView)
    ensures
        cv.same_shape(cv),
{
}

/// Capturing a report changes a context's storage, never its shape, and
/// keeps it well-formed.
pub proof fn lemma_capture_shape(cv: ContextView, id: u32, v: ErrorValue)
    requires
        cv.wf(),
        cv.accepts(v.tag()),
    ensures
        cv.same_shape(cv.capture(id, v)),
        cv.capture(id, v).wf(),
{
    match cv {
        ContextView::Single(_) => {},
        ContextView::CatchAll(_) => {},
        ContextView::Chain(slots) => {
            lemma_first_slot_ix(slots, v.tag());
            let after = chain_capture(slots, id, v);
            assert forall|i: int| 0 <= i < slots.len() implies (#[trigger] slots[i]).tag
                == after[i].tag && after[i].wf() by {
                assert(ContextView::Chain(slots).wf());
                assert(slots[i].wf());
            }
            assert(slots_wf(after));
        },
    }
}

/// A report leaves the scope stack's shape unchanged and preserves its
/// well-formedness: only the accepting context's storage and the counter
/// move.
pub proof fn lemma_report_evolution(sv: ScopesView, v: ErrorValue)
    ensures
        sv.wf() ==> scope_evolution(sv, report_state(sv, v)),
        sv.wf() ==> report_state(sv, v).wf(),
{
    if sv.wf() {
        let id = next_token(sv.counter);
        let ix = accepting_ix(sv.frames, v.tag());
        let after = report_state(sv, v);
        lemma_accepting_ix(sv.frames, v.tag());
        if ix >= 0 {
            lemma_capture_shape(sv.frames[ix], id, v);
        }
        assert forall|i: int| 0 <= i < sv.frames.len() implies (#[trigger] sv.frames[i]).same_shape(
            after.frames[i],
        ) && after.frames[i].wf() by {
            assert(sv.frames[i].wf());
            if i != ix {
                assert(after.frames[i] == sv.frames[i]);
                lemma_same_shape_refl(sv.frames[i]);
            }
        }
        assert(frames_wf(after.frames));
    }
}

/// Successive reports on one stack yield strictly distinct tokens: two
/// consecutive values of the wrapping 32-bit counter never coincide.
pub proof fn lemma_successive_tokens_distinct(sv: ScopesView, v: ErrorValue)
    ensures
        report_token(sv) != report_token(report_state(sv, v)),
{
}

/// Capture order in a chain: a report is taken by the leftmost slot declared
/// for its tag — of two slots sharing a type the earlier one always wins —
/// and every other slot is left untouched. A chain accepts a report exactly
/// when some slot declares its tag.
pub proof fn lemma_chain_capture_order(slots: Seq<SingleErrorStorage>, id: u32, v: ErrorValue)
    ensures
        (first_slot_ix(slots, v.tag()) >= 0) <==> (exists|j: int|
            0 <= j < slots.len() && (#[trigger] slots[j]).tag == v.tag()),
        first_slot_ix(slots, v.tag()) >= 0 ==> {
            let k = first_slot_ix(slots, v.tag());
            &&& slots[k].tag == v.tag()
            &&& (forall|j: int| 0 <= j < k ==> (#[trigger] slots[j]).tag != v.tag())
            &&& chain_capture(slots, id, v)[k] == (SingleErrorStorage {
                tag: v.tag(),
                captured: Some((id, v)),
            })
            &&& (forall|j: int|
                0 <= j < slots.len() && j != k ==> chain_capture(slots, id, v)[j] == slots[j])
        },
{
    lemma_first_slot_ix(slots, v.tag());
    if exists|j: int| 0 <= j < slots.len() && (#[trigger] slots[j]).tag == v.tag() {
        assert(first_slot_ix(slots, v.tag()) >= 0) by {
            if first_slot_ix(slots, v.tag()) == -1 {
                let j = choose|j: int| 0 <= j < slots.len() && (#[trigger] slots[j]).tag
                    == v.tag();
                assert(slots[j].tag != v.tag());
            }
        }
    }
}

/// An inner registration that does not accept a tag never intercepts its
/// report: the scan passes it by and behaves on the outer scopes exactly as
/// if the inner registration were absent, leaving the inner storage
/// untouched.
pub proof fn lemma_inner_scope_passthrough(sv: ScopesView, node: ContextView, v: ErrorValue)
    requires
        !node.accepts(v.tag()),
    ensures
        report_token(sv.push_frame(node)) == report_token(sv),
        report_state(sv.push_frame(node), v).frames.last() == node,
        report_state(sv.push_frame(node), v).frames.drop_last() == report_state(sv, v).frames,
{
    let pushed = sv.push_frame(node);
    assert(pushed.frames.drop_last() =~= sv.frames);
    assert(pushed.frames.last() == node);
    let ix = accepting_ix(sv.frames, v.tag());
    assert(accepting_ix(pushed.frames, v.tag()) == ix);
    lemma_accepting_ix(sv.frames, v.tag());
    if ix >= 0 {
        assert(pushed.frames[ix] == sv.frames[ix]);
        assert(report_state(pushed, v).frames.last() == node);
        assert(report_state(pushed, v).frames.drop_last() =~= report_state(sv, v).frames);
    }
}

/// Reports a typed error to the scope stack.
///
/// Allocates the next token, then offers the tagged value to each registered
/// context from the innermost outward. The innermost context accepting the
/// tag captures the report; when none does, the value is dropped. Either
/// way the token is returned, for embedding into a result: with no acceptor
/// it is permanently unresolvable.
pub fn push_error<E: crate::Error>(scopes: &mut HandlingScopes, err: E) -> (id: u32)
    requires
        old(scopes)@.wf(),
    ensures
        id == report_token(old(scopes)@),
        final(scopes)@ == report_state(old(scopes)@, err.as_value()),
        final(scopes)@.wf(),
{
    let id = if scopes.error_id == u32::MAX { 0 } else { scopes.error_id + 1 };
    scopes.error_id = id;
    let value = err.to_value();
    let ghost v = value;
    let tag = value.type_tag();
    let mut pending = ReportedError::new(id, value);
    let ghost frames0 = scopes@.frames;
    let mut i: usize = scopes.scopes.len();
    proof {
        assert(frames0 =~= old(scopes)@.frames);
    }
    while i > 0
        invariant
            i <= frames0.len(),
            scopes@.frames == frames0,
            scopes@.counter == id,
            frames_wf(frames0),
            pending.id == id,
            pending.value == v,
            pending.type_id == tag,
            tag == v.tag(),
            pending.wf(),
            frames0 == old(scopes)@.frames,
            id == next_token(old(scopes)@.counter),
            v == err.as_value(),
            forall|j: int| i <= j < frames0.len() ==> !(#[trigger] frames0[j]).accepts(tag),
        decreases i,
    {
        i = i - 1;
        let ghost frames_entry = scopes@.frames;
        let mut node = scopes.scopes.remove(i);
        let (outcome, back) = node.context.try_set_error(pending);
        scopes.scopes.insert(i, node);
        match outcome {
            TrySetErrorResult::NotHandled => {
                proof {
                    assert(scopes@.frames =~= frames0);
                }
                pending = back.unwrap();
            },
            _ => {
                proof {
                    assert(frames0[i as int].accepts(tag));
                    lemma_accepting_ix_at(frames0, tag, i as int);
                    assert(scopes@.frames =~= frames0.update(i as int, frames0[i as int].capture(id, v)));
                    assert(scopes@ =~= report_state(old(scopes)@, v));
                    assert forall|j: int| 0 <= j < scopes@.frames.len() implies (
                    #[trigger] scopes@.frames[j]).wf() by {
                        if j != i as int {
                            assert(scopes@.frames[j] == frames0[j]);
                        }
                    }
                }
                return id;
            },
        }
    }
    proof {
        lemma_accepting_ix_none(frames0, tag);
        assert(scopes@ =~= report_state(old(scopes)@, v));
    }
    id
}

} // verus!
