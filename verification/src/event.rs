//! The single-slot broadcast event channel.
//!
//! A channel connects consumers to producers through a collection of wait
//! slots. Each listener handle owns one slot; calling [`EventListener::listen`]
//! registers that slot and yields a [`RecvFuture`] bound to it. Emitting
//! clones the value into **every** registered slot, in registration order,
//! and consumes the registrations; a slot buffers at most one undelivered
//! value, and publishing into a slot that still holds an unconsumed value is
//! an error, not an overwrite. The producer side is non-owning: once every
//! listener handle has been closed (and when nothing has been registered at
//! all), emitting fails with [`EventEmitError`] carrying the value back to
//! the caller instead of silently dropping it.
//!
//! The channel state lives in one [`EventChannel`] value; listener, emitter
//! and wait handles name slots in it and take the channel as an explicit
//! argument. Its abstract state is the ghost [`ChannelModel`] reached
//! through `@`; the laws at the bottom of this module state the broadcast
//! guarantee, the double-publish refusal and the recovery after a wait is
//! consumed.

use vstd::prelude::*;

verus! {

/// Ghost model of one wait slot: the buffered value, whether a waiter has
/// registered its resumption handle, and whether the owning listener handle
/// is still alive.
pub ghost struct SlotModel<T> {
    pub value: Option<T>,
    pub waiter: bool,
    pub owner_live: bool,
}

/// Ghost model of a whole channel.
#[verifier::ext_equal]
pub ghost struct ChannelModel<T> {
    /// Every slot ever created, indexed by slot id; a closed listener's slot
    /// stays behind, dead and empty.
    pub slots: Seq<SlotModel<T>>,
    /// The slot ids currently registered for delivery, in registration
    /// order. One id may appear more than once: listening twice on the same
    /// handle registers its slot twice.
    pub registered: Seq<int>,
    /// How many listener handles are alive.
    pub live: nat,
}

/// The number of slots whose owning listener handle is alive.
pub open spec fn count_live<T>(slots: Seq<SlotModel<T>>) -> nat
    decreases slots.len(),
{
    if slots.len() == 0 {
        0
    } else {
        (if slots[0].owner_live {
            1nat
        } else {
            0nat
        }) + count_live(slots.drop_first())
    }
}

impl<T> ChannelModel<T> {
    /// The state of a freshly created channel: no slots, no listeners.
    pub open spec fn init() -> ChannelModel<T> {
        ChannelModel { slots: Seq::empty(), registered: Seq::empty(), live: 0 }
    }

    /// Whether `s` is the slot of a live listener handle.
    pub open spec fn listener_live(self, s: int) -> bool {
        0 <= s < self.slots.len() && self.slots[s].owner_live
    }

    /// A new listener handle: a fresh, empty, live slot.
    pub open spec fn add_listener(self) -> ChannelModel<T> {
        ChannelModel {
            slots: self.slots.push(SlotModel { value: None, waiter: false, owner_live: true }),
            live: self.live + 1,
            ..self
        }
    }

    /// Beginning a wait on slot `s`: the slot joins the registration list.
    pub open spec fn listen(self, s: int) -> ChannelModel<T> {
        ChannelModel { registered: self.registered.push(s), ..self }
    }

    /// One poll of the wait bound to slot `s`: a buffered value is taken and
    /// the wait resolves; otherwise the waiter's resumption handle is
    /// recorded and the wait stays suspended.
    pub open spec fn poll_step(self, s: int) -> (ChannelModel<T>, Option<T>)
        recommends
            0 <= s < self.slots.len(),
    {
        let slot = self.slots[s];
        match slot.value {
            Some(v) => (
                ChannelModel {
                    slots: self.slots.update(s, SlotModel { value: None, ..slot }),
                    ..self
                },
                Some(v),
            ),
            None => (
                ChannelModel {
                    slots: self.slots.update(s, SlotModel { waiter: true, ..slot }),
                    ..self
                },
                None,
            ),
        }
    }

    /// Closing a listener handle: its slot dies with whatever it buffered,
    /// its registrations are withdrawn, and one fewer listener is alive.
    pub open spec fn close(self, s: int) -> ChannelModel<T>
        recommends
            self.listener_live(s),
    {
        ChannelModel {
            slots: self.slots.update(
                s,
                SlotModel { value: None, waiter: false, owner_live: false },
            ),
            registered: self.registered.filter(|id: int| id != s),
            live: (self.live - 1) as nat,
        }
    }

    /// At position `k` of the registration list, delivery finds the slot
    /// already occupied: it held an unconsumed value when the emit began, or
    /// an earlier registration names the same slot.
    pub open spec fn turn_blocked(self, k: int) -> bool
        recommends
            0 <= k < self.registered.len(),
    {
        ||| self.slots[self.registered[k]].value is Some
        ||| exists|j: int| 0 <= j < k && self.registered[j] == self.registered[k]
    }

    /// Whether a broadcast can deliver to every registered wait.
    pub open spec fn deliverable(self) -> bool {
        forall|k: int| 0 <= k < self.registered.len() ==> !(#[trigger] self.turn_blocked(k))
    }

    /// Whether an emit succeeds: a listener is alive, at least one wait is
    /// registered, and no registered wait is already occupied.
    pub open spec fn emit_ok(self) -> bool {
        self.live > 0 && self.registered.len() > 0 && self.deliverable()
    }

    /// Whether the wait at position `k` receives the value: every position
    /// up to and including `k` is unblocked. On a successful emit that is
    /// every position; on a refused one, every position before the first
    /// occupied slot.
    pub open spec fn delivered_to(self, k: int) -> bool {
        &&& 0 <= k < self.registered.len()
        &&& forall|j: int| 0 <= j <= k ==> !(#[trigger] self.turn_blocked(j))
    }

    /// Whether slot `s` receives the value.
    pub open spec fn delivered_slot(self, s: int) -> bool {
        exists|k: int| #[trigger] self.delivered_to(k) && self.registered[k] == s
    }

    /// How an emit that reaches the registration list changes the channel,
    /// `pre` to `post`: the list is consumed whole; the waits it reached in
    /// order — all of them if none was occupied — each hold a clone of the
    /// value; every other slot keeps its value; liveness and waiters are
    /// untouched.
    pub open spec fn emit_post(pre: ChannelModel<T>, post: ChannelModel<T>, value: T) -> bool
        where T: Clone
    {
        &&& post.slots.len() == pre.slots.len()
        &&& post.registered == Seq::<int>::empty()
        &&& post.live == pre.live
        &&& forall|s: int|
            0 <= s < pre.slots.len() ==> (#[trigger] post.slots[s]).waiter == pre.slots[s].waiter
                && post.slots[s].owner_live == pre.slots[s].owner_live
        &&& forall|k: int|
            #[trigger] pre.delivered_to(k) ==> post.slots[pre.registered[k]].value is Some
                && cloned::<T>(value, post.slots[pre.registered[k]].value->0)
        &&& forall|s: int|
            0 <= s < pre.slots.len() && !pre.delivered_slot(s) ==> (
            #[trigger] post.slots[s]).value == pre.slots[s].value
    }

    /// Well-formedness: registrations point at live slots, and the live
    /// count is exactly the number of live slots.
    pub open spec fn wf(self) -> bool {
        &&& forall|k: int|
            0 <= k < self.registered.len() ==> self.listener_live(#[trigger] self.registered[k])
        &&& self.live == count_live(self.slots)
    }
}

/// A live slot keeps the count positive.
proof fn lemma_count_live_pos<T>(slots: Seq<SlotModel<T>>, i: int)
    requires
        0 <= i < slots.len(),
        slots[i].owner_live,
    ensures
        count_live(slots) >= 1,
    decreases slots.len(),
{
    if i > 0 {
        lemma_count_live_pos(slots.drop_first(), i - 1);
    }
}

/// There are never more live slots than slots.
proof fn lemma_count_live_le_len<T>(slots: Seq<SlotModel<T>>)
    ensures
        count_live(slots) <= slots.len(),
    decreases slots.len(),
{
    if slots.len() > 0 {
        lemma_count_live_le_len(slots.drop_first());
    }
}

/// Appending a slot adds its liveness to the count.
proof fn lemma_count_live_push<T>(slots: Seq<SlotModel<T>>, x: SlotModel<T>)
    ensures
        count_live(slots.push(x)) == count_live(slots) + if x.owner_live {
            1int
        } else {
            0int
        },
    decreases slots.len(),
{
    if slots.len() == 0 {
        assert(slots.push(x).drop_first() =~= slots);
    } else {
        assert(slots.push(x).drop_first() =~= slots.drop_first().push(x));
        lemma_count_live_push(slots.drop_first(), x);
    }
}

/// Replacing a slot adjusts the count by the change in liveness.
proof fn lemma_count_live_update<T>(slots: Seq<SlotModel<T>>, i: int, x: SlotModel<T>)
    requires
        0 <= i < slots.len(),
    ensures
        count_live(slots.update(i, x)) == count_live(slots) - (if slots[i].owner_live {
            1int
        } else {
            0int
        }) + (if x.owner_live {
            1int
        } else {
            0int
        }),
    decreases slots.len(),
{
    if i == 0 {
        assert(slots.update(0, x).drop_first() =~= slots.drop_first());
    } else {
        assert(slots.update(i, x).drop_first() =~= slots.drop_first().update(i - 1, x));
        lemma_count_live_update(slots.drop_first(), i - 1, x);
    }
}

/// What a filter keeps was already there.
proof fn lemma_filter_subset<A>(s: Seq<A>, pred: spec_fn(A) -> bool)
    ensures
        forall|x: A| #[trigger] s.filter(pred).contains(x) ==> s.contains(x),
    decreases s.len(),
{
    reveal(Seq::filter);
    if s.len() > 0 {
        lemma_filter_subset(s.drop_last(), pred);
        assert forall|x: A| #[trigger] s.filter(pred).contains(x) implies s.contains(x) by {
            if s.drop_last().filter(pred).contains(x) {
                let j = choose|j: int|
                    0 <= j < s.drop_last().len() && s.drop_last()[j] == x;
                assert(s[j] == x);
            } else {
                assert(x == s.last());
                assert(s[s.len() - 1] == x);
            }
        }
    }
}

/// One wait slot as the channel holds it.
struct Slot<T> {
    value: Option<T>,
    waiter: bool,
    owner_live: bool,
}

impl<T> Slot<T> {
    spec fn model(self) -> SlotModel<T> {
        SlotModel { value: self.value, waiter: self.waiter, owner_live: self.owner_live }
    }
}

/// The state of one event channel: the shared slot collection that a family
/// of listener handles owns and that emitters borrow. Handles name slots in
/// it and take the channel as an explicit argument; everything runs on one
/// logical thread.
pub struct EventChannel<T> {
    slots: Vec<Slot<T>>,
    registered: Vec<usize>,
    live: usize,
}

impl<T> View for EventChannel<T> {
    type V = ChannelModel<T>;

    closed spec fn view(&self) -> ChannelModel<T> {
        ChannelModel {
            slots: self.slots@.map_values(|s: Slot<T>| s.model()),
            registered: self.registered@.map_values(|u: usize| u as int),
            live: self.live as nat,
        }
    }
}

impl<T> EventChannel<T> {
    /// Creates an empty channel with no listeners; until a listener is
    /// added, emitting fails as if every listener had been dropped.
    pub fn new() -> (ch: Self)
        ensures
            ch@ == ChannelModel::<T>::init(),
            ch@.wf(),
    {
        let ch = EventChannel { slots: Vec::new(), registered: Vec::new(), live: 0 };
        proof {
            assert(ch@ =~= ChannelModel::<T>::init());
        }
        ch
    }

    /// Adds a listener handle owning a fresh wait slot.
    pub fn add_listener(&mut self) -> (l: EventListener)
        requires
            old(self)@.wf(),
        ensures
            final(self)@ == old(self)@.add_listener(),
            final(self)@.wf(),
            l@ == old(self)@.slots.len(),
            final(self)@.listener_live(l@),
    {
        let id = self.slots.len();
        self.slots.push(Slot { value: None, waiter: false, owner_live: true });
        proof {
            lemma_count_live_le_len(old(self)@.slots);
            vstd::std_specs::vec::axiom_spec_len(&self.slots);
            assert(old(self)@.slots.len() == self.slots@.len() - 1);
        }
        self.live = self.live + 1;
        proof {
            broadcast use vstd::prelude::Seq::lemma_push_map_commute;

            assert(self@ =~= old(self)@.add_listener());
            lemma_count_live_push(
                old(self)@.slots,
                SlotModel { value: None, waiter: false, owner_live: true },
            );
        }
        EventListener { slot: id }
    }
}

/// Error returned when an event emission fails: no live listener, no
/// registered wait, or a wait slot still holding an unconsumed value. The
/// offending value is handed back unchanged so it is not silently lost.
#[derive(Debug, PartialEq, Eq)]
pub struct EventEmitError<T>(pub T);

/// The producer-side handle of a channel: non-owning, so it does not keep
/// the slot collection alive. Many emitters may be derived from one
/// listener family; a default-constructed emitter is attached to nothing
/// and always fails to emit.
pub struct EventEmitter {
    attached: bool,
}

impl EventEmitter {
    /// Whether this emitter was derived from a listener, as opposed to
    /// default-constructed with nothing behind it.
    pub closed spec fn is_attached(&self) -> bool {
        self.attached
    }

    /// Emits `value` to every wait registered in `ch`, in registration
    /// order, consuming the registrations. Fails, handing the value back,
    /// when the emitter is attached to nothing, when no listener is alive,
    /// when nothing is registered, or when a registered slot still holds an
    /// unconsumed value — in that last case the waits registered before the
    /// occupied slot have already received the value and stay delivered.
    #[verifier::loop_isolation(false)]
    pub fn emit<T: Clone>(&self, ch: &mut EventChannel<T>, value: T) -> (r: Result<
        (),
        EventEmitError<T>,
    >)
        requires
            old(ch)@.wf(),
        ensures
            final(ch)@.wf(),
            !self.is_attached() ==> final(ch)@ == old(ch)@ && r == Err::<(), EventEmitError<T>>(
                EventEmitError(value),
            ),
            self.is_attached() && (old(ch)@.live == 0 || old(ch)@.registered.len() == 0)
                ==> final(ch)@ == old(ch)@ && r == Err::<(), EventEmitError<T>>(
                EventEmitError(value),
            ),
            self.is_attached() && old(ch)@.live > 0 && old(ch)@.registered.len() > 0 ==> ({
                &&& ChannelModel::emit_post(old(ch)@, final(ch)@, value)
                &&& (r == Ok::<(), EventEmitError<T>>(()) <==> old(ch)@.deliverable())
                &&& (!old(ch)@.deliverable() ==> r == Err::<(), EventEmitError<T>>(
                    EventEmitError(value),
                ))
            }),
    {
        if !self.attached {
            return Err(EventEmitError(value));
        }
        if ch.live == 0 {
            return Err(EventEmitError(value));
        }
        if ch.registered.len() == 0 {
            return Err(EventEmitError(value));
        }
        let ghost pre = old(ch)@;
        let mut ids: Vec<usize> = Vec::new();
        core::mem::swap(&mut ids, &mut ch.registered);
        proof {
            assert(ch@.registered =~= Seq::<int>::empty());
        }
        let n = ids.len();
        let mut k: usize = 0;
        while k < n
            invariant
                n == ids.len(),
                0 <= k <= n,
                ids@.map_values(|u: usize| u as int) == pre.registered,
                pre.wf(),
                ch@.registered == Seq::<int>::empty(),
                ch@.live == pre.live,
                ch@.slots.len() == pre.slots.len(),
                ch@.live == count_live(ch@.slots),
                forall|j: int| 0 <= j < k ==> !(#[trigger] pre.turn_blocked(j)),
                forall|j: int|
                    0 <= j < k ==> (#[trigger] ch@.slots[pre.registered[j]]).value is Some
                        && cloned::<T>(value, ch@.slots[pre.registered[j]].value->0),
                forall|s: int|
                    0 <= s < pre.slots.len() && !(exists|j: int|
                        0 <= j < k && pre.registered[j] == s) ==> (
                    #[trigger] ch@.slots[s]).value == pre.slots[s].value,
                forall|s: int|
                    0 <= s < pre.slots.len() ==> (#[trigger] ch@.slots[s]).waiter
                        == pre.slots[s].waiter && ch@.slots[s].owner_live
                        == pre.slots[s].owner_live,
            decreases n - k,
        {
            let s = ids[k];
            proof {
                assert(pre.listener_live(pre.registered[k as int]));
            }
            if ch.slots[s].value.is_some() {
                proof {
                    assert(pre.turn_blocked(k as int)) by {
                        if !(exists|j: int| 0 <= j < k && pre.registered[j] == s as int) {
                            assert(ch@.slots[s as int].value == pre.slots[s as int].value);
                        }
                    }
                    assert forall|j: int| #[trigger]
                        pre.delivered_to(j) implies 0 <= j < k by {
                        assert(!pre.turn_blocked(k as int) || !(0 <= k <= j));
                    }
                    assert forall|t: int|
                        0 <= t < pre.slots.len() && !pre.delivered_slot(t) implies (
                    #[trigger] ch@.slots[t]).value == pre.slots[t].value by {
                        if exists|j: int| 0 <= j < k && pre.registered[j] == t {
                            let j = choose|j: int| 0 <= j < k && pre.registered[j] == t;
                            assert(pre.delivered_to(j));
                        }
                    }
                }
                return Err(EventEmitError(value));
            }
            let c = value.clone();
            let ghost mid = ch@;
            let waiter = ch.slots[s].waiter;
            let owner_live = ch.slots[s].owner_live;
            ch.slots.set(s, Slot { value: Some(c), waiter, owner_live });
            proof {
                assert(ch@.slots =~= mid.slots.update(
                    s as int,
                    SlotModel { value: Some(c), waiter, owner_live },
                ));
                lemma_count_live_update(
                    mid.slots,
                    s as int,
                    SlotModel { value: Some(c), waiter, owner_live },
                );
                assert(!pre.turn_blocked(k as int)) by {
                    assert(mid.slots[s as int].value == pre.slots[s as int].value);
                }
            }
            k = k + 1;
        }
        proof {
            assert forall|t: int|
                0 <= t < pre.slots.len() && !pre.delivered_slot(t) implies (
            #[trigger] ch@.slots[t]).value == pre.slots[t].value by {
                if exists|j: int| 0 <= j < n && pre.registered[j] == t {
                    let j = choose|j: int| 0 <= j < n && pre.registered[j] == t;
                    assert(pre.delivered_to(j));
                }
            }
        }
        Ok(())
    }
}

impl Default for EventEmitter {
    /// An emitter attached to nothing; every emit through it fails.
    fn default() -> (e: Self)
        ensures
            !e.is_attached(),
    {
        EventEmitter { attached: false }
    }
}

/// A consumer-side handle of a channel. The family of live listener handles
/// collectively owns the slot collection; each handle owns one wait slot in
/// it. Listening registers that slot; closing the handle destroys the slot
/// and withdraws its registrations.
pub struct EventListener {
    slot: usize,
}

impl View for EventListener {
    type V = int;

    closed spec fn view(&self) -> int {
        self.slot as int
    }
}

impl EventListener {
    /// Derives a producer-side handle. The emitter does not keep the
    /// channel's listeners alive: once every listener handle is closed,
    /// emitting through it fails.
    pub fn new_emitter(&self) -> (e: EventEmitter)
        ensures
            e.is_attached(),
    {
        EventEmitter { attached: true }
    }

    /// A second handle on the same channel, with a fresh wait slot of its
    /// own: emissions broadcast to every handle's slot, but each handle
    /// waits on its own.
    pub fn fork<T>(&self, ch: &mut EventChannel<T>) -> (l: EventListener)
        requires
            old(ch)@.wf(),
        ensures
            final(ch)@ == old(ch)@.add_listener(),
            final(ch)@.wf(),
            l@ == old(ch)@.slots.len(),
            final(ch)@.listener_live(l@),
    {
        ch.add_listener()
    }

    /// Registers interest in the next event: this handle's slot joins the
    /// registration list (again, if it is already there — only one value
    /// may be outstanding per slot) and the returned wait resolves once a
    /// value is delivered to it.
    pub fn listen<T>(&self, ch: &mut EventChannel<T>) -> (w: RecvFuture)
        requires
            old(ch)@.wf(),
            old(ch)@.listener_live(self@),
        ensures
            final(ch)@ == old(ch)@.listen(self@),
            final(ch)@.wf(),
            w@ == self@,
    {
        ch.registered.push(self.slot);
        proof {
            broadcast use vstd::prelude::Seq::lemma_push_map_commute;

            assert(ch@ =~= old(ch)@.listen(self@));
        }
        RecvFuture { slot: self.slot }
    }

    /// Closes this handle: its slot is destroyed together with whatever it
    /// buffered, its registrations are withdrawn, and once the last handle
    /// is closed the channel counts as gone — emitting fails.
    #[verifier::loop_isolation(false)]
    pub fn close<T>(self, ch: &mut EventChannel<T>)
        requires
            old(ch)@.wf(),
            old(ch)@.listener_live(self@),
        ensures
            final(ch)@ == old(ch)@.close(self@),
            final(ch)@.wf(),
    {
        let ghost pre = ch@;
        let mut kept: Vec<usize> = Vec::new();
        let n = ch.registered.len();
        let mut i: usize = 0;
        while i < n
            invariant
                n == ch.registered.len(),
                0 <= i <= n,
                ch@ == pre,
                kept@.map_values(|u: usize| u as int) == pre.registered.take(i as int).filter(
                    |id: int| id != self@,
                ),
            decreases n - i,
        {
            let id = ch.registered[i];
            if id != self.slot {
                kept.push(id);
            }
            proof {
                broadcast use vstd::prelude::Seq::lemma_push_map_commute;
                broadcast use vstd::prelude::Seq::lemma_filter_push;
                broadcast use vstd::prelude::Seq::lemma_take_succ_push;

                assert(pre.registered.take(i + 1) =~= pre.registered.take(i as int).push(
                    pre.registered[i as int],
                ));
                assert(kept@.map_values(|u: usize| u as int) =~= pre.registered.take(i + 1).filter(
                    |id: int| id != self@,
                ));
            }
            i = i + 1;
        }
        proof {
            assert(pre.registered.take(n as int) =~= pre.registered);
        }
        let mut registered = kept;
        core::mem::swap(&mut registered, &mut ch.registered);
        ch.slots.set(self.slot, Slot { value: None, waiter: false, owner_live: false });
        proof {
            lemma_count_live_pos(pre.slots, self@);
        }
        ch.live = ch.live - 1;
        proof {
            assert(ch@.slots =~= pre.slots.update(
                self@,
                SlotModel { value: None, waiter: false, owner_live: false },
            ));
            lemma_count_live_update(
                pre.slots,
                self@,
                SlotModel { value: None, waiter: false, owner_live: false },
            );
            assert(ch@ =~= pre.close(self@));
            lemma_filter_subset(pre.registered, |id: int| id != self@);
            assert forall|k: int| 0 <= k < ch@.registered.len() implies ch@.listener_live(
                #[trigger] ch@.registered[k],
            ) by {
                broadcast use vstd::prelude::Seq::lemma_filter_pred;

                let id = ch@.registered[k];
                assert(ch@.registered.contains(id));
                assert(pre.registered.contains(id));
                let j = choose|j: int| 0 <= j < pre.registered.len() && pre.registered[j] == id;
                assert(pre.listener_live(id));
                assert(id != self@);
            }
        }
    }
}

/// A wait created by [`EventListener::listen`]: it resolves once a value is
/// delivered to the slot it is bound to.
pub struct RecvFuture {
    slot: usize,
}

impl View for RecvFuture {
    type V = int;

    closed spec fn view(&self) -> int {
        self.slot as int
    }
}

impl RecvFuture {
    /// One resumption step of the wait: a delivered value is taken out of
    /// the slot — consuming it, so the slot is free for a later wait — and
    /// otherwise the waiter's resumption handle is recorded and the wait
    /// reports "still suspended" as `None`.
    pub fn poll<T>(&self, ch: &mut EventChannel<T>) -> (r: Option<T>)
        requires
            old(ch)@.wf(),
            0 <= self@ < old(ch)@.slots.len(),
        ensures
            final(ch)@ == old(ch)@.poll_step(self@).0,
            final(ch)@.wf(),
            r == old(ch)@.poll_step(self@).1,
    {
        let s = self.slot;
        let waiter = ch.slots[s].waiter;
        let owner_live = ch.slots[s].owner_live;
        let mut taken = Slot { value: None, waiter, owner_live };
        core::mem::swap(&mut taken, &mut ch.slots[s]);
        let r = match taken.value {
            Some(v) => {
                proof {
                    lemma_count_live_update(old(ch)@.slots, self@, SlotModel { value: None, waiter, owner_live });
                }
                Some(v)
            },
            None => {
                ch.slots.set(s, Slot { value: None, waiter: true, owner_live });
                proof {
                    lemma_count_live_update(old(ch)@.slots, self@, SlotModel { value: None, waiter: true, owner_live });
                }
                None
            },
        };
        proof {
            assert(ch@.slots =~= old(ch)@.poll_step(self@).0.slots);
            assert(ch@ =~= old(ch)@.poll_step(self@).0);
        }
        r
    }
}

/// Law (broadcast): when an emit reaches every registered wait — the
/// channel is live, something is registered, and no slot is occupied —
/// each of those waits, polled afterwards, resolves to a clone of the
/// emitted value.
pub proof fn lemma_broadcast_resolves<T: Clone>(
    pre: ChannelModel<T>,
    post: ChannelModel<T>,
    value: T,
    k: int,
)
    requires
        pre.wf(),
        pre.deliverable(),
        ChannelModel::emit_post(pre, post, value),
        0 <= k < pre.registered.len(),
    ensures
        post.poll_step(pre.registered[k]).1 is Some,
        cloned::<T>(value, post.poll_step(pre.registered[k]).1->0),
{
    assert(pre.delivered_to(k));
}

/// Law (double publish refused): an emit aimed at a registration list in
/// which some wait slot still holds an unconsumed value cannot succeed.
pub proof fn lemma_emit_occupied_fails<T>(m: ChannelModel<T>, k: int)
    requires
        0 <= k < m.registered.len(),
        m.slots[m.registered[k]].value is Some,
    ensures
        !m.deliverable(),
        !m.emit_ok(),
{
    assert(m.turn_blocked(k));
}

/// Law (recovery): once a delivered wait has been consumed, a fresh listen
/// on the same slot makes the next emit deliverable again.
pub proof fn lemma_listen_after_consume<T>(m: ChannelModel<T>, s: int)
    requires
        m.wf(),
        m.live > 0,
        m.registered.len() == 0,
        m.listener_live(s),
        m.slots[s].value is None,
    ensures
        m.listen(s).emit_ok(),
{
    let m1 = m.listen(s);
    assert forall|k: int| 0 <= k < m1.registered.len() implies !(#[trigger] m1.turn_blocked(
        k,
    )) by {
        assert(k == 0);
    }
}

} // verus!
