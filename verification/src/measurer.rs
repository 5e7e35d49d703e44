//! Deferred external completion: the measurement registry.
//!
//! Callers register an item whose result only becomes usable after an
//! external, batched completion signal ("the render pass finished"). The
//! [`Registry`] keeps each item in a generation-checked arena slot; the
//! caller's handle and the pending future hold *strong* references
//! (counted in the slot), while the registry's own collections hold only
//! *weak* references — index plus generation. A caller that abandons its
//! handle needs no cancellation call: the next sweep finds the slot
//! without a strong owner and forgets it.
//!
//! Like the multiplexer, the registry performs no I/O: transitions return
//! the work the owning view must do (render, request a render-completed
//! notification, dispatch a batch of wakes).

use vstd::prelude::*;

use crate::bytes;
use crate::connection::wrap_inc;
use crate::lemmas;
use crate::suspend::PollResult;

verus! {

/// A registry event, as the owning component's update loop reports it.
#[derive(Debug, Clone, Copy, PartialEq, Eq, Structural)]
pub enum Msg {
    /// A caller registered an item; the view must render and then report
    /// completion of the pass.
    WaitForRender,
    /// The external render pass completed: sweep for realized items.
    Measured,
    /// A message from a rendered item's own subtree; rendered items are
    /// inert, so this never arrives in a well-behaved view.
    MeasuredElementMessage,
}

/// An effect the owning view must perform after a transition.
#[derive(Debug, Clone, Copy, PartialEq, Eq, Structural)]
pub enum RegAction {
    /// Subscribe to the next "render pass completed" notification.
    NotifyAfterRender,
    /// Request another render pass.
    Render,
    /// No render pass is needed; skip it.
    Skip,
    /// Hand this wake token back to the scheduler, after the sweep.
    Wake(u64),
}

/// The fatal faults of the registry.
#[derive(Debug, Clone, Copy, PartialEq, Eq, Structural)]
pub enum RegError {
    /// An item's "realized" and "rendered" markers disagree. That is a
    /// logic defect in the owning view, never an environmental condition,
    /// and must not be swallowed.
    ConsistencyViolation,
}

/// A weak reference into the arena: an index and the generation the slot
/// had when the reference was created. The reference resolves only while
/// the slot still carries that generation and a strong owner.
#[derive(Debug, Clone, Copy, PartialEq, Eq, Structural)]
pub struct ItemRef {
    pub index: usize,
    pub generation: u64,
}

/// One arena slot: the item's payload and markers, its current
/// generation, and the count of strong owners (caller handles and live
/// futures).
pub struct ItemSlot {
    pub generation: u64,
    pub strong: u64,
    pub text: Vec<u8>,
    /// Set by the expose sweep: the item was handed to the view.
    pub rendered: bool,
    /// Set when the view attached the item to a live node.
    pub realized: bool,
}

/// Spec-level form of [`ItemSlot`].
#[verifier::ext_equal]
pub struct ItemSlotV {
    pub generation: u64,
    pub strong: u64,
    pub text: Seq<u8>,
    pub rendered: bool,
    pub realized: bool,
}

impl View for ItemSlot {
    type V = ItemSlotV;

    open spec fn view(&self) -> ItemSlotV {
        ItemSlotV {
            generation: self.generation,
            strong: self.strong,
            text: self.text@,
            rendered: self.rendered,
            realized: self.realized,
        }
    }
}

/// The future-side record for one registered item: the item it watches
/// (a strong reference, counted in the slot while `alive`), whether the
/// future itself is still alive, and the wake token of its poller.
#[derive(Debug, Clone, Copy)]
pub struct FutureEntry {
    pub item: ItemRef,
    pub alive: bool,
    pub waker: Option<u64>,
}

/// The caller's strongly-owned handle to a registered item.
#[derive(Debug, Clone, Copy, PartialEq, Eq, Structural)]
pub struct MeasureHandle {
    pub item: ItemRef,
}

/// The future half returned by [`Registry::await_completion`]; polled
/// through the registry, resolved by realization.
#[derive(Debug, PartialEq, Eq, Structural)]
pub struct MeasureFuture {
    pub item: ItemRef,
}

/// One item of the expose sweep's result: the item's weak reference and
/// its payload, for the view to render.
pub struct Exposed {
    pub item: ItemRef,
    pub text: Vec<u8>,
}

/// Spec-level form of [`Exposed`].
#[verifier::ext_equal]
pub struct ExposedV {
    pub item: ItemRef,
    pub text: Seq<u8>,
}

impl View for Exposed {
    type V = ExposedV;

    open spec fn view(&self) -> ExposedV {
        ExposedV { item: self.item, text: self.text@ }
    }
}

/// What a completion sweep produced: the wake tokens to dispatch as one
/// batch after the sweep, and whether any item still needs a future
/// signal.
#[derive(Debug, PartialEq, Eq)]
pub struct SignalOutcome {
    pub wakers: Vec<u64>,
    pub again: bool,
}

/// The completion registry.
pub struct Registry {
    /// The arena of item slots; slots are reused, with a bumped
    /// generation, once their strong count reaches zero.
    pub items: Vec<ItemSlot>,
    /// Weak references to the items awaiting exposure to the view.
    pub measurements: Vec<ItemRef>,
    /// The future records of items not yet realized and woken.
    pub futures: Vec<FutureEntry>,
}

/// Spec-level form of [`Registry`].
#[verifier::ext_equal]
pub struct RegV {
    pub items: Seq<ItemSlotV>,
    pub measurements: Seq<ItemRef>,
    pub futures: Seq<FutureEntry>,
}

impl View for Registry {
    type V = RegV;

    open spec fn view(&self) -> RegV {
        RegV {
            items: self.items@.map_values(|s: ItemSlot| s@),
            measurements: self.measurements@,
            futures: self.futures@,
        }
    }
}

/// Whether the weak reference `r` still resolves: the slot exists, its
/// generation matches, and some strong owner keeps the item alive.
pub open spec fn live(items: Seq<ItemSlotV>, r: ItemRef) -> bool {
    &&& r.index < items.len()
    &&& items[r.index as int].generation == r.generation
    &&& items[r.index as int].strong > 0
}

/// Index of the first reusable (ownerless) slot at or after `i`, if any.
pub open spec fn find_free_from(items: Seq<ItemSlotV>, i: int) -> Option<int>
    decreases items.len() - i,
{
    if i < 0 || i >= items.len() {
        None
    } else if items[i].strong == 0 {
        Some(i)
    } else {
        find_free_from(items, i + 1)
    }
}

/// Index of the first reusable slot, if any.
pub open spec fn find_free(items: Seq<ItemSlotV>) -> Option<int> {
    find_free_from(items, 0)
}

/// Index of the first live future record for item `r` at or after `i`.
pub open spec fn find_future_from(fs: Seq<FutureEntry>, r: ItemRef, i: int) -> Option<int>
    decreases fs.len() - i,
{
    if i < 0 || i >= fs.len() {
        None
    } else if fs[i].alive && fs[i].item == r {
        Some(i)
    } else {
        find_future_from(fs, r, i + 1)
    }
}

/// Index of the first live future record for item `r`, if any.
pub open spec fn find_future(fs: Seq<FutureEntry>, r: ItemRef) -> Option<int> {
    find_future_from(fs, r, 0)
}

impl RegV {
    /// The state of a fresh registry.
    pub open spec fn init() -> RegV {
        RegV { items: Seq::empty(), measurements: Seq::empty(), futures: Seq::empty() }
    }

    /// Well-formedness: every weak reference the registry holds points
    /// into the arena (it may still be stale; staleness is what the
    /// generation check is for).
    pub open spec fn wf(self) -> bool {
        &&& forall|i: int|
            0 <= i < self.measurements.len() ==> (#[trigger] self.measurements[i]).index
                < self.items.len()
        &&& forall|i: int|
            0 <= i < self.futures.len() ==> (#[trigger] self.futures[i]).item.index
                < self.items.len()
    }
}

/// Registering an item: a dead slot is reused with a bumped generation
/// (stale references to it keep failing), or a fresh slot is appended.
/// The slot starts with two strong owners — the caller's handle and the
/// future — and both sweeping collections record it.
pub open spec fn spec_await_completion(rg: RegV, text: Seq<u8>) -> (RegV, ItemRef) {
    match find_free(rg.items) {
        Some(j) => {
            let gen = wrap_inc(rg.items[j].generation);
            let rf = ItemRef { index: j as usize, generation: gen };
            let slot = ItemSlotV {
                generation: gen,
                strong: 2,
                text,
                rendered: false,
                realized: false,
            };
            (
                RegV {
                    items: rg.items.update(j, slot),
                    measurements: rg.measurements.push(rf),
                    futures: rg.futures.push(FutureEntry { item: rf, alive: true, waker: None }),
                },
                rf,
            )
        },
        None => {
            let rf = ItemRef { index: rg.items.len() as usize, generation: 0 };
            let slot = ItemSlotV {
                generation: 0,
                strong: 2,
                text,
                rendered: false,
                realized: false,
            };
            (
                RegV {
                    items: rg.items.push(slot),
                    measurements: rg.measurements.push(rf),
                    futures: rg.futures.push(FutureEntry { item: rf, alive: true, waker: None }),
                },
                rf,
            )
        },
    }
}

/// The expose sweep over the weak measurement references: survivors are
/// exactly the references that still resolve, in order.
pub open spec fn sweep_measure(items: Seq<ItemSlotV>, ms: Seq<ItemRef>) -> Seq<ItemRef>
    decreases ms.len(),
{
    if ms.len() == 0 {
        Seq::empty()
    } else {
        let rest = sweep_measure(items, ms.drop_last());
        if live(items, ms.last()) {
            rest.push(ms.last())
        } else {
            rest
        }
    }
}

/// Marks each surviving item's slot as rendered.
pub open spec fn mark_rendered(items: Seq<ItemSlotV>, survivors: Seq<ItemRef>) -> Seq<ItemSlotV>
    decreases survivors.len(),
{
    if survivors.len() == 0 {
        items
    } else {
        let it = mark_rendered(items, survivors.drop_last());
        let r = survivors.last();
        if r.index < it.len() {
            it.update(r.index as int, ItemSlotV { rendered: true, ..it[r.index as int] })
        } else {
            it
        }
    }
}

/// What the expose sweep hands to the view: each survivor with its
/// payload.
pub open spec fn expose_texts(items: Seq<ItemSlotV>, survivors: Seq<ItemRef>) -> Seq<ExposedV> {
    survivors.map_values(|r: ItemRef| ExposedV { item: r, text: items[r.index as int].text })
}

/// Exposing all pending items: entries whose strong owners are gone are
/// dropped (this is the reclamation path), the survivors are marked
/// rendered and returned for the view to render.
pub open spec fn spec_expose_all(rg: RegV) -> (RegV, Seq<ExposedV>) {
    let survivors = sweep_measure(rg.items, rg.measurements);
    (
        RegV {
            items: mark_rendered(rg.items, survivors),
            measurements: survivors,
            futures: rg.futures,
        },
        expose_texts(rg.items, survivors),
    )
}

/// Attaching an exposed item to a live view node: its realization becomes
/// observably true. Stale references are inert.
pub open spec fn spec_mark_realized(rg: RegV, r: ItemRef) -> RegV {
    if live(rg.items, r) {
        RegV {
            items: rg.items.update(
                r.index as int,
                ItemSlotV { realized: true, ..rg.items[r.index as int] },
            ),
            ..rg
        }
    } else {
        rg
    }
}

/// The consistency obligation per future record: while its item is still
/// reachable, the item's rendered and realized markers must agree.
pub open spec fn entry_ok(items: Seq<ItemSlotV>, e: FutureEntry) -> bool {
    e.alive && live(items, e.item) ==> items[e.item.index as int].rendered == items[
        e.item.index as int
    ].realized
}

/// Whether every future record meets its consistency obligation.
pub open spec fn consistent(rg: RegV) -> bool {
    forall|i: int| 0 <= i < rg.futures.len() ==> entry_ok(rg.items, #[trigger] rg.futures[i])
}

/// The wake tokens the completion sweep captures: one per live record
/// whose item is realized and whose poller left a token, in order.
pub open spec fn sweep_wakers(items: Seq<ItemSlotV>, fs: Seq<FutureEntry>) -> Seq<u64>
    decreases fs.len(),
{
    if fs.len() == 0 {
        Seq::empty()
    } else {
        let rest = sweep_wakers(items, fs.drop_last());
        let e = fs.last();
        if e.alive && live(items, e.item) && items[e.item.index as int].realized {
            match e.waker {
                Some(w) => rest.push(w),
                None => rest,
            }
        } else {
            rest
        }
    }
}

/// The records the completion sweep keeps for the next signal: live ones
/// whose item is reachable but not yet realized.
pub open spec fn sweep_kept(items: Seq<ItemSlotV>, fs: Seq<FutureEntry>) -> Seq<FutureEntry>
    decreases fs.len(),
{
    if fs.len() == 0 {
        Seq::empty()
    } else {
        let rest = sweep_kept(items, fs.drop_last());
        let e = fs.last();
        if e.alive && live(items, e.item) && !items[e.item.index as int].realized {
            rest.push(e)
        } else {
            rest
        }
    }
}

/// The completion sweep: checks the consistency invariant first (a
/// violation is fatal and changes nothing), then captures the wake
/// tokens of realized items for one batched dispatch, drops records whose
/// future or item is gone, and keeps the rest for the next signal.
pub open spec fn spec_on_signal(rg: RegV) -> Result<(RegV, Seq<u64>, bool), RegError> {
    if !consistent(rg) {
        Err(RegError::ConsistencyViolation)
    } else {
        let wakers = sweep_wakers(rg.items, rg.futures);
        let kept = sweep_kept(rg.items, rg.futures);
        Ok((RegV { futures: kept, ..rg }, wakers, kept.len() > 0))
    }
}

/// Polling a measure future: realization resolves it — the caller gets a
/// fresh strong handle to the item — and otherwise the poller's wake
/// token is stored in the future's record for the next sweep.
pub open spec fn spec_poll_future(rg: RegV, f: ItemRef, waker: u64) -> (RegV, bool) {
    if live(rg.items, f) && rg.items[f.index as int].realized {
        (
            RegV {
                items: rg.items.update(
                    f.index as int,
                    ItemSlotV {
                        strong: (rg.items[f.index as int].strong + 1) as u64,
                        ..rg.items[f.index as int]
                    },
                ),
                ..rg
            },
            true,
        )
    } else {
        match find_future(rg.futures, f) {
            Some(j) => (
                RegV {
                    futures: rg.futures.update(
                        j,
                        FutureEntry { waker: Some(waker), ..rg.futures[j] },
                    ),
                    ..rg
                },
                false,
            ),
            None => (rg, false),
        }
    }
}

/// Dropping a measure future: its record dies and its strong reference on
/// the item is released. The next sweeps then reclaim both.
pub open spec fn spec_drop_future(rg: RegV, f: ItemRef) -> RegV {
    match find_future(rg.futures, f) {
        None => rg,
        Some(j) => {
            let rg1 = RegV {
                futures: rg.futures.update(j, FutureEntry { alive: false, ..rg.futures[j] }),
                ..rg
            };
            if live(rg.items, f) {
                RegV {
                    items: rg.items.update(
                        f.index as int,
                        ItemSlotV {
                            strong: (rg.items[f.index as int].strong - 1) as u64,
                            ..rg.items[f.index as int]
                        },
                    ),
                    ..rg1
                }
            } else {
                rg1
            }
        },
    }
}

/// Releasing the caller's handle: one strong reference fewer; the item
/// dies once the count reaches zero.
pub open spec fn spec_release_handle(rg: RegV, r: ItemRef) -> RegV {
    if live(rg.items, r) {
        RegV {
            items: rg.items.update(
                r.index as int,
                ItemSlotV {
                    strong: (rg.items[r.index as int].strong - 1) as u64,
                    ..rg.items[r.index as int]
                },
            ),
            ..rg
        }
    } else {
        rg
    }
}

/// Index of the first reusable slot, if any.
fn find_free_idx(v: &Vec<ItemSlot>) -> (r: Option<usize>)
    ensures
        ({
            let s = v@.map_values(|s: ItemSlot| s@);
            match r {
                Some(j) => j < s.len() && find_free(s) == Some(j as int),
                None => find_free(s) is None,
            }
        }),
{
    let ghost s = v@.map_values(|s: ItemSlot| s@);
    let mut i: usize = 0;
    while i < v.len()
        invariant
            i <= v.len(),
            s == v@.map_values(|s: ItemSlot| s@),
            find_free(s) == find_free_from(s, i as int),
        decreases v.len() - i,
    {
        if v[i].strong == 0 {
            return Some(i);
        }
        i = i + 1;
    }
    None
}

/// Index of the first live future record for `r`, if any.
fn find_future_idx(v: &Vec<FutureEntry>, r: ItemRef) -> (res: Option<usize>)
    ensures
        match res {
            Some(j) => j < v@.len() && find_future(v@, r) == Some(j as int),
            None => find_future(v@, r) is None,
        },
{
    let mut i: usize = 0;
    while i < v.len()
        invariant
            i <= v.len(),
            find_future(v@, r) == find_future_from(v@, r, i as int),
        decreases v.len() - i,
    {
        if v[i].alive && v[i].item.index == r.index && v[i].item.generation == r.generation {
            proof {
                assert(v@[i as int].item == r);
            }
            return Some(i);
        }
        i = i + 1;
    }
    None
}

impl Registry {
    /// Creates an empty registry.
    pub fn new() -> (rg: Self)
        ensures
            rg@ == RegV::init(),
            rg@.wf(),
    {
        let rg = Registry { items: Vec::new(), measurements: Vec::new(), futures: Vec::new() };
        proof {
            assert(rg@.items =~= Seq::<ItemSlotV>::empty());
            assert(rg@ =~= RegV::init());
        }
        rg
    }

    /// Registers an item for eventual realization and returns the
    /// caller's strong handle together with the future half. The item is
    /// immediately visible to the next expose sweep.
    pub fn await_completion(&mut self, text: Vec<u8>) -> (r: (MeasureHandle, MeasureFuture))
        requires
            old(self)@.wf(),
        ensures
            ({
                let (rv, rf) = spec_await_completion(old(self)@, text@);
                &&& final(self)@ == rv
                &&& final(self)@.wf()
                &&& r.0 == (MeasureHandle { item: rf })
                &&& r.1 == (MeasureFuture { item: rf })
            }),
    {
        let ghost rg0 = self@;
        match find_free_idx(&self.items) {
            Some(j) => {
                let g0 = self.items[j].generation;
                let gen = if g0 == u64::MAX {
                    0
                } else {
                    g0 + 1
                };
                let rf = ItemRef { index: j, generation: gen };
                let ghost items0 = self.items@;
                let slot = ItemSlot {
                    generation: gen,
                    strong: 2,
                    text,
                    rendered: false,
                    realized: false,
                };
                let ghost slot_g = slot;
                self.items.set(j, slot);
                self.measurements.push(rf);
                self.futures.push(FutureEntry { item: rf, alive: true, waker: None });
                proof {
                    lemmas::lemma_map_values_update(items0, |s: ItemSlot| s@, j as int, slot_g);
                    assert(final(self)@ =~= spec_await_completion(rg0, slot_g.text@).0);
                }
                (MeasureHandle { item: rf }, MeasureFuture { item: rf })
            },
            None => {
                let rf = ItemRef { index: self.items.len(), generation: 0 };
                let ghost items0 = self.items@;
                let slot = ItemSlot {
                    generation: 0,
                    strong: 2,
                    text,
                    rendered: false,
                    realized: false,
                };
                let ghost slot_g = slot;
                self.items.push(slot);
                self.measurements.push(rf);
                self.futures.push(FutureEntry { item: rf, alive: true, waker: None });
                proof {
                    lemmas::lemma_map_values_push(items0, |s: ItemSlot| s@, slot_g);
                    assert(final(self)@ =~= spec_await_completion(rg0, slot_g.text@).0);
                }
                (MeasureHandle { item: rf }, MeasureFuture { item: rf })
            },
        }
    }

    /// Sweeps the pending-exposure references: drops those whose strong
    /// owners are gone (reclamation — no explicit cancellation exists),
    /// marks every surviving item as rendered, and returns exactly the
    /// survivors, in order, for the view to render.
    pub fn expose_all(&mut self) -> (out: Vec<Exposed>)
        requires
            old(self)@.wf(),
        ensures
            ({
                let (rv, ex) = spec_expose_all(old(self)@);
                &&& final(self)@ == rv
                &&& final(self)@.wf()
                &&& out@.map_values(|e: Exposed| e@) == ex
            }),
    {
        let ghost rg0 = self@;
        let ghost ms0 = self.measurements@;
        let mut survivors: Vec<ItemRef> = Vec::new();
        let mut out: Vec<Exposed> = Vec::new();
        let mut i: usize = 0;
        let n = self.measurements.len();
        proof {
            assert(survivors@ =~= sweep_measure(rg0.items, ms0.take(0)));
            assert(out@.map_values(|e: Exposed| e@) =~= expose_texts(rg0.items, survivors@));
        }
        while i < n
            invariant
                i <= n,
                n == self.measurements.len(),
                self@ == rg0,
                ms0 == self.measurements@,
                survivors@ == sweep_measure(rg0.items, ms0.take(i as int)),
                out@.map_values(|e: Exposed| e@) == expose_texts(rg0.items, survivors@),
            decreases n - i,
        {
            let r = self.measurements[i];
            let is_live = r.index < self.items.len() && self.items[r.index].generation
                == r.generation && self.items[r.index].strong > 0;
            proof {
                assert(is_live == live(rg0.items, ms0[i as int]));
                assert(ms0.take(i + 1 as int).drop_last() =~= ms0.take(i as int));
                assert(ms0.take(i + 1 as int).last() == ms0[i as int]);
            }
            if is_live {
                let txt = bytes::copy_bytes(&self.items[r.index].text);
                let ghost out0 = out@;
                let ghost sv0 = survivors@;
                survivors.push(r);
                out.push(Exposed { item: r, text: txt });
                proof {
                    lemmas::lemma_map_values_push(
                        out0,
                        |e: Exposed| e@,
                        Exposed { item: r, text: txt },
                    );
                    lemmas::lemma_map_values_push(
                        sv0,
                        |x: ItemRef| ExposedV { item: x, text: rg0.items[x.index as int].text },
                        r,
                    );
                    assert(expose_texts(rg0.items, survivors@) =~= expose_texts(
                        rg0.items,
                        sv0,
                    ).push(ExposedV { item: r, text: rg0.items[r.index as int].text }));
                }
            }
            i = i + 1;
        }
        proof {
            assert(ms0.take(n as int) =~= ms0);
        }
        // second pass: mark the survivors' slots as rendered
        let ghost sv = survivors@;
        let mut k: usize = 0;
        let m = survivors.len();
        proof {
            lemma_sweep_measure_live(rg0.items, ms0);
            assert(self@.items =~= mark_rendered(rg0.items, sv.take(0)));
        }
        while k < m
            invariant
                k <= m,
                m == survivors.len(),
                sv == survivors@,
                sv == sweep_measure(rg0.items, ms0),
                forall|x: int| 0 <= x < sv.len() ==> live(rg0.items, #[trigger] sv[x]),
                self.measurements@ == ms0,
                self.futures@ == rg0.futures,
                self@.items == mark_rendered(rg0.items, sv.take(k as int)),
                self@.items.len() == rg0.items.len(),
            decreases m - k,
        {
            let r = survivors[k];
            let ghost items_k = self.items@;
            let mut slot = ItemSlot {
                generation: 0,
                strong: 0,
                text: Vec::new(),
                rendered: false,
                realized: false,
            };
            self.items.set_and_swap(r.index, &mut slot);
            slot.rendered = true;
            let ghost slot_g = slot;
            self.items.set_and_swap(r.index, &mut slot);
            proof {
                assert(self.items@ =~= items_k.update(r.index as int, slot_g));
                lemmas::lemma_map_values_update(items_k, |s: ItemSlot| s@, r.index as int, slot_g);
                assert(sv.take(k + 1 as int).drop_last() =~= sv.take(k as int));
                assert(sv.take(k + 1 as int).last() == sv[k as int]);
                assert(slot_g@ =~= (ItemSlotV {
                    rendered: true,
                    ..mark_rendered(rg0.items, sv.take(k as int))[r.index as int]
                }));
                assert(self@.items =~= mark_rendered(rg0.items, sv.take(k + 1 as int)));
            }
            k = k + 1;
        }
        proof {
            assert(sv.take(m as int) =~= sv);
        }
        self.measurements = survivors;
        proof {
            assert(final(self)@ =~= spec_expose_all(rg0).0);
        }
        out
    }

    /// Records that the view attached item `r` to a live node: from now
    /// on the item polls as realized. Stale references are inert.
    pub fn mark_realized(&mut self, r: ItemRef)
        requires
            old(self)@.wf(),
        ensures
            final(self)@ == spec_mark_realized(old(self)@, r),
            final(self)@.wf(),
    {
        let ghost rg0 = self@;
        let is_live = r.index < self.items.len() && self.items[r.index].generation == r.generation
            && self.items[r.index].strong > 0;
        if is_live {
            let ghost items0 = self.items@;
            let mut slot = ItemSlot {
                generation: 0,
                strong: 0,
                text: Vec::new(),
                rendered: false,
                realized: false,
            };
            self.items.set_and_swap(r.index, &mut slot);
            slot.realized = true;
            let ghost slot_g = slot;
            self.items.set_and_swap(r.index, &mut slot);
            proof {
                assert(self.items@ =~= items0.update(r.index as int, slot_g));
                lemmas::lemma_map_values_update(items0, |s: ItemSlot| s@, r.index as int, slot_g);
                assert(final(self)@ =~= spec_mark_realized(rg0, r));
            }
        } else {
            proof {
                assert(final(self)@ =~= spec_mark_realized(rg0, r));
            }
        }
    }
}

impl Registry {
    /// Handles the external "render pass completed" signal.
    ///
    /// First every future record is held to the consistency invariant —
    /// a reachable item whose rendered and realized markers disagree is a
    /// fatal [`RegError::ConsistencyViolation`], reported with the state
    /// untouched. Then one sweep captures the wake tokens of realized
    /// items (returned as a batch: waking inline could re-enter the view
    /// while it is borrowed), drops records whose future or item is
    /// gone, and keeps the rest. `again` says whether some item still
    /// needs a future signal.
    pub fn on_signal(&mut self) -> (r: Result<SignalOutcome, RegError>)
        requires
            old(self)@.wf(),
        ensures
            spec_on_signal(old(self)@) is Ok <==> r is Ok,
            ({
                match (r, spec_on_signal(old(self)@)) {
                    (Ok(o), Ok(sp)) => {
                        &&& final(self)@ == sp.0
                        &&& final(self)@.wf()
                        &&& o.wakers@ == sp.1
                        &&& o.again == sp.2
                    },
                    (Err(e), Err(se)) => e == se && final(self)@ == old(self)@,
                    _ => false,
                }
            }),
    {
        let ghost rg0 = self@;
        let ghost fs0 = self.futures@;
        let n = self.futures.len();
        let mut i: usize = 0;
        while i < n
            invariant
                i <= n,
                n == self.futures.len(),
                self@ == rg0,
                fs0 == self.futures@,
                forall|x: int| 0 <= x < i ==> entry_ok(rg0.items, #[trigger] fs0[x]),
            decreases n - i,
        {
            let e = self.futures[i];
            if e.alive {
                let idx = e.item.index;
                if idx < self.items.len() && self.items[idx].generation == e.item.generation
                    && self.items[idx].strong > 0 {
                    if self.items[idx].rendered != self.items[idx].realized {
                        proof {
                            assert(!entry_ok(rg0.items, fs0[i as int]));
                            assert(!consistent(rg0));
                        }
                        return Err(RegError::ConsistencyViolation);
                    }
                }
            }
            proof {
                assert(entry_ok(rg0.items, fs0[i as int]));
            }
            i = i + 1;
        }
        proof {
            assert(consistent(rg0));
        }
        let mut wakers: Vec<u64> = Vec::new();
        let mut kept: Vec<FutureEntry> = Vec::new();
        let mut j: usize = 0;
        proof {
            assert(wakers@ =~= sweep_wakers(rg0.items, fs0.take(0)));
            assert(kept@ =~= sweep_kept(rg0.items, fs0.take(0)));
        }
        while j < n
            invariant
                j <= n,
                n == self.futures.len(),
                self@ == rg0,
                fs0 == self.futures@,
                wakers@ == sweep_wakers(rg0.items, fs0.take(j as int)),
                kept@ == sweep_kept(rg0.items, fs0.take(j as int)),
                forall|x: int|
                    0 <= x < kept@.len() ==> (#[trigger] kept@[x]).item.index < rg0.items.len(),
            decreases n - j,
        {
            let e = self.futures[j];
            proof {
                assert(fs0.take(j + 1 as int).drop_last() =~= fs0.take(j as int));
                assert(fs0.take(j + 1 as int).last() == fs0[j as int]);
            }
            if e.alive {
                let idx = e.item.index;
                if idx < self.items.len() && self.items[idx].generation == e.item.generation
                    && self.items[idx].strong > 0 {
                    if self.items[idx].realized {
                        match e.waker {
                            Some(w) => { wakers.push(w) },
                            None => {},
                        }
                    } else {
                        kept.push(e);
                    }
                }
            }
            j = j + 1;
        }
        proof {
            assert(fs0.take(n as int) =~= fs0);
        }
        let again = kept.len() > 0;
        self.futures = kept;
        proof {
            assert(final(self)@ =~= (RegV { futures: sweep_kept(rg0.items, rg0.futures), ..rg0 }));
        }
        Ok(SignalOutcome { wakers, again })
    }

    /// Polls the future half for the task named by `waker`: once the item
    /// is realized the poll resolves to a fresh strong handle; before
    /// that, the token is stored for the next completion sweep.
    pub fn poll_future(&mut self, f: &MeasureFuture, waker: u64) -> (r: PollResult<MeasureHandle>)
        requires
            old(self)@.wf(),
            live(old(self)@.items, f.item) && old(self)@.items[f.item.index as int].realized
                ==> old(self)@.items[f.item.index as int].strong < u64::MAX,
        ensures
            ({
                let (rv, ready) = spec_poll_future(old(self)@, f.item, waker);
                &&& final(self)@ == rv
                &&& final(self)@.wf()
                &&& r == if ready {
                    PollResult::Ready(MeasureHandle { item: f.item })
                } else {
                    PollResult::<MeasureHandle>::Pending
                }
            }),
    {
        let ghost rg0 = self@;
        let idx = f.item.index;
        let is_live = idx < self.items.len() && self.items[idx].generation == f.item.generation
            && self.items[idx].strong > 0;
        if is_live && self.items[idx].realized {
            let ghost items0 = self.items@;
            let mut slot = ItemSlot {
                generation: 0,
                strong: 0,
                text: Vec::new(),
                rendered: false,
                realized: false,
            };
            self.items.set_and_swap(idx, &mut slot);
            slot.strong = slot.strong + 1;
            let ghost slot_g = slot;
            self.items.set_and_swap(idx, &mut slot);
            proof {
                assert(self.items@ =~= items0.update(idx as int, slot_g));
                lemmas::lemma_map_values_update(items0, |s: ItemSlot| s@, idx as int, slot_g);
                assert(final(self)@ =~= spec_poll_future(rg0, f.item, waker).0);
            }
            PollResult::Ready(MeasureHandle { item: ItemRef { index: idx, generation: f.item.generation } })
        } else {
            match find_future_idx(&self.futures, f.item) {
                Some(j) => {
                    let e = self.futures[j];
                    self.futures.set(j, FutureEntry { item: e.item, alive: e.alive, waker: Some(waker) });
                    proof {
                        assert(final(self)@ =~= spec_poll_future(rg0, f.item, waker).0);
                        let rgf = final(self)@;
                        assert forall|x: int|
                            0 <= x < rgf.futures.len() implies (#[trigger] rgf.futures[x]).item.index
                            < rgf.items.len() by {
                            assert(rgf.futures[x].item == rg0.futures[x].item);
                        }
                    }
                    PollResult::Pending
                },
                None => {
                    proof {
                        assert(final(self)@ =~= spec_poll_future(rg0, f.item, waker).0);
                    }
                    PollResult::Pending
                },
            }
        }
    }

    /// Consumes the future half, as when the caller drops it: the record
    /// dies and its strong reference on the item is released, so an
    /// otherwise unowned item is reclaimed by the next sweeps.
    pub fn drop_future(&mut self, f: MeasureFuture)
        requires
            old(self)@.wf(),
        ensures
            final(self)@ == spec_drop_future(old(self)@, f.item),
            final(self)@.wf(),
    {
        let ghost rg0 = self@;
        match find_future_idx(&self.futures, f.item) {
            None => {},
            Some(j) => {
                let e = self.futures[j];
                self.futures.set(j, FutureEntry { item: e.item, alive: false, waker: e.waker });
                proof {
                    assert forall|x: int|
                        0 <= x < self@.futures.len() implies (#[trigger] self@.futures[x]).item.index
                        < self@.items.len() by {
                        assert(self@.futures[x].item == rg0.futures[x].item);
                    }
                }
                let idx = f.item.index;
                let is_live = idx < self.items.len() && self.items[idx].generation
                    == f.item.generation && self.items[idx].strong > 0;
                if is_live {
                    let ghost items0 = self.items@;
                    let mut slot = ItemSlot {
                        generation: 0,
                        strong: 0,
                        text: Vec::new(),
                        rendered: false,
                        realized: false,
                    };
                    self.items.set_and_swap(idx, &mut slot);
                    slot.strong = slot.strong - 1;
                    let ghost slot_g = slot;
                    self.items.set_and_swap(idx, &mut slot);
                    proof {
                        assert(self.items@ =~= items0.update(idx as int, slot_g));
                        lemmas::lemma_map_values_update(items0, |s: ItemSlot| s@, idx as int, slot_g);
                    }
                }
                proof {
                    assert(final(self)@ =~= spec_drop_future(rg0, f.item));
                }
            },
        }
    }

    /// Releases the caller's strong handle. Once neither handle nor
    /// future owns the item, the next sweeps forget it and its slot can
    /// be reused.
    pub fn release_handle(&mut self, h: MeasureHandle)
        requires
            old(self)@.wf(),
        ensures
            final(self)@ == spec_release_handle(old(self)@, h.item),
            final(self)@.wf(),
    {
        let ghost rg0 = self@;
        let idx = h.item.index;
        let is_live = idx < self.items.len() && self.items[idx].generation == h.item.generation
            && self.items[idx].strong > 0;
        if is_live {
            let ghost items0 = self.items@;
            let mut slot = ItemSlot {
                generation: 0,
                strong: 0,
                text: Vec::new(),
                rendered: false,
                realized: false,
            };
            self.items.set_and_swap(idx, &mut slot);
            slot.strong = slot.strong - 1;
            let ghost slot_g = slot;
            self.items.set_and_swap(idx, &mut slot);
            proof {
                assert(self.items@ =~= items0.update(idx as int, slot_g));
                lemmas::lemma_map_values_update(items0, |s: ItemSlot| s@, idx as int, slot_g);
                assert(final(self)@ =~= spec_release_handle(rg0, h.item));
            }
        } else {
            proof {
                assert(final(self)@ =~= spec_release_handle(rg0, h.item));
            }
        }
    }
}

/// The registry's answer to one event of the owning view's update loop.
pub open spec fn spec_on_event(rg: RegV, msg: Msg) -> Result<(RegV, Seq<RegAction>), RegError> {
    match msg {
        Msg::WaitForRender => Ok(
            (rg, seq![RegAction::NotifyAfterRender, RegAction::Render]),
        ),
        Msg::Measured => match spec_on_signal(rg) {
            Err(e) => Err(e),
            Ok((rv, wakers, again)) => Ok(
                (
                    rv,
                    wakers.map_values(|w: u64| RegAction::Wake(w)).push(
                        if again {
                            RegAction::Render
                        } else {
                            RegAction::Skip
                        },
                    ),
                ),
            ),
        },
        Msg::MeasuredElementMessage => Err(RegError::ConsistencyViolation),
    }
}

impl Registry {
    /// Feeds one event through the registry.
    ///
    /// * `WaitForRender`: a caller registered an item — the view must
    ///   subscribe to the next render-completed notification and render.
    /// * `Measured`: the render pass completed — sweep, then dispatch the
    ///   captured wakes as one batch, and render again only if some item
    ///   still waits.
    ///
    /// `MeasuredElementMessage` is excluded: rendered items are inert, so
    /// such a message is a defect of the owning view, which panics on it.
    pub fn on_event(&mut self, msg: Msg) -> (r: Result<Vec<RegAction>, RegError>)
        requires
            old(self)@.wf(),
            !(msg is MeasuredElementMessage),
        ensures
            spec_on_event(old(self)@, msg) is Ok <==> r is Ok,
            ({
                match (r, spec_on_event(old(self)@, msg)) {
                    (Ok(acts), Ok(sp)) => {
                        &&& final(self)@ == sp.0
                        &&& final(self)@.wf()
                        &&& acts@ == sp.1
                    },
                    (Err(e), Err(se)) => e == se && final(self)@ == old(self)@,
                    _ => false,
                }
            }),
    {
        match msg {
            Msg::WaitForRender => {
                let mut acts: Vec<RegAction> = Vec::new();
                acts.push(RegAction::NotifyAfterRender);
                acts.push(RegAction::Render);
                proof {
                    assert(acts@ =~= seq![RegAction::NotifyAfterRender, RegAction::Render]);
                }
                Ok(acts)
            },
            Msg::Measured => {
                match self.on_signal() {
                    Err(e) => Err(e),
                    Ok(outcome) => {
                        let ghost wk = outcome.wakers@;
                        let mut acts: Vec<RegAction> = Vec::new();
                        let mut i: usize = 0;
                        let n = outcome.wakers.len();
                        proof {
                            assert(acts@ =~= wk.take(0).map_values(|w: u64| RegAction::Wake(w)));
                        }
                        while i < n
                            invariant
                                i <= n,
                                n == outcome.wakers.len(),
                                wk == outcome.wakers@,
                                acts@ == wk.take(i as int).map_values(
                                    |w: u64| RegAction::Wake(w),
                                ),
                            decreases n - i,
                        {
                            acts.push(RegAction::Wake(outcome.wakers[i]));
                            proof {
                                assert(wk.take(i + 1 as int) =~= wk.take(i as int).push(
                                    wk[i as int],
                                ));
                                lemmas::lemma_map_values_push(
                                    wk.take(i as int),
                                    |w: u64| RegAction::Wake(w),
                                    wk[i as int],
                                );
                            }
                            i = i + 1;
                        }
                        proof {
                            assert(wk.take(n as int) =~= wk);
                        }
                        if outcome.again {
                            acts.push(RegAction::Render);
                        } else {
                            acts.push(RegAction::Skip);
                        }
                        Ok(acts)
                    },
                }
            },
            Msg::MeasuredElementMessage => {
                // excluded by the precondition; rendered items are inert
                Err(RegError::ConsistencyViolation)
            },
        }
    }
}

/// The future records for item `x`, removed.
pub open spec fn without_item(fs: Seq<FutureEntry>, x: ItemRef) -> Seq<FutureEntry>
    decreases fs.len(),
{
    if fs.len() == 0 {
        fs
    } else {
        let rest = without_item(fs.drop_last(), x);
        if fs.last().item == x {
            rest
        } else {
            rest.push(fs.last())
        }
    }
}

/// Every record the completion sweep keeps watches an item that is still
/// strongly owned and not yet realized.
pub proof fn lemma_sweep_kept_live(items: Seq<ItemSlotV>, fs: Seq<FutureEntry>)
    ensures
        forall|i: int|
            0 <= i < sweep_kept(items, fs).len() ==> live(
                items,
                (#[trigger] sweep_kept(items, fs)[i]).item,
            ),
    decreases fs.len(),
{
    if fs.len() > 0 {
        lemma_sweep_kept_live(items, fs.drop_last());
        let rest = sweep_kept(items, fs.drop_last());
        let whole = sweep_kept(items, fs);
        assert forall|i: int| 0 <= i < whole.len() implies live(
            items,
            (#[trigger] whole[i]).item,
        ) by {
            if i < rest.len() {
                assert(whole[i] == rest[i]);
            } else {
                assert(whole[i] == fs.last());
            }
        }
    }
}

/// A dead item contributes nothing to the completion sweep: the wake
/// batch and the kept records are the same as if its records were not
/// there at all.
pub proof fn lemma_dead_item_inert(items: Seq<ItemSlotV>, fs: Seq<FutureEntry>, x: ItemRef)
    requires
        !live(items, x),
    ensures
        sweep_wakers(items, fs) == sweep_wakers(items, without_item(fs, x)),
        sweep_kept(items, fs) == sweep_kept(items, without_item(fs, x)),
    decreases fs.len(),
{
    if fs.len() > 0 {
        lemma_dead_item_inert(items, fs.drop_last(), x);
        let e = fs.last();
        if e.item == x {
        } else {
            let w = without_item(fs.drop_last(), x);
            assert(w.push(e).drop_last() =~= w);
            assert(w.push(e).last() == e);
        }
    }
}

/// What `find_free` finds, when it finds something: an in-range,
/// ownerless slot.
pub proof fn lemma_find_free_props(items: Seq<ItemSlotV>, i: int)
    requires
        0 <= i <= items.len(),
    ensures
        find_free_from(items, i) matches Some(j) ==> i <= j < items.len() && items[j].strong == 0,
    decreases items.len() - i,
{
    if i < items.len() && items[i].strong != 0 {
        lemma_find_free_props(items, i + 1);
    }
}

/// What `find_future` finds: the first live record for the item, or a
/// guarantee that none exists.
pub proof fn lemma_find_future_props(fs: Seq<FutureEntry>, r: ItemRef, i: int)
    requires
        0 <= i <= fs.len(),
    ensures
        match find_future_from(fs, r, i) {
            Some(j) => i <= j < fs.len() && fs[j].alive && fs[j].item == r && forall|k: int|
                i <= k < j ==> !((#[trigger] fs[k]).alive && fs[k].item == r),
            None => forall|k: int| i <= k < fs.len() ==> !((#[trigger] fs[k]).alive && fs[k].item
                == r),
        },
    decreases fs.len() - i,
{
    if i < fs.len() && !(fs[i].alive && fs[i].item == r) {
        lemma_find_future_props(fs, r, i + 1);
    }
}

/// Abandonment law: when a caller registers an item and then drops both
/// halves — the handle and the future — before realization, the item is
/// left without a strong owner, which is exactly the state
/// [`lemma_reclamation`] reclaims on the next sweeps. The one proviso
/// rules out a generation collision: no live record may already carry the
/// reference about to be handed out.
pub proof fn lemma_abandon_kills_item(rg: RegV, text: Seq<u8>)
    requires
        rg.items.len() < usize::MAX,
        ({
            let (rg1, rf) = spec_await_completion(rg, text);
            forall|i: int|
                0 <= i < rg.futures.len() ==> !((#[trigger] rg.futures[i]).alive
                    && rg.futures[i].item == rf)
        }),
    ensures
        ({
            let (rg1, rf) = spec_await_completion(rg, text);
            let rg2 = spec_release_handle(rg1, rf);
            let rg3 = spec_drop_future(rg2, rf);
            !live(rg3.items, rf)
        }),
{
    let (rg1, rf) = spec_await_completion(rg, text);
    let rg2 = spec_release_handle(rg1, rf);
    lemma_find_free_props(rg.items, 0);
    assert(live(rg1.items, rf));
    assert(rg2.items[rf.index as int].strong == 1);
    assert(rg2.futures == rg1.futures);
    lemma_find_future_props(rg2.futures, rf, 0);
    let j = find_future(rg2.futures, rf)->Some_0;
    assert(rg2.futures[rg2.futures.len() - 1].item == rf);
    assert(j == rg2.futures.len() - 1);
    let rg3 = spec_drop_future(rg2, rf);
    assert(rg3.items[rf.index as int].strong == 0);
}

/// Reclamation law: an item without a strong owner — its caller handle
/// and future were dropped before realization — is absent from the next
/// expose sweep's output and its surviving references, its records are
/// absent from the records the next completion sweep keeps, and it never
/// contributes a wake.
pub proof fn lemma_reclamation(rg: RegV, x: ItemRef)
    requires
        !live(rg.items, x),
    ensures
        ({
            let (rv, ex) = spec_expose_all(rg);
            &&& forall|i: int| 0 <= i < ex.len() ==> (#[trigger] ex[i]).item != x
            &&& forall|i: int| 0 <= i < rv.measurements.len() ==> #[trigger] rv.measurements[i]
                != x
        }),
        spec_on_signal(rg) matches Ok(sp) ==> {
            &&& forall|i: int| 0 <= i < sp.0.futures.len() ==> (#[trigger] sp.0.futures[i]).item
                != x
            &&& sp.1 == sweep_wakers(rg.items, without_item(rg.futures, x))
        },
{
    lemma_sweep_measure_live(rg.items, rg.measurements);
    let survivors = sweep_measure(rg.items, rg.measurements);
    assert forall|i: int| 0 <= i < expose_texts(rg.items, survivors).len() implies (
    #[trigger] expose_texts(rg.items, survivors)[i]).item != x by {
        assert(expose_texts(rg.items, survivors)[i].item == survivors[i]);
    }
    lemma_sweep_kept_live(rg.items, rg.futures);
    lemma_dead_item_inert(rg.items, rg.futures, x);
}

/// Every reference the expose sweep keeps still resolves against the
/// arena it swept.
pub proof fn lemma_sweep_measure_live(items: Seq<ItemSlotV>, ms: Seq<ItemRef>)
    ensures
        forall|i: int|
            0 <= i < sweep_measure(items, ms).len() ==> live(
                items,
                #[trigger] sweep_measure(items, ms)[i],
            ),
    decreases ms.len(),
{
    if ms.len() > 0 {
        lemma_sweep_measure_live(items, ms.drop_last());
        let rest = sweep_measure(items, ms.drop_last());
        let whole = sweep_measure(items, ms);
        assert forall|i: int| 0 <= i < whole.len() implies live(items, #[trigger] whole[i]) by {
            if i < rest.len() {
                assert(whole[i] == rest[i]);
            } else {
                assert(whole[i] == ms.last());
            }
        }
    }
}

} // verus!
