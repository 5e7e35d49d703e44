//! Request/response multiplexing over a long-lived, unreliable text
//! transport.
//!
//! The [`Multiplexer`] assigns monotonically increasing correlation IDs to
//! outgoing requests, keeps every outstanding request in its table, and
//! resolves the matching suspension cell when a tagged reply arrives. It
//! also owns the reconnect-with-backoff state: a transport close or error
//! schedules exactly one backoff task, the backoff tick opens a fresh
//! transport, and a transport open replays every still-outstanding request.
//!
//! The multiplexer never performs I/O itself: every transition returns the
//! [`Action`]s the caller must perform (send a frame, start the backoff
//! stream, open a transport, wake a task), and the caller feeds transport
//! events back in as [`Msg`] values.

use vstd::prelude::*;

use crate::bytes;
use crate::frame;
use crate::frame::{frame_spec, parse_spec};
use crate::lemmas;
use crate::suspend::{PollResult, SuspendState};

verus! {

/// A transport lifecycle event, as the owning event loop reports it.
#[derive(Debug, PartialEq, Eq)]
pub enum Msg {
    /// The current transport finished its handshake and is open.
    Opened,
    /// The current transport closed.
    Closed,
    /// The current transport reported an error.
    Failed,
    /// A text frame arrived on the current transport.
    Received(Vec<u8>),
    /// The backoff stream emitted a retry tick.
    Reconnect,
}

/// Spec-level form of [`Msg`].
#[verifier::ext_equal]
pub enum MsgV {
    Opened,
    Closed,
    Failed,
    Received(Seq<u8>),
    Reconnect,
}

impl View for Msg {
    type V = MsgV;

    open spec fn view(&self) -> MsgV {
        match self {
            Msg::Opened => MsgV::Opened,
            Msg::Closed => MsgV::Closed,
            Msg::Failed => MsgV::Failed,
            Msg::Received(p) => MsgV::Received(p@),
            Msg::Reconnect => MsgV::Reconnect,
        }
    }
}

/// An effect the caller must perform after a transition.
#[derive(Debug, PartialEq, Eq)]
pub enum Action {
    /// Attempt to send this frame over the current transport. A failed
    /// attempt is silent: the request stays in the table and is replayed
    /// on the next open.
    Send(Vec<u8>),
    /// Start the backoff stream that will emit `Reconnect` ticks.
    StartBackoff,
    /// Open a fresh transport; it becomes the current one.
    OpenTransport,
    /// Hand this wake token back to the scheduler.
    Wake(u64),
}

/// Spec-level form of [`Action`].
#[verifier::ext_equal]
pub enum ActionV {
    Send(Seq<u8>),
    StartBackoff,
    OpenTransport,
    Wake(u64),
}

impl View for Action {
    type V = ActionV;

    open spec fn view(&self) -> ActionV {
        match self {
            Action::Send(f) => ActionV::Send(f@),
            Action::StartBackoff => ActionV::StartBackoff,
            Action::OpenTransport => ActionV::OpenTransport,
            Action::Wake(w) => ActionV::Wake(*w),
        }
    }
}

/// The views of a sequence of actions.
pub open spec fn acts_view(s: Seq<Action>) -> Seq<ActionV> {
    s.map_values(|a: Action| a@)
}

/// The protocol faults of the multiplexer.
#[derive(Debug, Clone, Copy, PartialEq, Eq, Structural)]
pub enum MuxError {
    /// An inbound frame had no separator, or its ID prefix was not a valid
    /// `u64` numeral. The reply cannot be correlated, and this design
    /// treats that as fatal rather than recoverable.
    ProtocolViolation,
}

/// An outstanding request: its correlation ID and the exact frame that was
/// (or will be) sent, kept verbatim for replay after a reconnect.
pub struct PendingRequest {
    pub id: u64,
    pub frame: Vec<u8>,
}

/// Spec-level form of [`PendingRequest`].
#[verifier::ext_equal]
pub struct PendingV {
    pub id: u64,
    pub frame: Seq<u8>,
}

impl View for PendingRequest {
    type V = PendingV;

    open spec fn view(&self) -> PendingV {
        PendingV { id: self.id, frame: self.frame@ }
    }
}

/// The suspension cell shared with one caller's response future, keyed by
/// the request's correlation ID.
pub struct ResponseCell {
    pub id: u64,
    pub state: SuspendState<Vec<u8>>,
}

/// Spec-level form of [`ResponseCell`].
#[verifier::ext_equal]
pub struct CellV {
    pub id: u64,
    pub result: Option<Seq<u8>>,
    pub waiter: Option<u64>,
}

impl View for ResponseCell {
    type V = CellV;

    open spec fn view(&self) -> CellV {
        CellV {
            id: self.id,
            result: match self.state.result {
                Some(v) => Some(v@),
                None => None,
            },
            waiter: self.state.waiter,
        }
    }
}

/// The multiplexer for one logical connection.
pub struct Multiplexer {
    /// The next correlation ID to assign; wraps after `u64::MAX`.
    pub next_free_id: u64,
    /// Whether a backoff task is currently scheduled.
    pub backoff_scheduled: bool,
    /// The outstanding requests, in issue order.
    pub pending: Vec<PendingRequest>,
    /// The response cells of requests whose futures are still alive (and
    /// of resolved requests not yet consumed by a poll).
    pub cells: Vec<ResponseCell>,
}

/// Spec-level form of [`Multiplexer`].
#[verifier::ext_equal]
pub struct MuxV {
    pub next_free_id: u64,
    pub backoff_scheduled: bool,
    pub pending: Seq<PendingV>,
    pub cells: Seq<CellV>,
}

impl View for Multiplexer {
    type V = MuxV;

    open spec fn view(&self) -> MuxV {
        MuxV {
            next_free_id: self.next_free_id,
            backoff_scheduled: self.backoff_scheduled,
            pending: self.pending@.map_values(|p: PendingRequest| p@),
            cells: self.cells@.map_values(|c: ResponseCell| c@),
        }
    }
}

/// `n + 1` with wraparound at `u64::MAX`.
pub open spec fn wrap_inc(n: u64) -> u64 {
    if n == u64::MAX {
        0
    } else {
        (n + 1) as u64
    }
}

/// Index of the first table entry with this ID at or after `i`, if any.
pub open spec fn find_pending_from(s: Seq<PendingV>, id: u64, i: int) -> Option<int>
    decreases s.len() - i,
{
    if i < 0 || i >= s.len() {
        None
    } else if s[i].id == id {
        Some(i)
    } else {
        find_pending_from(s, id, i + 1)
    }
}

/// Index of the first table entry with this ID, if any.
pub open spec fn find_pending(s: Seq<PendingV>, id: u64) -> Option<int> {
    find_pending_from(s, id, 0)
}

/// Index of the first cell with this ID at or after `i`, if any.
pub open spec fn find_cell_from(s: Seq<CellV>, id: u64, i: int) -> Option<int>
    decreases s.len() - i,
{
    if i < 0 || i >= s.len() {
        None
    } else if s[i].id == id {
        Some(i)
    } else {
        find_cell_from(s, id, i + 1)
    }
}

/// Index of the first cell with this ID, if any.
pub open spec fn find_cell(s: Seq<CellV>, id: u64) -> Option<int> {
    find_cell_from(s, id, 0)
}

/// The table with any entry for `id` removed.
pub open spec fn remove_pending(s: Seq<PendingV>, id: u64) -> Seq<PendingV> {
    match find_pending(s, id) {
        Some(j) => s.remove(j),
        None => s,
    }
}

/// The cells with any cell for `id` removed.
pub open spec fn remove_cells(s: Seq<CellV>, id: u64) -> Seq<CellV> {
    match find_cell(s, id) {
        Some(j) => s.remove(j),
        None => s,
    }
}

/// The replay actions on a transport open: one `Send` per outstanding
/// request, in issue order, each with its original frame verbatim.
pub open spec fn send_all(pending: Seq<PendingV>) -> Seq<ActionV> {
    pending.map_values(|p: PendingV| ActionV::Send(p.frame))
}

impl MuxV {
    /// The state of a fresh multiplexer.
    pub open spec fn init() -> MuxV {
        MuxV {
            next_free_id: 0,
            backoff_scheduled: false,
            pending: Seq::empty(),
            cells: Seq::empty(),
        }
    }

    /// Well-formedness: at most one table entry and at most one cell per
    /// live ID.
    pub open spec fn wf(self) -> bool {
        &&& forall|a: int, b: int|
            0 <= a < b < self.pending.len() ==> (#[trigger] self.pending[a]).id != (
            #[trigger] self.pending[b]).id
        &&& forall|a: int, b: int|
            0 <= a < b < self.cells.len() ==> (#[trigger] self.cells[a]).id != (
            #[trigger] self.cells[b]).id
    }
}

/// Issuing a request: the next ID is assigned (wrapping), the payload is
/// framed, table entry and cell replace any stale ones under the same ID,
/// and one immediate send is attempted.
pub open spec fn spec_request(m: MuxV, payload: Seq<u8>) -> (MuxV, u64, Seq<ActionV>) {
    let id = m.next_free_id;
    let f = frame_spec(id, payload);
    let m2 = MuxV {
        next_free_id: wrap_inc(id),
        backoff_scheduled: m.backoff_scheduled,
        pending: remove_pending(m.pending, id).push(PendingV { id, frame: f }),
        cells: remove_cells(m.cells, id).push(CellV { id, result: None, waiter: None }),
    };
    (m2, id, seq![ActionV::Send(f)])
}

/// Consuming a correlated reply: the table entry for the ID is removed
/// (a stray or duplicate reply is a no-op), and the matching unresolved
/// cell, if its future is still alive, is resolved with the content —
/// value stored first, waiter surrendered for a batched wake after.
pub open spec fn spec_deliver(m: MuxV, id: u64, content: Seq<u8>) -> (MuxV, Seq<ActionV>) {
    match find_pending(m.pending, id) {
        None => (m, Seq::empty()),
        Some(j) => {
            let m1 = MuxV { pending: m.pending.remove(j), ..m };
            match find_cell(m.cells, id) {
                None => (m1, Seq::empty()),
                Some(k) => {
                    let c = m.cells[k];
                    if c.result is None {
                        let m2 = MuxV {
                            cells: m1.cells.update(
                                k,
                                CellV { id, result: Some(content), waiter: None },
                            ),
                            ..m1
                        };
                        let acts = match c.waiter {
                            Some(w) => seq![ActionV::Wake(w)],
                            None => Seq::<ActionV>::empty(),
                        };
                        (m2, acts)
                    } else {
                        (m1, Seq::<ActionV>::empty())
                    }
                },
            }
        },
    }
}

/// The connection state machine: what each transport event does to the
/// multiplexer and which actions it demands.
pub open spec fn spec_on_event(m: MuxV, ev: MsgV) -> Result<(MuxV, Seq<ActionV>), MuxError> {
    match ev {
        MsgV::Closed | MsgV::Failed => Ok(
            if m.backoff_scheduled {
                (m, Seq::<ActionV>::empty())
            } else {
                (MuxV { backoff_scheduled: true, ..m }, seq![ActionV::StartBackoff])
            },
        ),
        MsgV::Reconnect => Ok((m, seq![ActionV::OpenTransport])),
        MsgV::Opened => Ok(
            (MuxV { backoff_scheduled: false, ..m }, send_all(m.pending)),
        ),
        MsgV::Received(packet) => match parse_spec(packet) {
            None => Err(MuxError::ProtocolViolation),
            Some(pr) => Ok(spec_deliver(m, pr.0, pr.1)),
        },
    }
}

/// Polling a response future: a stored result is consumed; otherwise the
/// poller's wake token is registered. A poll for an ID without a cell is
/// inert.
pub open spec fn spec_poll_response(m: MuxV, id: u64, waker: u64) -> (MuxV, Option<Seq<u8>>) {
    match find_cell(m.cells, id) {
        None => (m, None),
        Some(k) => {
            let c = m.cells[k];
            match c.result {
                Some(v) => (
                    MuxV {
                        cells: m.cells.update(k, CellV { id: c.id, result: None, waiter: c.waiter }),
                        ..m
                    },
                    Some(v),
                ),
                None => (
                    MuxV {
                        cells: m.cells.update(
                            k,
                            CellV { id: c.id, result: None, waiter: Some(waker) },
                        ),
                        ..m
                    },
                    None,
                ),
            }
        },
    }
}

/// Dropping a response future: its cell is forgotten. The table entry, if
/// still outstanding, deliberately stays — a reply may already be in
/// flight, and the request must survive the caller's loss of interest.
pub open spec fn spec_drop_response(m: MuxV, id: u64) -> MuxV {
    MuxV { cells: remove_cells(m.cells, id), ..m }
}

/// Index of the first table entry with this ID, if any.
fn find_pending_idx(v: &Vec<PendingRequest>, id: u64) -> (r: Option<usize>)
    ensures
        ({
            let s = v@.map_values(|p: PendingRequest| p@);
            match r {
                Some(j) => j < s.len() && find_pending(s, id) == Some(j as int),
                None => find_pending(s, id) is None,
            }
        }),
{
    let ghost s = v@.map_values(|p: PendingRequest| p@);
    let mut i: usize = 0;
    while i < v.len()
        invariant
            i <= v.len(),
            s == v@.map_values(|p: PendingRequest| p@),
            find_pending(s, id) == find_pending_from(s, id, i as int),
        decreases v.len() - i,
    {
        if v[i].id == id {
            return Some(i);
        }
        i = i + 1;
    }
    None
}

/// Index of the first cell with this ID, if any.
fn find_cell_idx(v: &Vec<ResponseCell>, id: u64) -> (r: Option<usize>)
    ensures
        ({
            let s = v@.map_values(|c: ResponseCell| c@);
            match r {
                Some(j) => j < s.len() && find_cell(s, id) == Some(j as int),
                None => find_cell(s, id) is None,
            }
        }),
{
    let ghost s = v@.map_values(|c: ResponseCell| c@);
    let mut i: usize = 0;
    while i < v.len()
        invariant
            i <= v.len(),
            s == v@.map_values(|c: ResponseCell| c@),
            find_cell(s, id) == find_cell_from(s, id, i as int),
        decreases v.len() - i,
    {
        if v[i].id == id {
            return Some(i);
        }
        i = i + 1;
    }
    None
}

/// What `find_pending` finds: the first entry carrying the ID, or a
/// guarantee that none does.
pub proof fn lemma_find_pending_props(s: Seq<PendingV>, id: u64, i: int)
    requires
        0 <= i <= s.len(),
    ensures
        match find_pending_from(s, id, i) {
            Some(j) => i <= j < s.len() && s[j].id == id,
            None => forall|k: int| i <= k < s.len() ==> (#[trigger] s[k]).id != id,
        },
    decreases s.len() - i,
{
    if i < s.len() && s[i].id != id {
        lemma_find_pending_props(s, id, i + 1);
    }
}

/// What `find_cell` finds: the first cell carrying the ID, or a guarantee
/// that none does.
pub proof fn lemma_find_cell_props(s: Seq<CellV>, id: u64, i: int)
    requires
        0 <= i <= s.len(),
    ensures
        match find_cell_from(s, id, i) {
            Some(j) => i <= j < s.len() && s[j].id == id,
            None => forall|k: int| i <= k < s.len() ==> (#[trigger] s[k]).id != id,
        },
    decreases s.len() - i,
{
    if i < s.len() && s[i].id != id {
        lemma_find_cell_props(s, id, i + 1);
    }
}

/// After `remove_pending(s, id)` under well-formedness, no entry carries
/// the ID, every pairwise property survives, and other entries are intact.
proof fn lemma_remove_pending_clears(s: Seq<PendingV>, id: u64)
    requires
        forall|a: int, b: int|
            0 <= a < b < s.len() ==> (#[trigger] s[a]).id != (#[trigger] s[b]).id,
    ensures
        ({
            let t = remove_pending(s, id);
            &&& forall|i: int| 0 <= i < t.len() ==> (#[trigger] t[i]).id != id
            &&& forall|a: int, b: int|
                0 <= a < b < t.len() ==> (#[trigger] t[a]).id != (#[trigger] t[b]).id
        }),
{
    lemma_find_pending_props(s, id, 0);
    match find_pending(s, id) {
        Some(j) => {
            let t = s.remove(j);
            lemmas::lemma_remove_pairwise(s, j, |a: PendingV, b: PendingV| a.id != b.id);
            assert forall|i: int| 0 <= i < t.len() implies (#[trigger] t[i]).id != id by {
                if i < j {
                    assert(t[i] == s[i]);
                } else {
                    assert(t[i] == s[i + 1]);
                }
            }
        },
        None => {},
    }
}

/// After `remove_cells(s, id)` under well-formedness, no cell carries the
/// ID and every pairwise property survives.
proof fn lemma_remove_cells_clears(s: Seq<CellV>, id: u64)
    requires
        forall|a: int, b: int|
            0 <= a < b < s.len() ==> (#[trigger] s[a]).id != (#[trigger] s[b]).id,
    ensures
        ({
            let t = remove_cells(s, id);
            &&& forall|i: int| 0 <= i < t.len() ==> (#[trigger] t[i]).id != id
            &&& forall|a: int, b: int|
                0 <= a < b < t.len() ==> (#[trigger] t[a]).id != (#[trigger] t[b]).id
        }),
{
    lemma_find_cell_props(s, id, 0);
    match find_cell(s, id) {
        Some(j) => {
            let t = s.remove(j);
            lemmas::lemma_remove_pairwise(s, j, |a: CellV, b: CellV| a.id != b.id);
            assert forall|i: int| 0 <= i < t.len() implies (#[trigger] t[i]).id != id by {
                if i < j {
                    assert(t[i] == s[i]);
                } else {
                    assert(t[i] == s[i + 1]);
                }
            }
        },
        None => {},
    }
}

impl Multiplexer {
    /// Creates a multiplexer for a fresh connection. The caller opens the
    /// first transport itself, so no action is owed here.
    pub fn new() -> (m: Self)
        ensures
            m@ == MuxV::init(),
            m@.wf(),
    {
        let m = Multiplexer {
            next_free_id: 0,
            backoff_scheduled: false,
            pending: Vec::new(),
            cells: Vec::new(),
        };
        proof {
            assert(m@.pending =~= Seq::<PendingV>::empty());
            assert(m@.cells =~= Seq::<CellV>::empty());
            assert(m@ =~= MuxV::init());
        }
        m
    }

    /// Issues a request: assigns the next correlation ID, frames the
    /// payload as `"<id>|<payload>"`, records the outstanding entry keyed
    /// by that ID regardless of send success, and demands one immediate
    /// send attempt. Returns the assigned ID, which doubles as the
    /// caller's future handle.
    pub fn request(&mut self, payload: &Vec<u8>) -> (r: (u64, Vec<Action>))
        requires
            old(self)@.wf(),
        ensures
            ({
                let (mv, id, acts) = spec_request(old(self)@, payload@);
                &&& final(self)@ == mv
                &&& final(self)@.wf()
                &&& r.0 == id
                &&& acts_view(r.1@) == acts
            }),
    {
        let ghost m0 = self@;
        let id = self.next_free_id;
        self.next_free_id = if id == u64::MAX {
            0
        } else {
            id + 1
        };
        let fr = frame::frame(id, payload);
        match find_pending_idx(&self.pending, id) {
            Some(j) => {
                self.pending.remove(j);
                proof {
                    lemmas::lemma_map_values_remove(
                        old(self).pending@,
                        |p: PendingRequest| p@,
                        j as int,
                    );
                }
            },
            None => {},
        }
        proof {
            assert(self@.pending == remove_pending(m0.pending, id));
        }
        match find_cell_idx(&self.cells, id) {
            Some(k) => {
                self.cells.remove(k);
                proof {
                    lemmas::lemma_map_values_remove(
                        old(self).cells@,
                        |c: ResponseCell| c@,
                        k as int,
                    );
                }
            },
            None => {},
        }
        proof {
            assert(self@.cells == remove_cells(m0.cells, id));
        }
        let ghost pending1 = self.pending@;
        let ghost cells1 = self.cells@;
        let entry_frame = bytes::copy_bytes(&fr);
        self.pending.push(PendingRequest { id, frame: entry_frame });
        self.cells.push(ResponseCell { id, state: SuspendState::new() });
        proof {
            lemmas::lemma_map_values_push(
                pending1,
                |p: PendingRequest| p@,
                PendingRequest { id, frame: fr },
            );
            assert(self@.pending =~= remove_pending(m0.pending, id).push(
                PendingV { id, frame: fr@ },
            ));
            lemmas::lemma_map_values_push(
                cells1,
                |c: ResponseCell| c@,
                ResponseCell { id, state: SuspendState::spec_new() },
            );
            assert(self@.cells =~= remove_cells(m0.cells, id).push(
                CellV { id, result: None, waiter: None },
            ));
            assert(self@ =~= spec_request(m0, payload@).0);
            // well-formedness: the fresh entry's ID was cleared first
            lemma_remove_pending_clears(m0.pending, id);
            lemma_remove_cells_clears(m0.cells, id);
        }
        let mut acts: Vec<Action> = Vec::new();
        acts.push(Action::Send(fr));
        proof {
            assert(acts_view(acts@) =~= seq![ActionV::Send(frame_spec(id, payload@))]);
        }
        (id, acts)
    }

    /// Feeds one transport event through the connection state machine.
    ///
    /// * `Closed` / `Failed`: schedules a backoff task unless one is
    ///   already pending (scheduling is idempotent).
    /// * `Reconnect`: demands a fresh transport.
    /// * `Opened`: clears the scheduled backoff and replays every
    ///   outstanding request verbatim.
    /// * `Received`: parses `"<id>|<content>"`, removes the table entry
    ///   for that ID (a no-op for stray or duplicate replies) and resolves
    ///   the matching cell; a malformed frame is a fatal
    ///   [`MuxError::ProtocolViolation`] and changes nothing.
    pub fn on_event(&mut self, ev: Msg) -> (r: Result<Vec<Action>, MuxError>)
        requires
            old(self)@.wf(),
        ensures
            spec_on_event(old(self)@, ev@) is Ok <==> r is Ok,
            ({
                match (r, spec_on_event(old(self)@, ev@)) {
                    (Ok(acts), Ok(sp)) => {
                        &&& final(self)@ == sp.0
                        &&& final(self)@.wf()
                        &&& acts_view(acts@) == sp.1
                    },
                    (Err(e), Err(se)) => e == se && final(self)@ == old(self)@,
                    _ => false,
                }
            }),
    {
        let ghost m0 = self@;
        match ev {
            Msg::Closed | Msg::Failed => {
                if self.backoff_scheduled {
                    let acts: Vec<Action> = Vec::new();
                    proof {
                        assert(acts_view(acts@) =~= Seq::<ActionV>::empty());
                    }
                    Ok(acts)
                } else {
                    self.backoff_scheduled = true;
                    let mut acts: Vec<Action> = Vec::new();
                    acts.push(Action::StartBackoff);
                    proof {
                        assert(self@ =~= MuxV { backoff_scheduled: true, ..m0 });
                        assert(acts_view(acts@) =~= seq![ActionV::StartBackoff]);
                    }
                    Ok(acts)
                }
            },
            Msg::Reconnect => {
                let mut acts: Vec<Action> = Vec::new();
                acts.push(Action::OpenTransport);
                proof {
                    assert(acts_view(acts@) =~= seq![ActionV::OpenTransport]);
                }
                Ok(acts)
            },
            Msg::Opened => {
                self.backoff_scheduled = false;
                let mut acts: Vec<Action> = Vec::new();
                let mut i: usize = 0;
                proof {
                    assert(acts_view(acts@) =~= send_all(self@.pending.take(0)));
                }
                let n = self.pending.len();
                while i < n
                    invariant
                        i <= n,
                        n == self.pending.len(),
                        self@.pending == m0.pending,
                        self@.cells == m0.cells,
                        self.next_free_id == m0.next_free_id,
                        acts_view(acts@) == send_all(self@.pending.take(i as int)),
                    decreases n - i,
                {
                    let f = bytes::copy_bytes(&self.pending[i].frame);
                    let ghost acts0 = acts@;
                    acts.push(Action::Send(f));
                    proof {
                        lemmas::lemma_map_values_push(acts0, |a: Action| a@, Action::Send(f));
                        assert(self@.pending.take(i + 1 as int) =~= self@.pending.take(
                            i as int,
                        ).push(self@.pending[i as int]));
                        assert(acts_view(acts@) =~= send_all(self@.pending.take(i + 1 as int)));
                    }
                    i = i + 1;
                }
                proof {
                    assert(self@.pending.take(n as int) =~= self@.pending);
                    assert(self@ =~= MuxV { backoff_scheduled: false, ..m0 });
                }
                Ok(acts)
            },
            Msg::Received(packet) => {
                match frame::parse_frame(&packet) {
                    None => Err(MuxError::ProtocolViolation),
                    Some((rid, content)) => {
                        let mut acts: Vec<Action> = Vec::new();
                        match find_pending_idx(&self.pending, rid) {
                            None => {
                                proof {
                                    assert(acts_view(acts@) =~= Seq::<ActionV>::empty());
                                }
                                Ok(acts)
                            },
                            Some(j) => {
                                self.pending.remove(j);
                                proof {
                                    lemmas::lemma_map_values_remove(
                                        old(self).pending@,
                                        |p: PendingRequest| p@,
                                        j as int,
                                    );
                                    assert(self@.pending == m0.pending.remove(j as int));
                                    lemmas::lemma_remove_pairwise(
                                        m0.pending,
                                        j as int,
                                        |a: PendingV, b: PendingV| a.id != b.id,
                                    );
                                }
                                match find_cell_idx(&self.cells, rid) {
                                    None => {
                                        proof {
                                            assert(acts_view(acts@) =~= Seq::<ActionV>::empty());
                                        }
                                        Ok(acts)
                                    },
                                    Some(k) => {
                                        proof {
                                            lemma_find_cell_props(m0.cells, rid, 0);
                                        }
                                        let unresolved = self.cells[k].state.result.is_none();
                                        if unresolved {
                                            let ghost cells0 = self.cells@;
                                            let mut cell = ResponseCell {
                                                id: 0,
                                                state: SuspendState::new(),
                                            };
                                            self.cells.set_and_swap(k, &mut cell);
                                            let w = cell.state.resolve(content);
                                            let ghost cid = cell.id;
                                            self.cells.set_and_swap(k, &mut cell);
                                            proof {
                                                assert(self.cells@ =~= cells0.update(
                                                    k as int,
                                                    ResponseCell {
                                                        id: cid,
                                                        state: SuspendState {
                                                            result: Some(content),
                                                            waiter: None,
                                                        },
                                                    },
                                                ));
                                                lemmas::lemma_map_values_update(
                                                    cells0,
                                                    |c: ResponseCell| c@,
                                                    k as int,
                                                    ResponseCell {
                                                        id: cid,
                                                        state: SuspendState {
                                                            result: Some(content),
                                                            waiter: None,
                                                        },
                                                    },
                                                );
                                                assert(self@.cells =~= m0.cells.update(
                                                    k as int,
                                                    CellV {
                                                        id: rid,
                                                        result: Some(content@),
                                                        waiter: None,
                                                    },
                                                ));
                                                assert forall|a: int, b: int|
                                                    0 <= a < b < self@.cells.len() implies (
                                                #[trigger] self@.cells[a]).id != (
                                                #[trigger] self@.cells[b]).id by {
                                                    assert(self@.cells[a].id == m0.cells[a].id);
                                                    assert(self@.cells[b].id == m0.cells[b].id);
                                                }
                                            }
                                            match w {
                                                Some(wk) => {
                                                    acts.push(Action::Wake(wk));
                                                    proof {
                                                        assert(acts_view(acts@) =~= seq![
                                                            ActionV::Wake(wk),
                                                        ]);
                                                    }
                                                },
                                                None => {
                                                    proof {
                                                        assert(acts_view(acts@)
                                                            =~= Seq::<ActionV>::empty());
                                                    }
                                                },
                                            }
                                            Ok(acts)
                                        } else {
                                            proof {
                                                assert(acts_view(acts@) =~= Seq::<ActionV>::empty());
                                            }
                                            Ok(acts)
                                        }
                                    },
                                }
                            },
                        }
                    },
                }
            },
        }
    }

    /// Polls the response future for `id` on behalf of the task named by
    /// `waker`: consumes a stored reply, or registers the token.
    pub fn poll_response(&mut self, id: u64, waker: u64) -> (r: PollResult<Vec<u8>>)
        requires
            old(self)@.wf(),
        ensures
            ({
                let (mv, res) = spec_poll_response(old(self)@, id, waker);
                &&& final(self)@ == mv
                &&& final(self)@.wf()
                &&& match r {
                    PollResult::Ready(v) => res == Some(v@),
                    PollResult::Pending => res is None,
                }
            }),
    {
        let ghost m0 = self@;
        match find_cell_idx(&self.cells, id) {
            None => PollResult::Pending,
            Some(k) => {
                let ghost cells0 = self.cells@;
                let mut cell = ResponseCell { id: 0, state: SuspendState::new() };
                self.cells.set_and_swap(k, &mut cell);
                let pr = cell.state.poll(waker);
                let ghost cell_after = cell;
                self.cells.set_and_swap(k, &mut cell);
                proof {
                    assert(self.cells@ =~= cells0.update(k as int, cell_after));
                    lemmas::lemma_map_values_update(
                        cells0,
                        |c: ResponseCell| c@,
                        k as int,
                        cell_after,
                    );
                    assert(self@.cells =~= m0.cells.update(k as int, cell_after@));
                    assert(self@ =~= spec_poll_response(m0, id, waker).0);
                    assert forall|a: int, b: int|
                        0 <= a < b < self@.cells.len() implies (#[trigger] self@.cells[a]).id != (
                    #[trigger] self@.cells[b]).id by {
                        assert(self@.cells[a].id == m0.cells[a].id);
                        assert(self@.cells[b].id == m0.cells[b].id);
                    }
                }
                pr
            },
        }
    }

    /// Forgets the response cell for `id`, as when the caller drops its
    /// future. The outstanding table entry stays: the request itself must
    /// survive, because a reply may already be in flight.
    pub fn drop_response(&mut self, id: u64)
        requires
            old(self)@.wf(),
        ensures
            final(self)@ == spec_drop_response(old(self)@, id),
            final(self)@.wf(),
    {
        let ghost m0 = self@;
        match find_cell_idx(&self.cells, id) {
            None => {
                proof {
                    assert(self@ =~= spec_drop_response(m0, id));
                }
            },
            Some(k) => {
                self.cells.remove(k);
                proof {
                    lemmas::lemma_map_values_remove(old(self).cells@, |c: ResponseCell| c@, k as int);
                    assert(self@ =~= spec_drop_response(m0, id));
                    lemma_remove_cells_clears(m0.cells, id);
                }
            },
        }
    }
}

/// The state after issuing one request per payload in `ps`, in order, with
/// no intervening transport events.
pub open spec fn apply_requests(m: MuxV, ps: Seq<Seq<u8>>) -> MuxV
    decreases ps.len(),
{
    if ps.len() == 0 {
        m
    } else {
        apply_requests(spec_request(m, ps[0]).0, ps.drop_first())
    }
}

/// How a run of requests grows the table: every prior entry survives
/// untouched, and the new entries carry the consecutive IDs from the
/// counter, each with its frame.
proof fn lemma_requests_extend(m: MuxV, ps: Seq<Seq<u8>>)
    requires
        forall|i: int| 0 <= i < m.pending.len() ==> (#[trigger] m.pending[i]).id < m.next_free_id,
        forall|i: int| 0 <= i < m.cells.len() ==> (#[trigger] m.cells[i]).id < m.next_free_id,
        m.next_free_id + ps.len() <= u64::MAX,
    ensures
        ({
            let r = apply_requests(m, ps);
            &&& r.pending.len() == m.pending.len() + ps.len()
            &&& r.cells.len() == m.cells.len() + ps.len()
            &&& r.next_free_id == m.next_free_id + ps.len()
            &&& forall|i: int| 0 <= i < m.pending.len() ==> #[trigger] r.pending[i] == m.pending[i]
            &&& forall|i: int|
                0 <= i < ps.len() ==> #[trigger] r.pending[m.pending.len() + i] == (PendingV {
                    id: (m.next_free_id + i) as u64,
                    frame: frame_spec((m.next_free_id + i) as u64, ps[i]),
                })
            &&& forall|i: int| 0 <= i < r.pending.len() ==> (#[trigger] r.pending[i]).id
                < r.next_free_id
            &&& forall|i: int| 0 <= i < r.cells.len() ==> (#[trigger] r.cells[i]).id
                < r.next_free_id
        }),
    decreases ps.len(),
{
    if ps.len() > 0 {
        let id = m.next_free_id;
        let (m1, _, _) = spec_request(m, ps[0]);
        lemma_find_pending_props(m.pending, id, 0);
        lemma_find_cell_props(m.cells, id, 0);
        assert(remove_pending(m.pending, id) == m.pending);
        assert(remove_cells(m.cells, id) == m.cells);
        assert(m1.pending == m.pending.push(PendingV { id, frame: frame_spec(id, ps[0]) }));
        lemma_requests_extend(m1, ps.drop_first());
        let r = apply_requests(m, ps);
        assert(r == apply_requests(m1, ps.drop_first()));
        assert forall|i: int| 0 <= i < ps.len() implies #[trigger] r.pending[m.pending.len() + i]
            == (PendingV {
            id: (m.next_free_id + i) as u64,
            frame: frame_spec((m.next_free_id + i) as u64, ps[i]),
        }) by {
            if i == 0 {
                assert(r.pending[m.pending.len() as int] == m1.pending[m.pending.len() as int]);
            } else {
                assert(r.pending[m1.pending.len() + (i - 1)] == (PendingV {
                    id: (m1.next_free_id + (i - 1)) as u64,
                    frame: frame_spec((m1.next_free_id + (i - 1)) as u64, ps.drop_first()[i - 1]),
                }));
                assert(ps.drop_first()[i - 1] == ps[i]);
            }
        }
    }
}

/// Correlation uniqueness law: from a fresh multiplexer, a run of N
/// requests issued before any reply assigns the N distinct IDs
/// `0 .. N-1` and leaves N distinct table entries.
pub proof fn lemma_correlation_uniqueness(ps: Seq<Seq<u8>>)
    requires
        ps.len() <= u64::MAX,
    ensures
        ({
            let r = apply_requests(MuxV::init(), ps);
            &&& r.pending.len() == ps.len()
            &&& forall|i: int| 0 <= i < ps.len() ==> (#[trigger] r.pending[i]).id == i
            &&& forall|a: int, b: int|
                0 <= a < b < ps.len() ==> (#[trigger] r.pending[a]).id != (
                #[trigger] r.pending[b]).id
        }),
{
    lemma_requests_extend(MuxV::init(), ps);
    let r = apply_requests(MuxV::init(), ps);
    assert forall|i: int| 0 <= i < ps.len() implies (#[trigger] r.pending[i]).id == i by {
        assert(r.pending[0 + i] == (PendingV {
            id: (0 + i) as u64,
            frame: frame_spec((0 + i) as u64, ps[i]),
        }));
    }
}

/// At-least-once delivery law: a request that is still outstanding when
/// the transport is lost is replayed verbatim — same ID, same frame —
/// once a fresh transport opens after the backoff tick.
pub proof fn lemma_at_least_once(m: MuxV, payload: Seq<u8>, loss: MsgV)
    requires
        loss is Closed || loss is Failed,
    ensures
        ({
            let (m1, id, acts1) = spec_request(m, payload);
            let f = frame_spec(id, payload);
            &&& acts1 == seq![ActionV::Send(f)]
            &&& spec_on_event(m1, loss) is Ok
            &&& ({
                let (m2, _) = spec_on_event(m1, loss)->Ok_0;
                &&& spec_on_event(m2, MsgV::Reconnect) is Ok
                &&& ({
                    let (m3, _) = spec_on_event(m2, MsgV::Reconnect)->Ok_0;
                    &&& spec_on_event(m3, MsgV::Opened) is Ok
                    &&& spec_on_event(m3, MsgV::Opened)->Ok_0.1.contains(ActionV::Send(f))
                })
            })
        }),
{
    let (m1, id, _) = spec_request(m, payload);
    let f = frame_spec(id, payload);
    let (m2, _) = spec_on_event(m1, loss)->Ok_0;
    let (m3, _) = spec_on_event(m2, MsgV::Reconnect)->Ok_0;
    let acts = spec_on_event(m3, MsgV::Opened)->Ok_0.1;
    assert(m3.pending == m1.pending);
    let last = m1.pending.len() - 1;
    assert(m1.pending[last] == PendingV { id, frame: f });
    assert(acts[last] == ActionV::Send(f));
    assert(acts.contains(ActionV::Send(f)));
}

/// Sharper corollary: when the request is the only outstanding one, the
/// replay after loss and reopen is exactly one send of its frame —
/// neither dropped nor duplicated.
pub proof fn lemma_resent_exactly_once(m: MuxV, payload: Seq<u8>, loss: MsgV)
    requires
        loss is Closed || loss is Failed,
        m.pending.len() == 0,
    ensures
        ({
            let (m1, id, _) = spec_request(m, payload);
            let (m2, _) = spec_on_event(m1, loss)->Ok_0;
            let (m3, _) = spec_on_event(m2, MsgV::Reconnect)->Ok_0;
            let (m4, acts) = spec_on_event(m3, MsgV::Opened)->Ok_0;
            acts == seq![ActionV::Send(frame_spec(id, payload))]
        }),
{
    let (m1, id, _) = spec_request(m, payload);
    let f = frame_spec(id, payload);
    assert(m1.pending =~= seq![PendingV { id, frame: f }]);
    let (m2, _) = spec_on_event(m1, loss)->Ok_0;
    let (m3, _) = spec_on_event(m2, MsgV::Reconnect)->Ok_0;
    let (m4, acts) = spec_on_event(m3, MsgV::Opened)->Ok_0;
    assert(acts =~= seq![ActionV::Send(f)]);
}

/// Idempotent backoff scheduling law: a close or error schedules a
/// backoff task only when none is pending; any further close or error
/// while it is pending changes nothing and schedules nothing, so a storm
/// of losses yields exactly one scheduled backoff.
pub proof fn lemma_idempotent_backoff(m: MuxV, first: MsgV, second: MsgV)
    requires
        first is Closed || first is Failed,
        second is Closed || second is Failed,
    ensures
        spec_on_event(m, first) is Ok,
        ({
            let (m1, a1) = spec_on_event(m, first)->Ok_0;
            &&& m1.backoff_scheduled
            &&& a1 == if m.backoff_scheduled {
                Seq::<ActionV>::empty()
            } else {
                seq![ActionV::StartBackoff]
            }
            &&& spec_on_event(m1, second) == Ok::<_, MuxError>((m1, Seq::<ActionV>::empty()))
        }),
{
}

/// Whether every cell for `id` (there is at most one in a well-formed
/// multiplexer) is still unresolved: its future cannot yet yield `Ready`.
pub open spec fn cell_unresolved(m: MuxV, id: u64) -> bool {
    forall|k: int|
        0 <= k < m.cells.len() && (#[trigger] m.cells[k]).id == id ==> m.cells[k].result is None
}

/// No premature resolution, base case: the cell a request creates starts
/// unresolved.
pub proof fn lemma_request_starts_unresolved(m: MuxV, payload: Seq<u8>)
    requires
        m.wf(),
    ensures
        ({
            let (m1, id, _) = spec_request(m, payload);
            cell_unresolved(m1, id)
        }),
{
    lemma_remove_cells_clears(m.cells, m.next_free_id);
}

/// No premature resolution: issuing further requests never resolves an
/// existing cell.
pub proof fn lemma_no_premature_resolution_request(m: MuxV, id: u64, payload: Seq<u8>)
    requires
        cell_unresolved(m, id),
    ensures
        cell_unresolved(spec_request(m, payload).0, id),
{
    let nid = m.next_free_id;
    lemma_find_cell_props(m.cells, nid, 0);
    match find_cell(m.cells, nid) {
        Some(j) => {
            lemmas::lemma_remove_pointwise(
                m.cells,
                j,
                |c: CellV| c.id == id ==> c.result is None,
            );
        },
        None => {},
    }
}

/// No premature resolution: every transport event other than a reply
/// correlated to `id` leaves the cell for `id` unresolved.
pub proof fn lemma_no_premature_resolution_event(m: MuxV, id: u64, ev: MsgV)
    requires
        cell_unresolved(m, id),
        match ev {
            MsgV::Received(p) => match parse_spec(p) {
                Some(pr) => pr.0 != id,
                None => true,
            },
            _ => true,
        },
    ensures
        spec_on_event(m, ev) matches Ok(sp) ==> cell_unresolved(sp.0, id),
{
    match ev {
        MsgV::Received(p) => {
            match parse_spec(p) {
                Some(pr) => {
                    let rid = pr.0;
                    lemma_find_cell_props(m.cells, rid, 0);
                },
                None => {},
            }
        },
        _ => {},
    }
}

/// No premature resolution: polling never resolves anything — a poll for
/// the unresolved `id` reports `Pending`, and polls under any ID leave
/// the cell for `id` unresolved.
pub proof fn lemma_no_premature_resolution_poll(m: MuxV, id: u64, pid: u64, waker: u64)
    requires
        cell_unresolved(m, id),
    ensures
        ({
            let (m2, res) = spec_poll_response(m, pid, waker);
            &&& cell_unresolved(m2, id)
            &&& (pid == id ==> res is None)
        }),
{
    lemma_find_cell_props(m.cells, pid, 0);
}

/// No premature resolution: dropping a response future leaves every other
/// cell unresolved.
pub proof fn lemma_no_premature_resolution_drop(m: MuxV, id: u64, did: u64)
    requires
        cell_unresolved(m, id),
    ensures
        cell_unresolved(spec_drop_response(m, did), id),
{
    lemma_find_cell_props(m.cells, did, 0);
    match find_cell(m.cells, did) {
        Some(j) => {
            lemmas::lemma_remove_pointwise(
                m.cells,
                j,
                |c: CellV| c.id == id ==> c.result is None,
            );
        },
        None => {},
    }
}

} // verus!
