//! The HTTP/1.1 protocol engine: a shared-state connection driver.
//!
//! `Inner` is the per-connection state: the sequence counters, the protocol
//! state, the stored transport error, and the task queue. The surrounding
//! I/O loop asks `next_io` what the engine needs, performs the one
//! transport operation, and reports the outcome through `on_wrote`,
//! `on_head_byte` and `on_body_read`; the response side pulls body bytes
//! out through `pull_body_bytes` and reports the delimiter's ruling
//! through `finish_body`. Every mutation is proved to preserve the queue
//! invariant (no task older than the request being serviced) and to move
//! along an edge of the connection state machine.

use crate::err::{Error, ErrorKind};
use crate::header::{get_header, headers_wf, spec_find_header, Header};
use crate::http11::{head_matches, spec_head_ok, spec_request_head_bytes, RequestHead, ResponseHead};
use crate::limit::{Limiter, LimiterKind};
use crate::strutil::{ascii_eq_nocase, ascii_str_eq, eq_nocase};
use crate::task::{
    spec_find_task, RecvBody, RecvRes, SendBody, SendReq, SeqNo, Task, TaskKind, Tasks,
};
use vstd::prelude::*;

verus! {

/// How many bytes the engine reads from the transport per body fill.
pub const RECV_BODY_SIZE: usize = 16384;

/// The connection's protocol state.
#[derive(Clone, Copy, PartialEq, Eq, Structural, Debug)]
pub enum State {
    /// Can accept a new request.
    Ready,
    /// After the request head is sent, and a body may be sent.
    SendBody,
    /// Waiting to receive the response head.
    Waiting,
    /// After the response head, while the body is received.
    RecvBody,
    /// The connection is over, cleanly or by error.
    Closed,
}

/// The edges of the connection state machine, staying put included.
/// `Closed` is absorbing.
pub open spec fn state_edge(s1: State, s2: State) -> bool {
    ||| s1 == s2
    ||| (s1 == State::Ready && s2 == State::SendBody)
    ||| (s1 == State::Ready && s2 == State::Waiting)
    ||| (s1 == State::SendBody && s2 == State::Waiting)
    ||| (s1 == State::Waiting && s2 == State::RecvBody)
    ||| (s1 == State::RecvBody && s2 == State::Ready)
    ||| (s1 != State::Closed && s2 == State::Closed)
}

/// Once `Closed`, every edge leads back to `Closed`.
pub proof fn lemma_closed_absorbing(s: State)
    ensures
        state_edge(State::Closed, s) ==> s == State::Closed,
{
}

/// The task kind the engine services in each state.
pub open spec fn kind_for_state(s: State) -> TaskKind {
    match s {
        State::Ready => TaskKind::SendReq,
        State::SendBody => TaskKind::SendBody,
        State::Waiting => TaskKind::RecvRes,
        State::RecvBody => TaskKind::RecvBody,
        State::Closed => TaskKind::SendReq,
    }
}

/// The per-connection shared engine state.
pub struct Inner {
    pub next_seq: usize,
    pub cur_seq: usize,
    pub state: State,
    pub error: Option<String>,
    pub close_requested: bool,
    pub pending_input: Vec<u8>,
    pub tasks: Tasks,
}

impl Inner {
    /// The queue invariant: the engine services `cur_seq`, every queued
    /// task belongs to it or to a later request, and no task is newer
    /// than the requests handed out so far.
    pub open spec fn wf(&self) -> bool {
        &&& self.cur_seq <= self.next_seq
        &&& forall|i: int|
            0 <= i < self.tasks.list@.len() ==> self.cur_seq <= (
            #[trigger] self.tasks.list@[i]).spec_info().seq.0 < self.next_seq
    }

    /// The position of the task the current state would service.
    pub open spec fn cur_task_idx(&self) -> Option<int> {
        spec_find_task(self.tasks.list@, SeqNo(self.cur_seq), kind_for_state(self.state))
    }

    pub fn new() -> (r: Self)
        ensures
            r.next_seq == 0,
            r.cur_seq == 0,
            r.state == State::Ready,
            r.error is None,
            !r.close_requested,
            r.pending_input@ == Seq::<u8>::empty(),
            r.tasks.next_task_id == 0,
            r.tasks.list@ == Seq::<Task>::empty(),
            r.wf(),
    {
        Inner {
            next_seq: 0,
            cur_seq: 0,
            state: State::Ready,
            error: None,
            close_requested: false,
            pending_input: Vec::new(),
            tasks: Tasks::new(),
        }
    }

    /// Queue a task. A task for a request already past is dropped: the
    /// engine never holds a task older than `cur_seq`.
    pub fn enqueue(&mut self, task: Task)
        requires
            old(self).wf(),
            task.spec_info().seq.0 < old(self).next_seq,
            old(self).tasks.next_task_id < usize::MAX,
        ensures
            final(self).wf(),
            state_edge(old(self).state, final(self).state),
            final(self).state == old(self).state,
            final(self).next_seq == old(self).next_seq,
            final(self).cur_seq == old(self).cur_seq,
            final(self).error == old(self).error,
            final(self).close_requested == old(self).close_requested,
            final(self).pending_input == old(self).pending_input,
            task.spec_info().seq.0 >= old(self).cur_seq ==> (final(self).tasks.list@ == old(
                self,
            ).tasks.list@.push(
                task.with_info(
                    (crate::task::TaskInfo {
                        task_id: crate::task::TaskId(old(self).tasks.next_task_id),
                        ..task.spec_info()
                    }),
                ),
            ) && final(self).tasks.next_task_id == old(self).tasks.next_task_id + 1),
            task.spec_info().seq.0 < old(self).cur_seq ==> final(self).tasks == old(self).tasks,
    {
        if task.info().seq.0 >= self.cur_seq {
            self.tasks.push(task);
        }
    }

    /// Record a transport error: the connection is closed and the error is
    /// kept for every later poll.
    pub fn mark_error(&mut self, msg: String)
        requires
            old(self).wf(),
        ensures
            final(self).wf(),
            state_edge(old(self).state, final(self).state),
            final(self).state == State::Closed,
            (final(self).error matches Some(m) && m@ == msg@),
            final(self).next_seq == old(self).next_seq,
            final(self).cur_seq == old(self).cur_seq,
            final(self).close_requested == old(self).close_requested,
            final(self).pending_input == old(self).pending_input,
            final(self).tasks == old(self).tasks,
    {
        self.state = State::Closed;
        self.error = Some(msg);
    }

    /// The error every handle sees once the connection is closed: the
    /// stored transport error, or a plain closed-connection error after a
    /// clean close.
    pub fn get_remote_error(&self) -> (r: Option<Error>)
        ensures
            (r is Some) == (self.state == State::Closed),
            r matches Some(e) ==> match self.error {
                Some(m) => e.kind() == ErrorKind::Message && e.msg_view() == m@,
                None => e.kind() == ErrorKind::RemoteClosed,
            },
    {
        if let State::Closed = self.state {
            match &self.error {
                Some(m) => Some(Error::Message(m.clone())),
                None => Some(Error::RemoteClosed),
            }
        } else {
            None
        }
    }

    /// Whether a body chunk may be submitted for request `seq`: not for a
    /// request already answered, and not while the engine is in another
    /// phase of the current request.
    pub fn assert_can_send_body(&self, seq: SeqNo) -> (r: Option<Error>)
        ensures
            self.cur_seq > seq.0 ==> (r matches Some(e) && e.kind() == ErrorKind::Static),
            self.cur_seq == seq.0 && self.state != State::SendBody ==> (r matches Some(e)
                && e.kind() == ErrorKind::Message),
            !(self.cur_seq > seq.0) && !(self.cur_seq == seq.0 && self.state != State::SendBody)
                ==> r is None,
    {
        if self.cur_seq > seq.0 {
            return Some(Error::Static("Can't send body for old request"));
        }
        if self.cur_seq == seq.0 && !matches!(self.state, State::SendBody) {
            let msg = String::from_str("Can't send body in state: ").concat(self.state_name());
            return Some(Error::Message(msg));
        }
        None
    }

    fn state_name(&self) -> (r: &'static str) {
        match self.state {
            State::Ready => "Ready",
            State::SendBody => "SendBody",
            State::Waiting => "Waiting",
            State::RecvBody => "RecvBody",
            State::Closed => "Closed",
        }
    }

    /// The bytes the current send task still has to write, if the engine
    /// is in a send state with an eligible task.
    pub fn current_write_bytes(&self) -> (r: Option<&Vec<u8>>)
        ensures
            match r {
                Some(v) => (self.state == State::Ready || self.state == State::SendBody)
                    && match self.cur_task_idx() {
                    Some(i) => v@ == spec_send_bytes(self.tasks.list@[i]),
                    None => false,
                },
                None => self.state == State::Closed || self.state == State::Waiting || self.state
                    == State::RecvBody || self.cur_task_idx() is None,
            },
    {
        proof {
            crate::task::lemma_find_task_props(
                self.tasks.list@,
                SeqNo(self.cur_seq),
                TaskKind::SendReq,
            );
            crate::task::lemma_find_task_props(
                self.tasks.list@,
                SeqNo(self.cur_seq),
                TaskKind::SendBody,
            );
        }
        let n = self.tasks.list.len();
        match self.state {
            State::Ready => match self.tasks.idx_of(SeqNo(self.cur_seq), TaskKind::SendReq) {
                Some(i) => match &self.tasks.list[i] {
                    Task::SendReq(t) => Some(&t.req),
                    _ => None,
                },
                None => None,
            },
            State::SendBody => match self.tasks.idx_of(SeqNo(self.cur_seq), TaskKind::SendBody) {
                Some(i) => match &self.tasks.list[i] {
                    Task::SendBody(t) => Some(&t.body),
                    _ => None,
                },
                None => None,
            },
            _ => None,
        }
    }

    /// What the engine needs next from the I/O loop.
    pub fn next_io(&self) -> (r: IoNeed)
        ensures
            self.state == State::Closed ==> r == IoNeed::Done,
            self.state != State::Closed && self.cur_task_idx() is None ==> r == IoNeed::Park,
            (self.state == State::Ready || self.state == State::SendBody)
                && self.cur_task_idx() is Some ==> r == IoNeed::Write,
            self.state == State::Waiting && self.cur_task_idx() is Some ==> r == (
            if self.pending_input@.len() > 0 {
                IoNeed::Pump
            } else {
                IoNeed::ReadHead
            }),
            self.state == State::RecvBody ==> r == (match self.cur_task_idx() {
                Some(i) => match self.tasks.list@[i] {
                    Task::RecvBody(t) => if t.buf@.len() == 0 && !t.end.0 {
                        IoNeed::ReadBody
                    } else {
                        IoNeed::Park
                    },
                    _ => IoNeed::Park,
                },
                None => IoNeed::Park,
            }),
    {
        proof {
            crate::task::lemma_find_task_props(
                self.tasks.list@,
                SeqNo(self.cur_seq),
                kind_for_state(self.state),
            );
        }
        let n = self.tasks.list.len();
        match self.state {
            State::Closed => IoNeed::Done,
            State::Ready | State::SendBody => {
                let k = if matches!(self.state, State::Ready) {
                    TaskKind::SendReq
                } else {
                    TaskKind::SendBody
                };
                match self.tasks.idx_of(SeqNo(self.cur_seq), k) {
                    Some(_) => IoNeed::Write,
                    None => IoNeed::Park,
                }
            },
            State::Waiting => match self.tasks.idx_of(SeqNo(self.cur_seq), TaskKind::RecvRes) {
                Some(_) => if self.pending_input.len() > 0 {
                    IoNeed::Pump
                } else {
                    IoNeed::ReadHead
                },
                None => IoNeed::Park,
            },
            State::RecvBody => match self.tasks.idx_of(SeqNo(self.cur_seq), TaskKind::RecvBody) {
                Some(i) => match &self.tasks.list[i] {
                    Task::RecvBody(t) => if t.buf.len() == 0 && !t.end.0 {
                        IoNeed::ReadBody
                    } else {
                        IoNeed::Park
                    },
                    _ => IoNeed::Park,
                },
                None => IoNeed::Park,
            },
        }
    }
}

/// What the engine needs next from the transport loop.
#[derive(Clone, Copy, PartialEq, Eq, Structural, Debug)]
pub enum IoNeed {
    /// Write the current send task's bytes.
    Write,
    /// Read one byte of the response head.
    ReadHead,
    /// Read up to `RECV_BODY_SIZE` bytes of the response body.
    ReadBody,
    /// Feed buffered leftover input to the response head.
    Pump,
    /// Nothing to do until a handle queues work.
    Park,
    /// The connection is over.
    Done,
}

/// The bytes a send task still has to write.
pub open spec fn spec_send_bytes(t: Task) -> Seq<u8> {
    match t {
        Task::SendReq(x) => x.req@,
        Task::SendBody(x) => x.body@,
        _ => Seq::<u8>::empty(),
    }
}

/// Whether a send task is the last of its request.
pub open spec fn spec_task_end(t: Task) -> bool {
    match t {
        Task::SendReq(x) => x.end.0,
        Task::SendBody(x) => x.end.0,
        Task::RecvBody(x) => x.end.0,
        _ => false,
    }
}

/// Updating a position with an element the filter drops is the same as
/// removing that position, as far as the filtered sequence goes.
pub proof fn lemma_filter_update_excluded(s: Seq<Task>, i: int, x: Task, pred: spec_fn(Task) -> bool)
    requires
        0 <= i < s.len(),
        !pred(x),
    ensures
        s.update(i, x).filter(pred) == s.remove(i).filter(pred),
    decreases s.len(),
{
    reveal(Seq::filter);
    if i == s.len() - 1 {
        assert(s.update(i, x).last() == x);
        assert(s.update(i, x).drop_last() =~= s.drop_last());
        assert(s.update(i, x).filter(pred) == s.update(i, x).drop_last().filter(pred));
        assert(s.remove(i) =~= s.drop_last());
    } else {
        assert(s.update(i, x).last() == s.last());
        assert(s.update(i, x).drop_last() =~= s.drop_last().update(i, x));
        assert(s.remove(i).last() == s.last());
        assert(s.remove(i).drop_last() =~= s.drop_last().remove(i));
        lemma_filter_update_excluded(s.drop_last(), i, x, pred);
        assert(s.update(i, x).filter(pred) == if pred(s.last()) {
            s.update(i, x).drop_last().filter(pred).push(s.last())
        } else {
            s.update(i, x).drop_last().filter(pred)
        });
        assert(s.remove(i).filter(pred) == if pred(s.last()) {
            s.remove(i).drop_last().filter(pred).push(s.last())
        } else {
            s.remove(i).drop_last().filter(pred)
        });
    }
}

/// Every element of a filtered sequence occurs in the original.
pub proof fn lemma_filter_membership(s: Seq<Task>, pred: spec_fn(Task) -> bool)
    ensures
        forall|k: int|
            0 <= k < s.filter(pred).len() ==> exists|j: int|
                0 <= j < s.len() && s[j] == #[trigger] s.filter(pred)[k],
    decreases s.len(),
{
    reveal(Seq::filter);
    if s.len() > 0 {
        lemma_filter_membership(s.drop_last(), pred);
        assert forall|k: int| 0 <= k < s.filter(pred).len() implies exists|j: int|
            0 <= j < s.len() && s[j] == #[trigger] s.filter(pred)[k] by {
            if k < s.drop_last().filter(pred).len() {
                assert(s.filter(pred)[k] == s.drop_last().filter(pred)[k]);
                let j = choose|j: int|
                    0 <= j < s.drop_last().len() && s.drop_last()[j] == s.drop_last().filter(
                        pred,
                    )[k];
                assert(s[j] == s.filter(pred)[k]);
            } else {
                assert(s.filter(pred)[k] == s.last());
                assert(s[s.len() - 1] == s.filter(pred)[k]);
            }
        }
    }
}

/// A byte pulled out of the engine for the response body.
pub enum Pulled {
    /// Buffered body bytes, a non-empty prefix of the task's fill.
    Bytes(Vec<u8>),
    /// The transport said the body is over.
    End,
    /// Nothing buffered yet; the engine will fill and wake.
    Pending,
    /// The connection failed; the stored error.
    Failed(Error),
}

impl Inner {
    /// Report that `n` bytes of the current send task were written.
    ///
    /// A partial write trims the task's pending bytes; a full write
    /// completes the task, and ends the send phase when the task was
    /// marked as the last one. Returns whether a body producer should be
    /// woken (a fully written body chunk).
    pub fn on_wrote(&mut self, n: usize) -> (woke: bool)
        requires
            old(self).wf(),
            old(self).state == State::Ready || old(self).state == State::SendBody,
            match old(self).cur_task_idx() {
                Some(i) => n <= spec_send_bytes(old(self).tasks.list@[i]).len(),
                None => false,
            },
        ensures
            final(self).wf(),
            state_edge(old(self).state, final(self).state),
            final(self).next_seq == old(self).next_seq,
            final(self).cur_seq == old(self).cur_seq,
            final(self).error == old(self).error,
            final(self).close_requested == old(self).close_requested,
            final(self).pending_input == old(self).pending_input,
            match old(self).cur_task_idx() {
                Some(i) => {
                    let bytes = spec_send_bytes(old(self).tasks.list@[i]);
                    if n < bytes.len() {
                        &&& final(self).state == old(self).state
                        &&& final(self).tasks.list@.len() == old(self).tasks.list@.len()
                        &&& (forall|j: int|
                            0 <= j < old(self).tasks.list@.len() && j != i ==> final(self).tasks.list@[j] == old(self).tasks.list@[j])
                        &&& spec_send_bytes(final(self).tasks.list@[i]) == bytes.skip(n as int)
                        &&& final(self).tasks.list@[i].kind() == old(self).tasks.list@[i].kind()
                        &&& final(self).tasks.list@[i].spec_info() == old(self).tasks.list@[i].spec_info()
                        &&& spec_task_end(final(self).tasks.list@[i]) == spec_task_end(
                            old(self).tasks.list@[i],
                        )
                        &&& woke == false
                    } else {
                        &&& final(self).state == (if spec_task_end(old(self).tasks.list@[i]) {
                            State::Waiting
                        } else {
                            State::SendBody
                        })
                        &&& final(self).tasks.list@ == old(self).tasks.list@.update(
                            i,
                            old(self).tasks.list@[i].with_info(
                                (crate::task::TaskInfo {
                                    complete: true,
                                    ..old(self).tasks.list@[i].spec_info()
                                }),
                            ),
                        ).filter(|t: Task| !t.spec_info().complete)
                        &&& woke == (old(self).state == State::SendBody)
                    }
                },
                None => false,
            },
    {
        let was_body = matches!(self.state, State::SendBody);
        let k = if matches!(self.state, State::Ready) {
            TaskKind::SendReq
        } else {
            TaskKind::SendBody
        };
        proof {
            crate::task::lemma_find_task_props(self.tasks.list@, SeqNo(self.cur_seq), k);
        }
        let nl = self.tasks.list.len();
        let i = match self.tasks.idx_of(SeqNo(self.cur_seq), k) {
            Some(i) => i,
            None => {
                proof {
                    assert(false);
                }
                return false;
            },
        };
        let ghost orig = self.tasks.list@;
        let t = self.tasks.list.remove(i);
        let mut full = false;
        let mut end_flag = false;
        let t2 = match t {
            Task::SendReq(mut x) => {
                let rest = x.req.split_off(n);
                x.req = rest;
                if x.req.len() == 0 {
                    x.info.complete = true;
                    full = true;
                    end_flag = x.end.0;
                }
                Task::SendReq(x)
            },
            Task::SendBody(mut x) => {
                let rest = x.body.split_off(n);
                x.body = rest;
                if x.body.len() == 0 {
                    x.info.complete = true;
                    full = true;
                    end_flag = x.end.0;
                }
                Task::SendBody(x)
            },
            other => {
                proof {
                    assert(false);
                }
                other
            },
        };
        self.tasks.list.insert(i, t2);
        proof {
            assert(self.tasks.list@ =~= orig.update(i as int, t2));
        }
        if full {
            self.state = if end_flag {
                State::Waiting
            } else {
                State::SendBody
            };
            self.tasks.prune_completed();
            proof {
                let pred = |t: Task| !t.spec_info().complete;
                lemma_filter_membership(orig.update(i as int, t2), pred);
                lemma_filter_update_excluded(orig, i as int, t2, pred);
                lemma_filter_update_excluded(
                    orig,
                    i as int,
                    orig[i as int].with_info(
                        (crate::task::TaskInfo { complete: true, ..orig[i as int].spec_info() }),
                    ),
                    pred,
                );
            }
            was_body
        } else {
            false
        }
    }
}

impl Inner {
    /// Append one response-head byte to the accumulating head task;
    /// reaching `\r\n\r\n` moves the connection to receiving the body.
    /// Returns whether the terminator was found.
    fn head_byte_core(&mut self, b: u8) -> (found: bool)
        requires
            old(self).wf(),
            old(self).state == State::Waiting,
            old(self).cur_task_idx() is Some,
        ensures
            final(self).wf(),
            state_edge(old(self).state, final(self).state),
            final(self).next_seq == old(self).next_seq,
            final(self).cur_seq == old(self).cur_seq,
            final(self).error == old(self).error,
            final(self).close_requested == old(self).close_requested,
            final(self).pending_input == old(self).pending_input,
            match old(self).cur_task_idx() {
                Some(i) => {
                    &&& final(self).tasks.list@.len() == old(self).tasks.list@.len()
                    &&& (forall|j: int|
                        0 <= j < old(self).tasks.list@.len() && j != i ==> final(self).tasks.list@[j] == old(self).tasks.list@[j])
                    &&& match (old(self).tasks.list@[i], final(self).tasks.list@[i]) {
                        (Task::RecvRes(t0), Task::RecvRes(t1)) => t1.buf@ == t0.buf@.push(b)
                            && t1.info == t0.info && found == crate::http11::ends_crlfcrlf(t1.buf@)
                        ,
                        _ => false,
                    }
                    &&& final(self).state == (if found {
                        State::RecvBody
                    } else {
                        State::Waiting
                    })
                },
                None => false,
            },
    {
        proof {
            crate::task::lemma_find_task_props(
                self.tasks.list@,
                SeqNo(self.cur_seq),
                TaskKind::RecvRes,
            );
        }
        let nl = self.tasks.list.len();
        let i = match self.tasks.idx_of(SeqNo(self.cur_seq), TaskKind::RecvRes) {
            Some(i) => i,
            None => {
                proof {
                    assert(false);
                }
                return false;
            },
        };
        let ghost orig = self.tasks.list@;
        let t = self.tasks.list.remove(i);
        let mut found = false;
        let t2 = match t {
            Task::RecvRes(mut x) => {
                x.buf.push(b);
                let m = x.buf.len();
                if m >= 4 {
                    let b4 = *x.buf.get(m - 4).unwrap();
                    let b3 = *x.buf.get(m - 3).unwrap();
                    let b2 = *x.buf.get(m - 2).unwrap();
                    let b1 = *x.buf.get(m - 1).unwrap();
                    found = b4 == 13 && b3 == 10 && b2 == 13 && b1 == 10;
                }
                Task::RecvRes(x)
            },
            other => {
                proof {
                    assert(false);
                }
                other
            },
        };
        self.tasks.list.insert(i, t2);
        proof {
            assert(self.tasks.list@ =~= orig.update(i as int, t2));
        }
        if found {
            self.state = State::RecvBody;
        }
        found
    }

    /// Feed one response-head byte read from the transport: the byte is
    /// appended to the accumulating head task, and the result says the
    /// buffer now ends in `\r\n\r\n`, which moves the engine to
    /// receiving the body.
    pub fn on_head_byte(&mut self, b: u8) -> (found: bool)
        requires
            old(self).wf(),
            old(self).state == State::Waiting,
            old(self).cur_task_idx() is Some,
        ensures
            final(self).wf(),
            state_edge(old(self).state, final(self).state),
            final(self).next_seq == old(self).next_seq,
            final(self).cur_seq == old(self).cur_seq,
            final(self).error == old(self).error,
            final(self).close_requested == old(self).close_requested,
            final(self).pending_input == old(self).pending_input,
            match old(self).cur_task_idx() {
                Some(i) => {
                    &&& final(self).tasks.list@.len() == old(self).tasks.list@.len()
                    &&& (forall|j: int|
                        0 <= j < old(self).tasks.list@.len() && j != i ==> final(self).tasks.list@[j] == old(self).tasks.list@[j])
                    &&& match (old(self).tasks.list@[i], final(self).tasks.list@[i]) {
                        (Task::RecvRes(t0), Task::RecvRes(t1)) => t1.buf@ == t0.buf@.push(b)
                            && t1.info == t0.info && found == crate::http11::ends_crlfcrlf(t1.buf@)
                        ,
                        _ => false,
                    }
                    &&& final(self).state == (if found {
                        State::RecvBody
                    } else {
                        State::Waiting
                    })
                },
                None => false,
            },
    {
        self.head_byte_core(b)
    }

    /// Feed one buffered leftover byte (read beyond an earlier body) to
    /// the response head. A byte is consumed exactly when the engine is
    /// waiting for a head, a head task is queued, and leftover input is
    /// buffered; it then lands in the head task like a transport byte.
    pub fn pump_pending(&mut self) -> (progressed: bool)
        requires
            old(self).wf(),
        ensures
            final(self).wf(),
            state_edge(old(self).state, final(self).state),
            progressed == (old(self).state == State::Waiting && old(
                self,
            ).pending_input@.len() > 0 && old(self).cur_task_idx() is Some),
            !progressed ==> *final(self) == *old(self),
            progressed ==> {
                &&& final(self).pending_input@ == old(self).pending_input@.skip(1)
                &&& final(self).next_seq == old(self).next_seq
                &&& final(self).cur_seq == old(self).cur_seq
                &&& final(self).error == old(self).error
                &&& final(self).close_requested == old(self).close_requested
                &&& match old(self).cur_task_idx() {
                    Some(i) => {
                        &&& final(self).tasks.list@.len() == old(self).tasks.list@.len()
                        &&& (forall|j: int|
                            0 <= j < old(self).tasks.list@.len() && j != i ==> final(self).tasks.list@[j] == old(self).tasks.list@[j])
                        &&& match (old(self).tasks.list@[i], final(self).tasks.list@[i]) {
                            (Task::RecvRes(t0), Task::RecvRes(t1)) => t1.buf@ == t0.buf@.push(
                                old(self).pending_input@[0],
                            ) && t1.info == t0.info && final(self).state == (
                            if crate::http11::ends_crlfcrlf(t1.buf@) {
                                State::RecvBody
                            } else {
                                State::Waiting
                            }),
                            _ => false,
                        }
                    },
                    None => false,
                }
            },
    {
        if !matches!(self.state, State::Waiting) {
            return false;
        }
        if self.pending_input.len() == 0 {
            return false;
        }
        proof {
            crate::task::lemma_find_task_props(
                self.tasks.list@,
                SeqNo(self.cur_seq),
                TaskKind::RecvRes,
            );
        }
        match self.tasks.idx_of(SeqNo(self.cur_seq), TaskKind::RecvRes) {
            Some(_) => {},
            None => {
                return false;
            },
        }
        let b = self.pending_input.remove(0);
        self.head_byte_core(b);
        proof {
            assert(final(self).pending_input@ =~= old(self).pending_input@.skip(1));
        }
        true
    }

    /// Report a transport body fill: the read bytes, or an empty slice
    /// for end-of-stream, which flags the task as ended.
    pub fn on_body_read(&mut self, data: &[u8])
        requires
            old(self).wf(),
            old(self).state == State::RecvBody,
            match old(self).cur_task_idx() {
                Some(i) => match old(self).tasks.list@[i] {
                    Task::RecvBody(t) => t.buf@.len() == 0 && !t.end.0,
                    _ => false,
                },
                None => false,
            },
        ensures
            final(self).wf(),
            state_edge(old(self).state, final(self).state),
            final(self).state == old(self).state,
            final(self).next_seq == old(self).next_seq,
            final(self).cur_seq == old(self).cur_seq,
            final(self).error == old(self).error,
            final(self).close_requested == old(self).close_requested,
            final(self).pending_input == old(self).pending_input,
            match old(self).cur_task_idx() {
                Some(i) => {
                    &&& final(self).tasks.list@.len() == old(self).tasks.list@.len()
                    &&& (forall|j: int|
                        0 <= j < old(self).tasks.list@.len() && j != i ==> final(self).tasks.list@[j] == old(self).tasks.list@[j])
                    &&& match (old(self).tasks.list@[i], final(self).tasks.list@[i]) {
                        (Task::RecvBody(t0), Task::RecvBody(t1)) => t1.info == t0.info
                            && t1.reuse_conn == t0.reuse_conn && (data@.len() > 0 ==> t1.buf@
                            == data@ && t1.end == t0.end) && (data@.len() == 0 ==> t1.buf@
                            == t0.buf@ && t1.end.0),
                        _ => false,
                    }
                },
                None => false,
            },
    {
        proof {
            crate::task::lemma_find_task_props(
                self.tasks.list@,
                SeqNo(self.cur_seq),
                TaskKind::RecvBody,
            );
        }
        let nl = self.tasks.list.len();
        let i = match self.tasks.idx_of(SeqNo(self.cur_seq), TaskKind::RecvBody) {
            Some(i) => i,
            None => {
                proof {
                    assert(false);
                }
                return ;
            },
        };
        let ghost orig = self.tasks.list@;
        let t = self.tasks.list.remove(i);
        let t2 = match t {
            Task::RecvBody(mut x) => {
                if data.len() > 0 {
                    x.buf = vstd::slice::slice_to_vec(data);
                } else {
                    x.end = crate::task::End(true);
                }
                Task::RecvBody(x)
            },
            other => {
                proof {
                    assert(false);
                }
                other
            },
        };
        self.tasks.list.insert(i, t2);
        proof {
            assert(self.tasks.list@ =~= orig.update(i as int, t2));
        }
    }
}

impl Inner {
    /// The delimiter's ruling: the body of request `seq` is over.
    ///
    /// When the engine is still receiving that body, any bytes read beyond
    /// it are kept for the next response head, the body task is dropped,
    /// and the connection advances: to `Ready` (serving the next request)
    /// when `reuse` holds, else to `Closed`. A stale or repeated call
    /// changes nothing.
    pub fn finish_body(&mut self, seq: SeqNo, reuse: bool) -> (applied: bool)
        requires
            old(self).wf(),
            seq.0 < old(self).next_seq,
        ensures
            final(self).wf(),
            state_edge(old(self).state, final(self).state),
            applied == (old(self).state == State::RecvBody && old(self).cur_seq == seq.0),
            !applied ==> *final(self) == *old(self),
            applied ==> {
                &&& final(self).state == (if reuse {
                    State::Ready
                } else {
                    State::Closed
                })
                &&& final(self).cur_seq as int == (if reuse {
                    old(self).cur_seq + 1
                } else {
                    old(self).cur_seq as int
                })
                &&& final(self).next_seq == old(self).next_seq
                &&& final(self).error == old(self).error
                &&& final(self).close_requested == old(self).close_requested
                &&& (reuse ==> spec_find_task(final(self).tasks.list@, seq, TaskKind::RecvBody)
                    is None)
            },
    {
        if !(matches!(self.state, State::RecvBody) && self.cur_seq == seq.0) {
            return false;
        }
        proof {
            crate::task::lemma_find_task_props(self.tasks.list@, seq, TaskKind::RecvBody);
        }
        let ghost orig = self.tasks.list@;
        let nl = self.tasks.list.len();
        let idx = self.tasks.idx_of(seq, TaskKind::RecvBody);
        let ghost removed_at: Option<int> = match idx {
            Some(i) => Some(i as int),
            None => None,
        };
        match idx {
            Some(i) => {
                let t = self.tasks.list.remove(i);
                match t {
                    Task::RecvBody(x) => {
                        // bytes read past this body start the next head
                        self.pending_input.extend_from_slice(x.buf.as_slice());
                    },
                    _ => {
                        proof {
                            assert(false);
                        }
                    },
                }
            },
            None => {},
        }
        let ghost pre = self.tasks.list@;
        proof {
            assert forall|j: int|
                0 <= j < pre.len() implies self.cur_seq <= (
            #[trigger] pre[j]).spec_info().seq.0 < self.next_seq by {
                match removed_at {
                    Some(i) => {
                        if j < i {
                            assert(pre[j] == orig[j]);
                        } else {
                            assert(pre[j] == orig[j + 1]);
                        }
                    },
                    None => {
                        assert(pre[j] == orig[j]);
                    },
                }
            }
        }
        if reuse {
            self.state = State::Ready;
            self.cur_seq = self.cur_seq + 1;
            let cur = self.cur_seq;
            let ghost sn = SeqNo(cur);
            let ghost pred = |t: Task| t.spec_info().seq.0 >= sn.0;
            self.tasks.prune_below(SeqNo(cur));
            proof {
                lemma_filter_membership(pre, pred);
                assert forall|k: int|
                    0 <= k < self.tasks.list@.len() implies cur <= (
                #[trigger] self.tasks.list@[k]).spec_info().seq.0 < self.next_seq by {
                    pre.lemma_filter_pred(pred, k);
                    let j = choose|j: int| 0 <= j < pre.len() && pre[j] == self.tasks.list@[k];
                }
                crate::task::lemma_find_task_props(self.tasks.list@, seq, TaskKind::RecvBody);
                match spec_find_task(self.tasks.list@, seq, TaskKind::RecvBody) {
                    Some(k) => {
                        assert(false);
                    },
                    None => {},
                }
            }
        } else {
            self.state = State::Closed;
        }
                true
    }
}

impl Inner {
    /// Pull up to `max` buffered body bytes for request `seq`.
    ///
    /// Bytes come out exactly as the engine buffered them: a non-empty
    /// prefix of the body task's buffer, which keeps the rest. With
    /// nothing buffered the caller parks (`Pending`) or learns the body is
    /// over (`End`); with no task yet, one is queued. A closed connection
    /// replays its stored error, or reports the end after a clean close.
    pub fn pull_body_bytes(&mut self, seq: SeqNo, reuse: bool, max: usize) -> (r: Pulled)
        requires
            old(self).wf(),
            seq.0 < old(self).next_seq,
            old(self).tasks.next_task_id < usize::MAX,
            max >= 1,
        ensures
            final(self).wf(),
            state_edge(old(self).state, final(self).state),
            final(self).state == old(self).state,
            final(self).next_seq == old(self).next_seq,
            final(self).cur_seq == old(self).cur_seq,
            final(self).error == old(self).error,
            final(self).close_requested == old(self).close_requested,
            final(self).pending_input == old(self).pending_input,
            r is Pending || final(self).tasks.next_task_id == old(self).tasks.next_task_id,
            match spec_find_task(old(self).tasks.list@, seq, TaskKind::RecvBody) {
                Some(i) => match old(self).tasks.list@[i] {
                    Task::RecvBody(t0) => {
                        if t0.buf@.len() == 0 && !t0.end.0 {
                            r is Pending && final(self).tasks.list@ == old(self).tasks.list@ && final(self).tasks.next_task_id == old(self).tasks.next_task_id
                        } else if t0.buf@.len() == 0 {
                            r is End && final(self).tasks.list@ == old(self).tasks.list@ && final(self).tasks.next_task_id == old(self).tasks.next_task_id
                        } else {
                            let k = vstd::math::min(max as int, t0.buf@.len() as int);
                            &&& (r matches Pulled::Bytes(v) && v@ == t0.buf@.take(k))
                            &&& final(self).tasks.list@.len() == old(self).tasks.list@.len()
                            &&& (forall|j: int|
                                0 <= j < old(self).tasks.list@.len() && j != i ==> final(self).tasks.list@[j] == old(self).tasks.list@[j])
                            &&& match final(self).tasks.list@[i] {
                                Task::RecvBody(t1) => t1.buf@ == t0.buf@.skip(k) && t1.info
                                    == t0.info && t1.end == t0.end && t1.reuse_conn
                                    == t0.reuse_conn,
                                _ => false,
                            }
                        }
                    },
                    _ => false,
                },
                None => {
                    if old(self).cur_seq > seq.0 {
                        r is End && final(self).tasks.list@ == old(self).tasks.list@ && final(self).tasks.next_task_id == old(self).tasks.next_task_id
                    } else if old(self).state == State::Closed {
                        final(self).tasks.list@ == old(self).tasks.list@ && final(self).tasks.next_task_id == old(self).tasks.next_task_id && (match old(self).error {
                            Some(m) => r matches Pulled::Failed(e) && e.kind()
                                == ErrorKind::Message && e.msg_view() == m@,
                            None => r is End,
                        })
                    } else {
                        r is Pending && final(self).tasks.list@.len() == old(
                            self,
                        ).tasks.list@.len() + 1
                    }
                },
            },
    {
        proof {
            crate::task::lemma_find_task_props(self.tasks.list@, seq, TaskKind::RecvBody);
        }
        let nl = self.tasks.list.len();
        match self.tasks.idx_of(seq, TaskKind::RecvBody) {
            Some(i) => {
                let ghost orig = self.tasks.list@;
                let t = self.tasks.list.remove(i);
                match t {
                    Task::RecvBody(mut x) => {
                        if x.buf.len() == 0 {
                            let ended = x.end.0;
                            self.tasks.list.insert(i, Task::RecvBody(x));
                            proof {
                                assert(self.tasks.list@ =~= orig);
                            }
                            if ended {
                                Pulled::End
                            } else {
                                Pulled::Pending
                            }
                        } else {
                            let k = if max < x.buf.len() {
                                max
                            } else {
                                x.buf.len()
                            };
                            let rest = x.buf.split_off(k);
                            let data = x.buf;
                            let x2 = RecvBody {
                                info: x.info,
                                buf: rest,
                                end: x.end,
                                reuse_conn: x.reuse_conn,
                            };
                            self.tasks.list.insert(i, Task::RecvBody(x2));
                            proof {
                                assert(self.tasks.list@ =~= orig.update(
                                    i as int,
                                    self.tasks.list@[i as int],
                                ));
                            }
                            Pulled::Bytes(data)
                        }
                    },
                    other => {
                        self.tasks.list.insert(i, other);
                        proof {
                            assert(false);
                        }
                        Pulled::Pending
                    },
                }
            },
            None => {
                if self.cur_seq > seq.0 {
                    return Pulled::End;
                }
                if matches!(self.state, State::Closed) {
                    match &self.error {
                        Some(m) => {
                            return Pulled::Failed(Error::Message(m.clone()));
                        },
                        None => {
                            return Pulled::End;
                        },
                    }
                }
                self.enqueue(Task::RecvBody(RecvBody::new(seq, reuse)));
                Pulled::Pending
            },
        }
    }
}

/// The response's `Connection` header asks to close.
pub open spec fn spec_conn_close(headers: Seq<Header>) -> bool {
    match spec_find_header(headers, ("connection")@) {
        Some(i) => eq_nocase(headers[i].value_view(), ("close")@),
        None => false,
    }
}

/// The response's `Connection` header asks to keep the connection alive.
pub open spec fn spec_conn_keepalive(headers: Seq<Header>) -> bool {
    match spec_find_header(headers, ("connection")@) {
        Some(i) => eq_nocase(headers[i].value_view(), ("keep-alive")@),
        None => false,
    }
}

/// The keep-alive decision: neither side asked to close, the delimiter
/// ends the body without a transport close, and the peer speaks HTTP/1.1
/// (an HTTP/1.0 peer must ask for keep-alive explicitly).
pub open spec fn spec_reuse(
    req_close: bool,
    headers: Seq<Header>,
    version: Seq<char>,
    clean: bool,
) -> bool {
    &&& !req_close
    &&& !spec_conn_close(headers)
    &&& clean
    &&& (version == ("HTTP/1.1")@ || spec_conn_keepalive(headers))
}

/// Compute the keep-alive decision from the response.
pub fn compute_reuse(req_close: bool, headers: &Vec<Header>, version: &str, clean: bool) -> (r:
    bool)
    requires
        headers_wf(headers@),
        version.is_ascii(),
    ensures
        r == spec_reuse(req_close, headers@, version@, clean),
{
    if req_close || !clean {
        return false;
    }
    let mut close = false;
    let mut keepalive = false;
    match get_header(headers, "connection") {
        Some(v) => {
            close = ascii_eq_nocase(v, "close");
            keepalive = ascii_eq_nocase(v, "keep-alive");
        },
        None => {},
    }
    if close {
        return false;
    }
    ascii_str_eq(version, "HTTP/1.1") || keepalive
}

/// The response-body half of a request: pulls bytes from the engine
/// through the delimiter the response headers chose, and reports the
/// delimiter's ruling back so the connection can advance.
pub struct RecvStream {
    pub seq: SeqNo,
    pub limiter: Limiter,
    pub reuse: bool,
    pub finished: bool,
    pub premature: bool,
}

impl RecvStream {
    /// The delimiter is well formed, and once the body ended cleanly
    /// under a known length, the counted bytes equal that length.
    pub open spec fn wf(&self) -> bool {
        &&& self.limiter.wf()
        &&& match self.limiter {
            Limiter::ContentLength(c) => self.finished && !self.premature ==> c.total == c.limit,
            _ => true,
        }
    }

    pub fn new(seq: SeqNo, limiter: Limiter, reuse: bool) -> (r: Self)
        requires
            limiter.wf(),
        ensures
            r.seq == seq,
            r.limiter == limiter,
            r.reuse == reuse,
            !r.finished,
            !r.premature,
    {
        RecvStream { seq, limiter, reuse, finished: false, premature: false }
    }

    pub fn is_end(&self) -> (r: bool)
        ensures
            r == self.finished,
    {
        self.finished
    }
}

/// What a body read returned: bytes (empty exactly at the end of the
/// body), not yet anything, or the connection's failure.
pub enum BodyPoll {
    Data(Vec<u8>),
    Pending,
    Failed(Error),
}

/// What a send-readiness poll returned.
pub enum CanSend {
    Ready,
    Pending,
    Failed(Error),
}

/// The handle a caller submits requests through.
#[derive(Clone, Copy, Debug)]
pub struct SendRequest {}

/// Resolves to the parsed response head once the engine has received it.
pub struct ResponseFuture {
    pub seq: SeqNo,
}

/// Submits request-body chunks for one request.
pub struct SendStream {
    pub seq: SeqNo,
}

/// A fresh engine and the handle to submit requests through.
pub fn handshake() -> (r: (SendRequest, Inner))
    ensures
        r.1.next_seq == 0,
        r.1.cur_seq == 0,
        r.1.state == State::Ready,
        r.1.error is None,
        !r.1.close_requested,
        r.1.wf(),
{
    (SendRequest {}, Inner::new())
}

impl SendRequest {
    /// Submit a request: serialize its head, queue it under a fresh
    /// sequence number, and hand back the response future and the body
    /// send handle, both keyed by that number.
    pub fn send_request(
        &mut self,
        inner: &mut Inner,
        req: &RequestHead,
        host: &str,
        end: bool,
    ) -> (r: Result<(ResponseFuture, SendStream), Error>)
        requires
            old(inner).wf(),
            req.wf(),
            old(inner).next_seq < usize::MAX,
            old(inner).tasks.next_task_id < usize::MAX,
        ensures
            final(inner).wf(),
            state_edge(old(inner).state, final(inner).state),
            final(inner).state == old(inner).state,
            final(inner).next_seq == old(inner).next_seq + 1,
            final(inner).cur_seq == old(inner).cur_seq,
            final(inner).error == old(inner).error,
            final(inner).pending_input == old(inner).pending_input,
            final(inner).close_requested == (old(inner).close_requested || spec_conn_close(
                req.headers@,
            )),
            match r {
                Ok((fut, stream)) => {
                    &&& fut.seq.0 == old(inner).next_seq
                    &&& stream.seq.0 == old(inner).next_seq
                    &&& final(inner).tasks.list@.len() == old(inner).tasks.list@.len() + 1
                    &&& (forall|j: int|
                        0 <= j < old(inner).tasks.list@.len() ==> final(inner).tasks.list@[j]
                            == old(inner).tasks.list@[j])
                    &&& match final(inner).tasks.list@.last() {
                        Task::SendReq(t) => t.info.seq.0 == old(inner).next_seq && !t.info.complete
                            && t.end.0 == end && t.req@ == spec_request_head_bytes(
                            req.method@,
                            req.target@,
                            if spec_find_header(req.headers@, ("host")@) is Some {
                                None
                            } else {
                                Some(host@)
                            },
                            req.headers@,
                        ),
                        _ => false,
                    }
                },
                Err(_) => false,
            },
    {
        let seq = SeqNo(inner.next_seq);
        inner.next_seq = inner.next_seq + 1;
        let asks_close = match get_header(&req.headers, "connection") {
            Some(v) => ascii_eq_nocase(v, "close"),
            None => false,
        };
        if asks_close {
            inner.close_requested = true;
        }
        let head_bytes = crate::http11::write_http11_req(req, host);
        inner.enqueue(Task::SendReq(SendReq::new(seq, head_bytes, end)));
        Ok((ResponseFuture { seq }, SendStream { seq }))
    }
}

impl SendStream {
    /// Whether another body chunk may be submitted now: fails on a closed
    /// connection or outside the send phase, parks while the previous
    /// chunk is still being written, and is ready otherwise.
    pub fn poll_can_send_data(&self, inner: &Inner) -> (r: CanSend)
        requires
            inner.wf(),
        ensures
            inner.state == State::Closed ==> r is Failed,
            inner.state != State::Closed && (inner.cur_seq > self.seq.0 || (inner.cur_seq
                == self.seq.0 && inner.state != State::SendBody)) ==> r is Failed,
            inner.state != State::Closed && !(inner.cur_seq > self.seq.0 || (inner.cur_seq
                == self.seq.0 && inner.state != State::SendBody)) ==> r == (
            if spec_find_task(inner.tasks.list@, self.seq, TaskKind::SendBody) is Some {
                CanSend::Pending
            } else {
                CanSend::Ready
            }),
    {
        if let Some(e) = inner.get_remote_error() {
            return CanSend::Failed(e);
        }
        if let Some(e) = inner.assert_can_send_body(self.seq) {
            return CanSend::Failed(e);
        }
        match inner.tasks.get_send_body(self.seq) {
            Some(_) => CanSend::Pending,
            None => CanSend::Ready,
        }
    }

    /// Queue one request-body chunk; `end` marks the last one. Fails
    /// exactly when the engine no longer accepts a body for this request.
    pub fn send_data(&mut self, inner: &mut Inner, data: &[u8], end: bool) -> (r: Result<
        (),
        Error,
    >)
        requires
            old(inner).wf(),
            old(self).seq.0 < old(inner).next_seq,
            old(inner).tasks.next_task_id < usize::MAX,
        ensures
            final(inner).wf(),
            state_edge(old(inner).state, final(inner).state),
            final(inner).state == old(inner).state,
            final(self).seq == old(self).seq,
            r is Err <==> (old(inner).cur_seq > old(self).seq.0 || (old(inner).cur_seq == old(self).seq.0 && old(inner).state != State::SendBody)),
            r is Err ==> *final(inner) == *old(inner),
            r is Ok ==> final(inner).tasks.list@.len() == old(inner).tasks.list@.len() + 1
                && (match final(inner).tasks.list@.last() {
                Task::SendBody(t) => t.info.seq == old(self).seq && !t.info.complete && t.end.0 == end
                    && t.body@ == data@,
                _ => false,
            }) && (forall|j: int|
                0 <= j < old(inner).tasks.list@.len() ==> final(inner).tasks.list@[j] == old(
                    inner,
                ).tasks.list@[j]),
    {
        if let Some(e) = inner.assert_can_send_body(self.seq) {
            return Err(e);
        }
        let chunk = vstd::slice::slice_to_vec(data);
        inner.enqueue(Task::SendBody(SendBody::new(self.seq, chunk, end)));
        Ok(())
    }
}

/// What polling the response future produced.
pub enum ResponsePoll {
    /// The parsed head and the stream the body is read from.
    Ready(ResponseHead, RecvStream),
    /// The head has not fully arrived.
    Pending,
    /// The connection failed, or the peer's head did not parse.
    Failed(Error),
}

impl ResponseFuture {
    /// Poll for the response head of this request.
    ///
    /// On a closed connection the stored error is replayed. Once the
    /// accumulating head task holds the `\r\n\r\n` terminator, the head
    /// is parsed: a malformed head closes the connection and fails; a
    /// parsed head is handed out with a body stream wired to the
    /// delimiter the headers chose and the keep-alive decision. Until
    /// then the poll parks, creating the head task on first contact.
    pub fn poll(&self, inner: &mut Inner) -> (r: ResponsePoll)
        requires
            old(inner).wf(),
            self.seq.0 < old(inner).next_seq,
            old(inner).tasks.next_task_id < usize::MAX,
        ensures
            final(inner).wf(),
            state_edge(old(inner).state, final(inner).state),
            old(inner).state == State::Closed ==> (r matches ResponsePoll::Failed(e) && (
            match old(inner).error {
                Some(m) => e.kind() == ErrorKind::Message && e.msg_view() == m@,
                None => e.kind() == ErrorKind::RemoteClosed,
            })),
            old(inner).state != State::Closed ==> match spec_find_task(
                old(inner).tasks.list@,
                self.seq,
                TaskKind::RecvRes,
            ) {
                Some(i) => match old(inner).tasks.list@[i] {
                    Task::RecvRes(t0) => {
                        if !crate::http11::has_head_terminator(t0.buf@) {
                            r is Pending && *final(inner) == *old(inner)
                        } else if spec_head_ok(t0.buf@) {
                            match r {
                                ResponsePoll::Ready(h, s) => {
                                    &&& head_matches(t0.buf@, h)
                                    &&& s.seq == self.seq
                                    &&& !s.finished
                                    &&& !s.premature
                                    &&& s.wf()
                                    &&& match crate::limit::spec_limiter_kind(h.headers@) {
                                        LimiterKind::Chunked => s.limiter is ChunkedDecoder,
                                        LimiterKind::Length(v) => (s.limiter
                                            matches Limiter::ContentLength(c) && c.limit == v
                                            && c.total == 0),
                                        LimiterKind::Eof => s.limiter is UntilEnd,
                                    }
                                    &&& s.reuse == spec_reuse(
                                        old(inner).close_requested,
                                        h.headers@,
                                        h.status_line@.subrange(0, h.index1 as int),
                                        !(s.limiter is UntilEnd),
                                    )
                                    &&& final(inner).tasks.list@ == old(inner).tasks.list@.remove(i)
                                    &&& final(inner).state == old(inner).state
                                },
                                _ => false,
                            }
                        } else {
                            (r matches ResponsePoll::Failed(e) && (e.kind()
                                == ErrorKind::BadStatus || e.kind() == ErrorKind::BadHeader)
                                && final(inner).state == State::Closed)
                        }
                    },
                    _ => false,
                },
                None => r is Pending && (self.seq.0 >= old(inner).cur_seq ==> final(inner).tasks.list@.len() == old(inner).tasks.list@.len() + 1),
            },
    {
        if let Some(e) = inner.get_remote_error() {
            return ResponsePoll::Failed(e);
        }
        proof {
            crate::task::lemma_find_task_props(inner.tasks.list@, self.seq, TaskKind::RecvRes);
        }
        let nl = inner.tasks.list.len();
        let i = match inner.tasks.idx_of(self.seq, TaskKind::RecvRes) {
            Some(i) => i,
            None => {
                if self.seq.0 >= inner.cur_seq {
                    inner.enqueue(Task::RecvRes(RecvRes::new(self.seq)));
                }
                return ResponsePoll::Pending;
            },
        };
        let parsed = match &inner.tasks.list[i] {
            Task::RecvRes(t) => crate::http11::parse_response_head(t.buf.as_slice()),
            _ => {
                proof {
                    assert(false);
                }
                return ResponsePoll::Pending;
            },
        };
        match parsed {
            Ok(None) => ResponsePoll::Pending,
            Ok(Some(head)) => {
                let ghost orig = inner.tasks.list@;
                let _t = inner.tasks.list.remove(i);
                proof {
                    assert(inner.tasks.list@ =~= orig.remove(i as int));
                }
                let limiter = Limiter::from_res(&head.headers);
                let clean = limiter.is_reusable_conn();
                let reuse = compute_reuse(
                    inner.close_requested,
                    &head.headers,
                    head.http_version(),
                    clean,
                );
                let stream = RecvStream::new(self.seq, limiter, reuse);
                ResponsePoll::Ready(head, stream)
            },
            Err(e) => {
                let msg = e.message();
                inner.mark_error(msg);
                ResponsePoll::Failed(e)
            },
        }
    }
}

/// The buffered bytes of the body task of request `seq`, when one is
/// queued.
pub open spec fn recv_task_buf(inner: Inner, seq: SeqNo) -> Option<Seq<u8>> {
    match spec_find_task(inner.tasks.list@, seq, TaskKind::RecvBody) {
        Some(i) => match inner.tasks.list@[i] {
            Task::RecvBody(t) => Some(t.buf@),
            _ => None,
        },
        None => None,
    }
}

/// Whether the body task of request `seq` has seen the transport end.
pub open spec fn recv_task_end(inner: Inner, seq: SeqNo) -> bool {
    match spec_find_task(inner.tasks.list@, seq, TaskKind::RecvBody) {
        Some(i) => match inner.tasks.list@[i] {
            Task::RecvBody(t) => t.end.0,
            _ => false,
        },
        None => false,
    }
}

/// The chunked decoder consumed some prefix of the buffered bytes: a run
/// from `st0` over `b0.take(k)` reaches `st1` emitting `out`, and when
/// asked, the buffer left behind is the rest.
pub open spec fn spec_chunked_read(
    st0: crate::chunked::ChunkState,
    b0: Seq<u8>,
    st1: crate::chunked::ChunkState,
    out: Seq<u8>,
    b1: Seq<u8>,
    check_buf: bool,
) -> bool {
    exists|k: int|
        0 <= k <= b0.len() && #[trigger] crate::chunked::spec_run(st0, b0.take(k)) == Some(
            (st1, out),
        ) && (check_buf ==> b1 == b0.skip(k))
}

/// The buffered byte count of the body task of request `seq`.
pub open spec fn recv_buf_len(inner: Inner, seq: SeqNo) -> int {
    match spec_find_task(inner.tasks.list@, seq, TaskKind::RecvBody) {
        Some(i) => match inner.tasks.list@[i] {
            Task::RecvBody(t) => t.buf@.len() as int,
            _ => 0,
        },
        None => 0,
    }
}

impl RecvStream {
    /// Read up to `max` body bytes (at least one may be asked for).
    ///
    /// Empty data marks the end of the body, exactly once; every later
    /// read returns empty data again without touching anything. The
    /// delimiter decides the end: the chunked decoder's terminator, the
    /// declared length reached, or the transport's close. At the end the
    /// engine is told, so the connection advances to `Ready` (when the
    /// keep-alive decision held) or to `Closed`.
    #[verifier::spinoff_prover]
    #[verifier::rlimit(60)]
    pub fn read(&mut self, inner: &mut Inner, max: usize) -> (r: BodyPoll)
        requires
            old(self).wf(),
            old(inner).wf(),
            old(self).seq.0 < old(inner).next_seq,
            old(inner).tasks.next_task_id < usize::MAX,
            max >= 1,
        ensures
            final(self).wf(),
            final(inner).wf(),
            state_edge(old(inner).state, final(inner).state),
            final(self).seq == old(self).seq,
            final(self).reuse == old(self).reuse,
            old(self).finished ==> (r matches BodyPoll::Data(d) && d@.len() == 0 && *final(self)
                == *old(self) && *final(inner) == *old(inner)),
            (r matches BodyPoll::Data(d) && d@.len() == 0) ==> final(self).finished,
            match r {
                BodyPoll::Data(d) => d@.len() > 0 ==> d@.len() <= max && !final(self).finished,
                _ => true,
            },
            r is Pending ==> final(self).finished == old(self).finished,
            r is Failed ==> final(self).finished == old(self).finished && final(self).premature
                == old(self).premature,
            match r {
                BodyPoll::Data(d) => d@.len() > 0 ==> final(inner).state == old(inner).state
                    && final(inner).cur_seq == old(inner).cur_seq,
                _ => true,
            },
            match (old(self).limiter, final(self).limiter) {
                (Limiter::ContentLength(c0), Limiter::ContentLength(c1)) => {
                    &&& c1.limit == c0.limit
                    &&& (match r {
                        BodyPoll::Data(d) => c1.total == c0.total + d@.len(),
                        _ => c1.total == c0.total,
                    })
                },
                (Limiter::ContentLength(c0), _) => false,
                (Limiter::UntilEnd(_), l1) => l1 is UntilEnd,
                (Limiter::ChunkedDecoder(_), l1) => l1 is ChunkedDecoder,
            },
            !old(self).finished && old(self).limiter is ContentLength ==> match (
                old(self).limiter,
                r,
            ) {
                (Limiter::ContentLength(c0), BodyPoll::Data(d)) => {
                    if d@.len() > 0 {
                        match recv_task_buf(*old(inner), old(self).seq) {
                            Some(b0) => {
                                &&& d@ == b0.take(d@.len() as int)
                                &&& d@.len() as int == vstd::math::min(
                                    vstd::math::min(max as int, c0.limit - c0.total),
                                    b0.len() as int,
                                )
                                &&& recv_task_buf(*final(inner), old(self).seq) == Some(
                                    b0.skip(d@.len() as int),
                                )
                            },
                            None => false,
                        }
                    } else {
                        if c0.total == c0.limit {
                            final(self).premature == old(self).premature
                        } else {
                            final(self).premature
                        }
                    }
                },
                _ => true,
            },
            !old(self).finished && old(self).limiter is UntilEnd ==> match r {
                BodyPoll::Data(d) => {
                    if d@.len() > 0 {
                        match recv_task_buf(*old(inner), old(self).seq) {
                            Some(b0) => {
                                &&& d@ == b0.take(d@.len() as int)
                                &&& d@.len() as int == vstd::math::min(
                                    max as int,
                                    b0.len() as int,
                                )
                                &&& recv_task_buf(*final(inner), old(self).seq) == Some(
                                    b0.skip(d@.len() as int),
                                )
                            },
                            None => false,
                        }
                    } else {
                        true
                    }
                },
                _ => true,
            },
            !old(self).finished && old(self).limiter is ChunkedDecoder ==> match (
                old(self).limiter,
                final(self).limiter,
                r,
            ) {
                (Limiter::ChunkedDecoder(d0), Limiter::ChunkedDecoder(d1), BodyPoll::Data(d)) => {
                    let b0 = match recv_task_buf(*old(inner), old(self).seq) {
                        Some(b) => b,
                        None => Seq::<u8>::empty(),
                    };
                    let b1 = match recv_task_buf(*final(inner), old(self).seq) {
                        Some(b) => b,
                        None => Seq::<u8>::empty(),
                    };
                    &&& spec_chunked_read(d0.state, b0, d1.state, d@, b1, d@.len() > 0)
                    &&& (d@.len() == 0 ==> d1.state is End)
                    &&& (d@.len() > 0 ==> recv_task_buf(*final(inner), old(self).seq) is Some)
                },
                (Limiter::ChunkedDecoder(d0), Limiter::ChunkedDecoder(d1), BodyPoll::Pending) => {
                    let b0 = match recv_task_buf(*old(inner), old(self).seq) {
                        Some(b) => b,
                        None => Seq::<u8>::empty(),
                    };
                    spec_chunked_read(d0.state, b0, d1.state, Seq::<u8>::empty(), b0, false)
                },
                (Limiter::ChunkedDecoder(_), _, _) => r is Failed,
                _ => true,
            },
    {
        if self.finished {
            return BodyPoll::Data(Vec::new());
        }
        let is_len = matches!(self.limiter, Limiter::ContentLength(_));
        let is_eof = matches!(self.limiter, Limiter::UntilEnd(_));
        if is_len {
            let (done, ask) = match &self.limiter {
                Limiter::ContentLength(c) => (c.is_done(), c.max_read(max)),
                _ => (false, 0),
            };
            if done {
                self.finished = true;
                inner.finish_body(self.seq, self.reuse);
                return BodyPoll::Data(Vec::new());
            }
            match inner.pull_body_bytes(self.seq, self.reuse, ask) {
                Pulled::Bytes(v) => {
                        proof {
                            crate::task::lemma_find_task_props(
                                old(inner).tasks.list@,
                                self.seq,
                                TaskKind::RecvBody,
                            );
                            crate::task::lemma_find_task_props(
                                inner.tasks.list@,
                                self.seq,
                                TaskKind::RecvBody,
                            );
                            match spec_find_task(
                                old(inner).tasks.list@,
                                self.seq,
                                TaskKind::RecvBody,
                            ) {
                                Some(i) => {
                                    match spec_find_task(
                                        inner.tasks.list@,
                                        self.seq,
                                        TaskKind::RecvBody,
                                    ) {
                                        Some(i2) => {
                                            assert(!(i2 < i));
                                            assert(!(i2 > i));
                                        },
                                        None => {
                                            assert(false);
                                        },
                                    }
                                },
                                None => {
                                    assert(false);
                                },
                            }
                        }
                    match &mut self.limiter {
                        Limiter::ContentLength(c) => {
                            c.note_read(v.len());
                        },
                        _ => {},
                    }
                    BodyPoll::Data(v)
                },
                Pulled::End => {
                    // the transport closed before the declared length
                    self.finished = true;
                    self.premature = true;
                    inner.finish_body(self.seq, false);
                    BodyPoll::Data(Vec::new())
                },
                Pulled::Pending => BodyPoll::Pending,
                Pulled::Failed(e) => BodyPoll::Failed(e),
            }
        } else if is_eof {
            match inner.pull_body_bytes(self.seq, self.reuse, max) {
                Pulled::Bytes(v) => {
                        proof {
                            crate::task::lemma_find_task_props(
                                old(inner).tasks.list@,
                                self.seq,
                                TaskKind::RecvBody,
                            );
                            crate::task::lemma_find_task_props(
                                inner.tasks.list@,
                                self.seq,
                                TaskKind::RecvBody,
                            );
                            match spec_find_task(
                                old(inner).tasks.list@,
                                self.seq,
                                TaskKind::RecvBody,
                            ) {
                                Some(i) => {
                                    match spec_find_task(
                                        inner.tasks.list@,
                                        self.seq,
                                        TaskKind::RecvBody,
                                    ) {
                                        Some(i2) => {
                                            assert(!(i2 < i));
                                            assert(!(i2 > i));
                                        },
                                        None => {
                                            assert(false);
                                        },
                                    }
                                },
                                None => {
                                    assert(false);
                                },
                            }
                        }
                    BodyPoll::Data(v)
                },
                Pulled::End => {
                    // until-close delimiting: the close is the clean end
                    self.finished = true;
                    inner.finish_body(self.seq, false);
                    BodyPoll::Data(Vec::new())
                },
                Pulled::Pending => BodyPoll::Pending,
                Pulled::Failed(e) => BodyPoll::Failed(e),
            }
        } else {
            let ghost b0opt = recv_task_buf(*inner, self.seq);
            let ghost b0: Seq<u8> = match b0opt {
                Some(b) => b,
                None => Seq::<u8>::empty(),
            };
            let ghost d0state = match &self.limiter {
                Limiter::ChunkedDecoder(d) => d.state,
                _ => (crate::chunked::ChunkState::End {  }),
            };
            let ghost mut k: int = 0;
            proof {
                assert(b0.take(0) =~= Seq::<u8>::empty());
                crate::task::lemma_find_task_props(
                    inner.tasks.list@,
                    self.seq,
                    TaskKind::RecvBody,
                );
            }
            loop
                invariant
                    self.wf(),
                    inner.wf(),
                    self.limiter is ChunkedDecoder,
                    old(self).limiter is ChunkedDecoder,
                    d0state == (match old(self).limiter {
                        Limiter::ChunkedDecoder(d) => d.state,
                        _ => (crate::chunked::ChunkState::End {  }),
                    }),
                    b0opt == recv_task_buf(*old(inner), old(self).seq),
                    b0 == (match b0opt {
                        Some(b) => b,
                        None => Seq::<u8>::empty(),
                    }),
                    0 <= k <= b0.len(),
                    b0opt is None ==> k == 0 && spec_find_task(
                        inner.tasks.list@,
                        self.seq,
                        TaskKind::RecvBody,
                    ) is None,
                    (b0opt matches Some(b)) ==> recv_task_buf(*inner, self.seq) == Some(
                        b0.skip(k),
                    ),
                    match self.limiter {
                        Limiter::ChunkedDecoder(d) => crate::chunked::spec_run(
                            d0state,
                            b0.take(k),
                        ) == Some((d.state, Seq::<u8>::empty())),
                        _ => false,
                    },
                    !self.finished,
                    !old(self).finished,
                    self.premature == old(self).premature,
                    self.seq == old(self).seq,
                    self.reuse == old(self).reuse,
                    max >= 1,
                    self.seq.0 < inner.next_seq,
                    inner.tasks.next_task_id < usize::MAX,
                    inner.state == old(inner).state,
                    inner.cur_seq == old(inner).cur_seq,
                decreases recv_buf_len(*inner, self.seq),
            {
                let ended = match &self.limiter {
                    Limiter::ChunkedDecoder(d) => d.is_end(),
                    _ => false,
                };
                if ended {
                    proof {
                        match &self.limiter {
                            Limiter::ChunkedDecoder(d1c) => {
                                assert(crate::chunked::spec_run(d0state, b0.take(k)) == Some(
                                    (d1c.state, Seq::<u8>::empty()),
                                ));
                                assert(spec_chunked_read(
                                    d0state,
                                    b0,
                                    d1c.state,
                                    Seq::<u8>::empty(),
                                    b0,
                                    false,
                                ));
                                assert(d1c.state is End);
                            },
                            _ => {
                                assert(false);
                            },
                        }
                    }
                    self.finished = true;
                    inner.finish_body(self.seq, self.reuse);
                    return BodyPoll::Data(Vec::new());
                }
                let ghost pre = *inner;
                match inner.pull_body_bytes(self.seq, self.reuse, 1) {
                    Pulled::Bytes(raw) => {
                        proof {
                            crate::task::lemma_find_task_props(
                                pre.tasks.list@,
                                self.seq,
                                TaskKind::RecvBody,
                            );
                            crate::task::lemma_find_task_props(
                                inner.tasks.list@,
                                self.seq,
                                TaskKind::RecvBody,
                            );
                            assert(recv_buf_len(*inner, self.seq) < recv_buf_len(
                                pre,
                                self.seq,
                            ));
                            assert(b0opt is Some);
                            assert(k < b0.len());
                            assert(raw@ =~= seq![b0[k]]);
                            assert(recv_task_buf(*inner, self.seq) == Some(
                                b0.skip(k).skip(1),
                            ));
                            assert(b0.skip(k).skip(1) =~= b0.skip(k + 1));
                        }
                        let mut outv: Vec<u8> = Vec::new();
                        let ghost dstate = match &self.limiter {
                            Limiter::ChunkedDecoder(d) => d.state,
                            _ => (crate::chunked::ChunkState::End {  }),
                        };
                        let dec = match &mut self.limiter {
                            Limiter::ChunkedDecoder(d) => d.decode(raw.as_slice(), &mut outv),
                            _ => Ok(0),
                        };
                        match dec {
                            Ok(kk) => {
                                proof {
                                    crate::chunked::lemma_run_output_len(
                                        dstate,
                                        raw@.take(kk as int),
                                    );
                                    if kk < 1 {
                                        assert(raw@.take(0) =~= Seq::<u8>::empty());
                                        assert(match self.limiter {
                                            Limiter::ChunkedDecoder(d) => d.state == dstate
                                                && d.state is End,
                                            _ => false,
                                        });
                                        assert(false);
                                    }
                                    assert(raw@.take(1) =~= raw@);
                                    // decode advanced by exactly the one buffered byte
                                    assert(raw@[0] == b0[k]);
                                    assert(raw@.drop_first() =~= Seq::<u8>::empty());
                                    assert(match self.limiter {
                                        Limiter::ChunkedDecoder(d) => crate::chunked::spec_run(
                                            dstate,
                                            raw@,
                                        ) == Some((d.state, outv@)),
                                        _ => false,
                                    });
                                    match crate::chunked::spec_step(dstate, b0[k]) {
                                        Some((s1, o)) => {
                                            let head = match o {
                                                Some(x) => seq![x],
                                                None => Seq::<u8>::empty(),
                                            };
                                            assert(crate::chunked::spec_run(
                                                s1,
                                                Seq::<u8>::empty(),
                                            ) == Some((s1, Seq::<u8>::empty())));
                                            assert(crate::chunked::spec_run(dstate, raw@)
                                                == Some((s1, head + Seq::<u8>::empty())));
                                            assert(head + Seq::<u8>::empty() =~= head);
                                            assert(match self.limiter {
                                                Limiter::ChunkedDecoder(d) => d.state == s1
                                                    && outv@ == head,
                                                _ => false,
                                            });
                                            crate::chunked::lemma_run_snoc(
                                                d0state,
                                                b0.take(k),
                                                b0[k],
                                            );
                                            assert(b0.take(k).push(b0[k]) =~= b0.take(k + 1));
                                            assert(Seq::<u8>::empty() + head =~= head);
                                            assert(crate::chunked::spec_run(
                                                d0state,
                                                b0.take(k + 1),
                                            ) == Some((s1, outv@)));
                                        },
                                        None => {
                                            assert(crate::chunked::spec_run(dstate, raw@)
                                                is None);
                                            assert(false);
                                        },
                                    }
                                    k = k + 1;
                                    assert(match self.limiter {
                                        Limiter::ChunkedDecoder(d) => crate::chunked::spec_run(
                                            d0state,
                                            b0.take(k),
                                        ) == Some((d.state, outv@)),
                                        _ => false,
                                    });
                                }
                                if outv.len() > 0 {
                                    proof {
                                        assert(recv_task_buf(*inner, self.seq) == Some(
                                            b0.skip(k),
                                        ));
                                        match &self.limiter {
                                            Limiter::ChunkedDecoder(d1c) => {
                                                assert(crate::chunked::spec_run(
                                                    d0state,
                                                    b0.take(k),
                                                ) == Some((d1c.state, outv@)));
                                                assert(spec_chunked_read(
                                                    d0state,
                                                    b0,
                                                    d1c.state,
                                                    outv@,
                                                    b0.skip(k),
                                                    true,
                                                ));
                                            },
                                            _ => {
                                                assert(false);
                                            },
                                        }
                                    }
                                    return BodyPoll::Data(outv);
                                }
                                proof {
                                    assert(outv@ =~= Seq::<u8>::empty());
                                }
                            },
                            Err(_) => {
                                let msg = String::from_str("bad chunked encoding");
                                inner.mark_error(msg);
                                return BodyPoll::Failed(
                                    Error::Static("bad chunked encoding"),
                                );
                            },
                        }
                    },
                    Pulled::End => {
                        // the transport closed inside the chunked framing
                        let msg = String::from_str("closed before the last chunk");
                        inner.mark_error(msg);
                        return BodyPoll::Failed(Error::Static("closed before the last chunk"));
                    },
                    Pulled::Pending => {
                        proof {
                            match &self.limiter {
                                Limiter::ChunkedDecoder(d1c) => {
                                    assert(crate::chunked::spec_run(d0state, b0.take(k)) == Some(
                                        (d1c.state, Seq::<u8>::empty()),
                                    ));
                                    assert(spec_chunked_read(
                                        d0state,
                                        b0,
                                        d1c.state,
                                        Seq::<u8>::empty(),
                                        b0,
                                        false,
                                    ));
                                },
                                _ => {
                                    assert(false);
                                },
                            }
                        }
                        return BodyPoll::Pending;
                    },
                    Pulled::Failed(e) => {
                        return BodyPoll::Failed(e);
                    },
                }
            }
        }
    }
}

/// Every task the engine holds belongs to the request being serviced or
/// to a later one: no handle ever acts on a request already answered.
pub proof fn lemma_no_stale_tasks(inner: Inner)
    requires
        inner.wf(),
    ensures
        forall|i: int|
            0 <= i < inner.tasks.list@.len() ==> (
            #[trigger] inner.tasks.list@[i]).spec_info().seq.0 >= inner.cur_seq,
{
}

/// A body under a known length that ended without the transport closing
/// early has delivered exactly the declared number of bytes.
pub proof fn lemma_known_length_drains_exactly(s: RecvStream)
    requires
        s.wf(),
        s.limiter is ContentLength,
        s.finished,
        !s.premature,
    ensures
        match s.limiter {
            Limiter::ContentLength(c) => c.total == c.limit,
            _ => false,
        },
{
}

} // verus!









