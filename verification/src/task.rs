//! The task model of the HTTP/1.1 engine.
//!
//! Protocol work is queued as tagged task records, keyed by the sequence
//! number of the request they belong to. The engine services the queue in
//! arrival order, one sequence number at a time.

use vstd::prelude::*;

verus! {

/// Monotonic per-connection request identifier.
#[derive(Clone, Copy, PartialEq, Eq, Structural)]
pub struct SeqNo(pub usize);

/// Whether a send task is the last one of its request.
#[derive(Clone, Copy, PartialEq, Eq, Structural)]
pub struct End(pub bool);

/// Queue-unique identifier of a task record.
#[derive(Clone, Copy, PartialEq, Eq, Structural)]
pub struct TaskId(pub usize);

/// The tag every task carries: which request it belongs to, its queue
/// identity, and whether it has finished and may be pruned.
#[derive(Clone, Copy, PartialEq, Eq, Structural)]
pub struct TaskInfo {
    pub seq: SeqNo,
    pub task_id: TaskId,
    pub complete: bool,
}

impl TaskInfo {
    pub fn new(seq: SeqNo) -> (r: Self)
        ensures
            r.seq == seq,
            r.task_id.0 == 0,
            !r.complete,
    {
        TaskInfo { seq, task_id: TaskId(0), complete: false }
    }
}

/// Carries the serialized request head; `end` is true iff no body follows.
pub struct SendReq {
    pub info: TaskInfo,
    pub req: Vec<u8>,
    pub end: End,
}

impl SendReq {
    pub fn new(seq: SeqNo, req: Vec<u8>, end: bool) -> (r: Self)
        ensures
            r.info.seq == seq,
            !r.info.complete,
            r.req == req,
            r.end.0 == end,
    {
        SendReq { info: TaskInfo::new(seq), req, end: End(end) }
    }
}

/// One chunk of request body; `end` is true iff it is the last chunk.
pub struct SendBody {
    pub info: TaskInfo,
    pub body: Vec<u8>,
    pub end: End,
}

impl SendBody {
    pub fn new(seq: SeqNo, body: Vec<u8>, end: bool) -> (r: Self)
        ensures
            r.info.seq == seq,
            !r.info.complete,
            r.body == body,
            r.end.0 == end,
    {
        SendBody { info: TaskInfo::new(seq), body, end: End(end) }
    }
}

/// Accumulates response-head bytes until the header terminator is found.
pub struct RecvRes {
    pub info: TaskInfo,
    pub buf: Vec<u8>,
}

impl RecvRes {
    pub fn new(seq: SeqNo) -> (r: Self)
        ensures
            r.info.seq == seq,
            !r.info.complete,
            r.buf@ == Seq::<u8>::empty(),
    {
        RecvRes { info: TaskInfo::new(seq), buf: Vec::new() }
    }
}

/// Holds one unit of response body bytes filled by the engine; `end` is set
/// when the transport delimiter says the body is over, and `reuse_conn`
/// tells the engine whether a clean end returns the connection to `Ready`.
pub struct RecvBody {
    pub info: TaskInfo,
    pub buf: Vec<u8>,
    pub end: End,
    pub reuse_conn: bool,
}

impl RecvBody {
    pub fn new(seq: SeqNo, reuse_conn: bool) -> (r: Self)
        ensures
            r.info.seq == seq,
            !r.info.complete,
            r.buf@ == Seq::<u8>::empty(),
            !r.end.0,
            r.reuse_conn == reuse_conn,
    {
        RecvBody { info: TaskInfo::new(seq), buf: Vec::new(), end: End(false), reuse_conn }
    }
}

/// The four kinds of task, used to select the task the current state needs.
#[derive(Clone, Copy, PartialEq, Eq, Structural)]
pub enum TaskKind {
    SendReq,
    SendBody,
    RecvRes,
    RecvBody,
}

/// A queued unit of protocol work.
pub enum Task {
    SendReq(SendReq),
    SendBody(SendBody),
    RecvRes(RecvRes),
    RecvBody(RecvBody),
}

impl Task {
    pub open spec fn spec_info(&self) -> TaskInfo {
        match self {
            Task::SendReq(t) => t.info,
            Task::SendBody(t) => t.info,
            Task::RecvRes(t) => t.info,
            Task::RecvBody(t) => t.info,
        }
    }

    pub open spec fn kind(&self) -> TaskKind {
        match self {
            Task::SendReq(_) => TaskKind::SendReq,
            Task::SendBody(_) => TaskKind::SendBody,
            Task::RecvRes(_) => TaskKind::RecvRes,
            Task::RecvBody(_) => TaskKind::RecvBody,
        }
    }

    /// The same task with its tag replaced.
    pub open spec fn with_info(self, i: TaskInfo) -> Task {
        match self {
            Task::SendReq(t) => Task::SendReq(SendReq { info: i, ..t }),
            Task::SendBody(t) => Task::SendBody(SendBody { info: i, ..t }),
            Task::RecvRes(t) => Task::RecvRes(RecvRes { info: i, ..t }),
            Task::RecvBody(t) => Task::RecvBody(RecvBody { info: i, ..t }),
        }
    }

    pub fn get_kind(&self) -> (r: TaskKind)
        ensures
            r == self.kind(),
    {
        match self {
            Task::SendReq(_) => TaskKind::SendReq,
            Task::SendBody(_) => TaskKind::SendBody,
            Task::RecvRes(_) => TaskKind::RecvRes,
            Task::RecvBody(_) => TaskKind::RecvBody,
        }
    }

    pub fn info(&self) -> (r: &TaskInfo)
        ensures
            *r == self.spec_info(),
    {
        match self {
            Task::SendReq(t) => &t.info,
            Task::SendBody(t) => &t.info,
            Task::RecvRes(t) => &t.info,
            Task::RecvBody(t) => &t.info,
        }
    }

    pub fn info_mut(&mut self) -> (r: &mut TaskInfo)
        ensures
            *r == old(self).spec_info(),
            *final(self) == old(self).with_info(*final(r)),
    {
        match self {
            Task::SendReq(t) => &mut t.info,
            Task::SendBody(t) => &mut t.info,
            Task::RecvRes(t) => &mut t.info,
            Task::RecvBody(t) => &mut t.info,
        }
    }

    pub fn is_send_req(&self) -> (r: bool)
        ensures
            r == (self.kind() == TaskKind::SendReq),
    {
        if let Task::SendReq(_) = self {
            return true;
        }
        false
    }

    pub fn is_send_body(&self) -> (r: bool)
        ensures
            r == (self.kind() == TaskKind::SendBody),
    {
        if let Task::SendBody(_) = self {
            return true;
        }
        false
    }

    pub fn is_recv_res(&self) -> (r: bool)
        ensures
            r == (self.kind() == TaskKind::RecvRes),
    {
        if let Task::RecvRes(_) = self {
            return true;
        }
        false
    }

    pub fn is_recv_body(&self) -> (r: bool)
        ensures
            r == (self.kind() == TaskKind::RecvBody),
    {
        if let Task::RecvBody(_) = self {
            return true;
        }
        false
    }
}

/// First index in `list` of a task of request `seq` and kind `kind`.
pub open spec fn spec_find_task(list: Seq<Task>, seq: SeqNo, kind: TaskKind) -> Option<int>
    decreases list.len(),
{
    if list.len() == 0 {
        None
    } else if list[0].spec_info().seq == seq && list[0].kind() == kind {
        Some(0)
    } else {
        match spec_find_task(list.drop_first(), seq, kind) {
            Some(i) => Some(i + 1),
            None => None,
        }
    }
}

/// The index a successful find names is in range, matches, and is first.
pub proof fn lemma_find_task_props(list: Seq<Task>, seq: SeqNo, kind: TaskKind)
    ensures
        match spec_find_task(list, seq, kind) {
            Some(i) => 0 <= i < list.len() && list[i].spec_info().seq == seq && list[i].kind()
                == kind && forall|j: int|
                0 <= j < i ==> !(list[j].spec_info().seq == seq && list[j].kind() == kind),
            None => forall|j: int|
                0 <= j < list.len() ==> !(list[j].spec_info().seq == seq && list[j].kind()
                    == kind),
        },
    decreases list.len(),
{
    if list.len() > 0 {
        if !(list[0].spec_info().seq == seq && list[0].kind() == kind) {
            lemma_find_task_props(list.drop_first(), seq, kind);
            assert forall|j: int| 1 <= j < list.len() implies list.drop_first()[j - 1] == list[j] by {}
        }
    }
}

/// The ordered task queue. Order is arrival order; `next_task_id` tags each
/// pushed task with a fresh queue identity.
pub struct Tasks {
    pub next_task_id: usize,
    pub list: Vec<Task>,
}

impl Tasks {
    pub fn new() -> (r: Self)
        ensures
            r.next_task_id == 0,
            r.list@ == Seq::<Task>::empty(),
    {
        Tasks { next_task_id: 0, list: Vec::new() }
    }

    /// Append a task, tagging it with the next queue identity.
    pub fn push(&mut self, task: Task)
        requires
            old(self).next_task_id < usize::MAX,
        ensures
            final(self).next_task_id == old(self).next_task_id + 1,
            final(self).list@ == old(self).list@.push(
                task.with_info(
                    (TaskInfo {
                        task_id: TaskId(old(self).next_task_id),
                        ..task.spec_info()
                    }),
                ),
            ),
    {
        let task_id = self.next_task_id;
        self.next_task_id = self.next_task_id + 1;
        let mut task = task;
        let info = task.info_mut();
        info.task_id = TaskId(task_id);
        self.list.push(task);
    }

    /// Drop the task with the given queue identity, keeping the rest in order.
    pub fn remove(&mut self, task_id: TaskId)
        ensures
            final(self).next_task_id == old(self).next_task_id,
            final(self).list@ == old(self).list@.filter(
                |t: Task| t.spec_info().task_id != task_id,
            ),
    {
        let ghost pred = |t: Task| t.spec_info().task_id != task_id;
        let ghost orig = self.list@;
        let mut kept: Vec<Task> = Vec::new();
        while self.list.len() > 0
            invariant
                pred == (|t: Task| t.spec_info().task_id != task_id),
                self.next_task_id == old(self).next_task_id,
                self.list@.len() <= orig.len(),
                self.list@ == orig.skip(orig.len() - self.list@.len()),
                kept@ == orig.take(orig.len() - self.list@.len()).filter(pred),
            decreases self.list@.len(),
        {
            let ghost i = orig.len() - self.list@.len();
            let t = self.list.remove(0);
            proof {
                reveal(Seq::filter);
                assert(orig.take(i + 1).drop_last() =~= orig.take(i));
                assert(orig.take(i + 1).last() == orig[i]);
                assert(t == orig[i]);
                assert(self.list@ =~= orig.skip(i + 1));
                assert(orig.take(i + 1).filter(pred) == if pred(orig[i]) {
                    orig.take(i).filter(pred).push(orig[i])
                } else {
                    orig.take(i).filter(pred)
                });
            }
            if t.info().task_id.0 != task_id.0 {
                kept.push(t);
            }
        }
        proof {
            assert(orig.take(orig.len() as int) =~= orig);
        }
        self.list = kept;
    }

    /// Drop every task already marked complete, keeping the rest in order.
    pub fn prune_completed(&mut self)
        ensures
            final(self).next_task_id == old(self).next_task_id,
            final(self).list@ == old(self).list@.filter(
                |t: Task| !t.spec_info().complete,
            ),
    {
        let ghost pred = |t: Task| !t.spec_info().complete;
        let ghost orig = self.list@;
        let mut kept: Vec<Task> = Vec::new();
        while self.list.len() > 0
            invariant
                pred == (|t: Task| !t.spec_info().complete),
                self.next_task_id == old(self).next_task_id,
                self.list@.len() <= orig.len(),
                self.list@ == orig.skip(orig.len() - self.list@.len()),
                kept@ == orig.take(orig.len() - self.list@.len()).filter(pred),
            decreases self.list@.len(),
        {
            let ghost i = orig.len() - self.list@.len();
            let t = self.list.remove(0);
            proof {
                reveal(Seq::filter);
                assert(orig.take(i + 1).drop_last() =~= orig.take(i));
                assert(orig.take(i + 1).last() == orig[i]);
                assert(t == orig[i]);
                assert(self.list@ =~= orig.skip(i + 1));
                assert(orig.take(i + 1).filter(pred) == if pred(orig[i]) {
                    orig.take(i).filter(pred).push(orig[i])
                } else {
                    orig.take(i).filter(pred)
                });
            }
            if !t.info().complete {
                kept.push(t);
            }
        }
        proof {
            assert(orig.take(orig.len() as int) =~= orig);
        }
        self.list = kept;
    }

    /// Drop every task of a request older than `cur`, keeping the rest in
    /// order.
    pub fn prune_below(&mut self, cur: SeqNo)
        ensures
            final(self).next_task_id == old(self).next_task_id,
            final(self).list@ == old(self).list@.filter(
                |t: Task| t.spec_info().seq.0 >= cur.0,
            ),
    {
        let ghost pred = |t: Task| t.spec_info().seq.0 >= cur.0;
        let ghost orig = self.list@;
        let mut kept: Vec<Task> = Vec::new();
        while self.list.len() > 0
            invariant
                pred == (|t: Task| t.spec_info().seq.0 >= cur.0),
                self.next_task_id == old(self).next_task_id,
                self.list@.len() <= orig.len(),
                self.list@ == orig.skip(orig.len() - self.list@.len()),
                kept@ == orig.take(orig.len() - self.list@.len()).filter(pred),
            decreases self.list@.len(),
        {
            let ghost i = orig.len() - self.list@.len();
            let t = self.list.remove(0);
            proof {
                reveal(Seq::filter);
                assert(orig.take(i + 1).drop_last() =~= orig.take(i));
                assert(orig.take(i + 1).last() == orig[i]);
                assert(t == orig[i]);
                assert(self.list@ =~= orig.skip(i + 1));
                assert(orig.take(i + 1).filter(pred) == if pred(orig[i]) {
                    orig.take(i).filter(pred).push(orig[i])
                } else {
                    orig.take(i).filter(pred)
                });
            }
            if t.info().seq.0 >= cur.0 {
                kept.push(t);
            }
        }
        proof {
            assert(orig.take(orig.len() as int) =~= orig);
        }
        self.list = kept;
    }

    /// Index of the first task of request `seq` with the given kind.
    pub fn idx_of(&self, seq: SeqNo, kind: TaskKind) -> (r: Option<usize>)
        ensures
            match spec_find_task(self.list@, seq, kind) {
                Some(i) => r == Some(i as usize),
                None => r is None,
            },
    {
        proof {
            lemma_find_task_props(self.list@, seq, kind);
        }
        let mut i: usize = 0;
        let n = self.list.len();
        while i < n
            invariant
                n == self.list@.len(),
                i <= n,
                forall|j: int|
                    0 <= j < i ==> !(self.list@[j].spec_info().seq == seq
                        && self.list@[j].kind() == kind),
            decreases n - i,
        {
            let t = &self.list[i];
            if t.info().seq.0 == seq.0 && t.get_kind() == kind {
                proof {
                    lemma_find_task_props(self.list@, seq, kind);
                    match spec_find_task(self.list@, seq, kind) {
                        Some(k) => {
                            assert(!(k < i));
                            assert(!(k > i)) by {
                                if k > i {
                                    assert(self.list@[i as int].spec_info().seq == seq);
                                }
                            }
                        },
                        None => {
                            assert(self.list@[i as int].spec_info().seq == seq);
                            assert(false);
                        },
                    }
                }
                return Some(i);
            }
            i = i + 1;
        }
        None
    }

    /// The first task of request `seq` with the given kind, if any.
    pub fn get_task(&self, seq: SeqNo, kind: TaskKind) -> (r: Option<&Task>)
        ensures
            match spec_find_task(self.list@, seq, kind) {
                Some(i) => r matches Some(t) && *t == self.list@[i],
                None => r is None,
            },
    {
        proof {
            lemma_find_task_props(self.list@, seq, kind);
        }
        let n = self.list.len();
        match self.idx_of(seq, kind) {
            Some(i) => {
                let t = &self.list[i];
                proof {
                    match spec_find_task(self.list@, seq, kind) {
                        Some(si) => {
                            assert(si < n);
                            assert(*t == self.list@[si]);
                        },
                        None => {
                            assert(false);
                        },
                    }
                }
                Some(t)
            },
            None => None,
        }
    }

    /// The first send-request task of request `seq`, if any.
    pub fn get_send_req(&self, seq: SeqNo) -> (r: Option<&SendReq>)
        ensures
            match spec_find_task(self.list@, seq, TaskKind::SendReq) {
                Some(i) => r matches Some(t) && self.list@[i] == Task::SendReq(*t),
                None => r is None,
            },
    {
        proof {
            lemma_find_task_props(self.list@, seq, TaskKind::SendReq);
        }
        match self.get_task(seq, TaskKind::SendReq) {
            Some(Task::SendReq(t)) => Some(t),
            _ => None,
        }
    }

    /// The first send-body task of request `seq`, if any.
    pub fn get_send_body(&self, seq: SeqNo) -> (r: Option<&SendBody>)
        ensures
            match spec_find_task(self.list@, seq, TaskKind::SendBody) {
                Some(i) => r matches Some(t) && self.list@[i] == Task::SendBody(*t),
                None => r is None,
            },
    {
        proof {
            lemma_find_task_props(self.list@, seq, TaskKind::SendBody);
        }
        match self.get_task(seq, TaskKind::SendBody) {
            Some(Task::SendBody(t)) => Some(t),
            _ => None,
        }
    }

    /// The first receive-response task of request `seq`, if any.
    pub fn get_recv_res(&self, seq: SeqNo) -> (r: Option<&RecvRes>)
        ensures
            match spec_find_task(self.list@, seq, TaskKind::RecvRes) {
                Some(i) => r matches Some(t) && self.list@[i] == Task::RecvRes(*t),
                None => r is None,
            },
    {
        proof {
            lemma_find_task_props(self.list@, seq, TaskKind::RecvRes);
        }
        match self.get_task(seq, TaskKind::RecvRes) {
            Some(Task::RecvRes(t)) => Some(t),
            _ => None,
        }
    }

    /// The first receive-body task of request `seq`, if any.
    pub fn get_recv_body(&self, seq: SeqNo) -> (r: Option<&RecvBody>)
        ensures
            match spec_find_task(self.list@, seq, TaskKind::RecvBody) {
                Some(i) => r matches Some(t) && self.list@[i] == Task::RecvBody(*t),
                None => r is None,
            },
    {
        proof {
            lemma_find_task_props(self.list@, seq, TaskKind::RecvBody);
        }
        match self.get_task(seq, TaskKind::RecvBody) {
            Some(Task::RecvBody(t)) => Some(t),
            _ => None,
        }
    }
}

} // verus!
