//! POSIX message queues.
use vstd::prelude::*;
use std::collections::VecDeque;
use crate::table::NameTable;
use crate::ipc::Pid;
use crate::ipc::sem::{O_CREAT, O_EXCL};

verus! {

pub const MAX_MSGS: usize = 64;
pub const MAX_MSG_SZ: usize = 8192;

pub struct Message {
    pub prio: u32,
    pub data: Vec<u8>,
}

pub struct MsgQueue {
    pub name: String,
    pub msgs: VecDeque<Message>,
    pub maxmsg: usize,
    pub msgsize: usize,
    pub mode: u32,
    pub refs: u32,
    pub waiters_r: VecDeque<Pid>,
    pub waiters_w: VecDeque<Pid>,
}

/// All message queues of the system.
pub struct MqTable {
    pub queues: NameTable<MsgQueue>,
}

/// What one attempt to send or receive came to.
pub enum MqStep {
    /// Finished with this return value; the process, if any, is to be woken.
    Done(i32, Option<Pid>),
    /// The caller was queued and must sleep, then try again.
    Block,
}

impl MqTable {
    pub open spec fn wf(&self) -> bool {
        self.queues.wf()
    }

    pub fn new() -> (r: MqTable)
        ensures
            r.wf(),
            r.queues@ == Map::<Seq<char>, MsgQueue>::empty(),
    {
        MqTable { queues: NameTable::new() }
    }
}

/// Opens (and with `O_CREAT` creates) the queue `name`; a zero `maxmsg` or
/// `msgsize` takes the default. Returns 0, -17 (EEXIST) or -2 (ENOENT).
pub fn mq_open(t: &mut MqTable, name: &str, oflag: i32, mode: u32, maxmsg: usize, msgsize: usize) -> (r: i32)
    requires
        old(t).wf(),
        old(t).queues@.contains_key(name@) ==> old(t).queues@[name@].refs < u32::MAX,
    ensures
        final(t).wf(),
        old(t).queues@.contains_key(name@) && oflag & O_CREAT != 0 && oflag & O_EXCL != 0 ==> r == -17
            && final(t).queues@ == old(t).queues@,
        old(t).queues@.contains_key(name@) && !(oflag & O_CREAT != 0 && oflag & O_EXCL != 0) ==> r == 0
            && final(t).queues@.dom() == old(t).queues@.dom()
            && final(t).queues@[name@].refs == old(t).queues@[name@].refs + 1
            && final(t).queues@[name@].msgs@ == old(t).queues@[name@].msgs@
            && final(t).queues@[name@].maxmsg == old(t).queues@[name@].maxmsg
            && forall|k: Seq<char>| #[trigger] old(t).queues@.contains_key(k) && k != name@
                ==> final(t).queues@[k] == old(t).queues@[k],
        !old(t).queues@.contains_key(name@) && oflag & O_CREAT == 0 ==> r == -2
            && final(t).queues@ == old(t).queues@,
        !old(t).queues@.contains_key(name@) && oflag & O_CREAT != 0 ==> r == 0
            && final(t).queues@.dom() == old(t).queues@.dom().insert(name@)
            && final(t).queues@[name@].msgs@.len() == 0
            && final(t).queues@[name@].maxmsg == (if maxmsg == 0 { MAX_MSGS } else { maxmsg })
            && final(t).queues@[name@].msgsize == (if msgsize == 0 { MAX_MSG_SZ } else { msgsize })
            && final(t).queues@[name@].mode == mode
            && final(t).queues@[name@].refs == 1
            && final(t).queues@[name@].waiters_r@.len() == 0
            && final(t).queues@[name@].waiters_w@.len() == 0
            && forall|k: Seq<char>| #[trigger] old(t).queues@.contains_key(k)
                ==> final(t).queues@[k] == old(t).queues@[k],
{
    let create = oflag & O_CREAT != 0;
    let excl = oflag & O_EXCL != 0;
    match t.queues.find(name) {
        Some(i) => {
            if create && excl {
                return -17;
            }
            let q = t.queues.get_mut(i);
            q.refs = q.refs + 1;
            proof {
                NameTable::lemma_view_update(&old(t).queues, &t.queues, i as int);
            }
            0
        },
        None => {
            if !create {
                return -2;
            }
            let q = MsgQueue {
                name: name.to_owned(),
                msgs: VecDeque::new(),
                maxmsg: if maxmsg == 0 { MAX_MSGS } else { maxmsg },
                msgsize: if msgsize == 0 { MAX_MSG_SZ } else { msgsize },
                mode,
                refs: 1,
                waiters_r: VecDeque::new(),
                waiters_w: VecDeque::new(),
            };
            t.queues.insert_new(name, q);
            0
        },
    }
}

/// Drops one reference; unknown names are ignored. Always 0.
pub fn mq_close(t: &mut MqTable, name: &str) -> (r: i32)
    requires
        old(t).wf(),
    ensures
        final(t).wf(),
        r == 0,
        final(t).queues@.dom() == old(t).queues@.dom(),
        forall|k: Seq<char>| #[trigger] old(t).queues@.contains_key(k) && k != name@
            ==> final(t).queues@[k] == old(t).queues@[k],
        old(t).queues@.contains_key(name@) ==> {
            let o = old(t).queues@[name@];
            let n = final(t).queues@[name@];
            &&& n.refs == if o.refs > 0 { (o.refs - 1) as u32 } else { 0 }
            &&& n.msgs@ == o.msgs@
        },
{
    match t.queues.find(name) {
        Some(i) => {
            let q = t.queues.get_mut(i);
            if q.refs > 0 {
                q.refs = q.refs - 1;
            }
            proof {
                NameTable::lemma_view_update(&old(t).queues, &t.queues, i as int);
            }
        },
        None => {},
    }
    0
}

/// Removes the name; 0, or -2 when it was unknown.
pub fn mq_unlink(t: &mut MqTable, name: &str) -> (r: i32)
    requires
        old(t).wf(),
    ensures
        final(t).wf(),
        final(t).queues@ == old(t).queues@.remove(name@),
        r == if old(t).queues@.contains_key(name@) { 0i32 } else { -2i32 },
{
    match t.queues.find(name) {
        Some(i) => {
            let _ = t.queues.remove_at(i);
            0
        },
        None => {
            proof {
                assert(old(t).queues@.remove(name@) =~= old(t).queues@);
            }
            -2
        },
    }
}

/// The first `n` bytes of `data`, copied.
fn copy_prefix(data: &[u8], n: usize) -> (r: Vec<u8>)
    requires
        n <= data@.len(),
    ensures
        r@ == data@.subrange(0, n as int),
{
    let mut v: Vec<u8> = Vec::with_capacity(n);
    let mut i: usize = 0;
    while i < n
        invariant
            i <= n,
            n <= data@.len(),
            v@ == data@.subrange(0, i as int),
        decreases n - i,
    {
        v.push(data[i]);
        i = i + 1;
        proof {
            assert(v@ =~= data@.subrange(0, i as int));
        }
    }
    v
}

/// One attempt of `mq_send` by process `pid`. With room in the queue the
/// message (cut to the queue's message size) is appended and the first
/// waiting reader is handed back to be woken; with a full queue `pid` is
/// queued as a waiting writer.
pub fn mq_send(t: &mut MqTable, name: &str, data: &[u8], prio: u32, pid: Pid) -> (r: MqStep)
    requires
        old(t).wf(),
    ensures
        final(t).wf(),
        final(t).queues@.dom() == old(t).queues@.dom(),
        forall|k: Seq<char>| #[trigger] old(t).queues@.contains_key(k) && k != name@
            ==> final(t).queues@[k] == old(t).queues@[k],
        !old(t).queues@.contains_key(name@) ==> r == MqStep::Done(-2i32, None),
        old(t).queues@.contains_key(name@) ==> {
            let o = old(t).queues@[name@];
            let q = final(t).queues@[name@];
            let n = if data@.len() < o.msgsize { data@.len() as int } else { o.msgsize as int };
            &&& q.maxmsg == o.maxmsg && q.msgsize == o.msgsize && q.refs == o.refs
            &&& o.msgs@.len() < o.maxmsg ==> {
                &&& q.msgs@.len() == o.msgs@.len() + 1
                &&& q.msgs@.subrange(0, o.msgs@.len() as int) == o.msgs@
                &&& q.msgs@.last().prio == prio
                &&& q.msgs@.last().data@ == data@.subrange(0, n)
                &&& q.waiters_w@ == o.waiters_w@
                &&& o.waiters_r@.len() == 0 ==> r == MqStep::Done(0i32, None) && q.waiters_r@ == o.waiters_r@
                &&& o.waiters_r@.len() > 0 ==> r == MqStep::Done(0i32, Some(o.waiters_r@[0]))
                    && q.waiters_r@ == o.waiters_r@.drop_first()
            }
            &&& o.msgs@.len() >= o.maxmsg ==> r == MqStep::Block && q.msgs@ == o.msgs@
                && q.waiters_w@ == o.waiters_w@.push(pid) && q.waiters_r@ == o.waiters_r@
        },
{
    match t.queues.find(name) {
        Some(i) => {
            let q = t.queues.get_mut(i);
            let r = if q.msgs.len() < q.maxmsg {
                let n = if data.len() < q.msgsize { data.len() } else { q.msgsize };
                let body = copy_prefix(data, n);
                q.msgs.push_back(Message { prio, data: body });
                let w = q.waiters_r.pop_front();
                MqStep::Done(0, w)
            } else {
                q.waiters_w.push_back(pid);
                MqStep::Block
            };
            proof {
                NameTable::lemma_view_update(&old(t).queues, &t.queues, i as int);
            }
            r
        },
        None => MqStep::Done(-2, None),
    }
}

/// Copies the first `n` bytes of `src` into `dst`.
fn copy_into(dst: &mut [u8], src: &[u8], n: usize)
    requires
        n <= old(dst)@.len(),
        n <= src@.len(),
    ensures
        final(dst)@.len() == old(dst)@.len(),
        final(dst)@.subrange(0, n as int) == src@.subrange(0, n as int),
        final(dst)@.subrange(n as int, final(dst)@.len() as int) == old(dst)@.subrange(n as int, old(dst)@.len() as int),
{
    let mut i: usize = 0;
    while i < n
        invariant
            i <= n,
            n <= dst@.len(),
            n <= src@.len(),
            dst@.len() == old(dst)@.len(),
            forall|k: int| 0 <= k < i ==> dst@[k] == src@[k],
            forall|k: int| i <= k < dst@.len() ==> dst@[k] == old(dst)@[k],
        decreases n - i,
    {
        dst[i] = src[i];
        i = i + 1;
    }
    assert(dst@.subrange(0, n as int) =~= src@.subrange(0, n as int));
    assert(dst@.subrange(n as int, dst@.len() as int) =~= old(dst)@.subrange(n as int, old(dst)@.len() as int));
}

/// Whether message `i` is the one to deliver next: the oldest of the
/// highest priority.
pub open spec fn is_next(ms: Seq<Message>, i: int) -> bool {
    &&& 0 <= i < ms.len()
    &&& forall|j: int| 0 <= j < ms.len() ==> #[trigger] ms[j].prio <= ms[i].prio
    &&& forall|j: int| 0 <= j < i ==> #[trigger] ms[j].prio < ms[i].prio
}

/// One attempt of `mq_receive` by process `pid`. Takes the oldest message
/// of the highest priority, copies as much as fits into `buf` and returns that count together with
/// the first waiting writer; an empty queue queues `pid` as a reader.
pub fn mq_receive(t: &mut MqTable, name: &str, buf: &mut [u8], pid: Pid) -> (r: MqStep)
    requires
        old(t).wf(),
    ensures
        final(t).wf(),
        final(t).queues@.dom() == old(t).queues@.dom(),
        forall|k: Seq<char>| #[trigger] old(t).queues@.contains_key(k) && k != name@
            ==> final(t).queues@[k] == old(t).queues@[k],
        !old(t).queues@.contains_key(name@) ==> r == MqStep::Done(-2i32, None) && final(buf)@ == old(buf)@,
        old(t).queues@.contains_key(name@) ==> {
            let o = old(t).queues@[name@];
            let q = final(t).queues@[name@];
            &&& q.maxmsg == o.maxmsg && q.msgsize == o.msgsize && q.refs == o.refs
            &&& o.msgs@.len() > 0 ==> exists|k: int| #[trigger] is_next(o.msgs@, k) && {
                let m = o.msgs@[k];
                let n = if m.data@.len() < old(buf)@.len() { m.data@.len() as int } else { old(buf)@.len() as int };
                &&& q.msgs@ == o.msgs@.remove(k)
                &&& final(buf)@.len() == old(buf)@.len()
                &&& final(buf)@.subrange(0, n) == m.data@.subrange(0, n)
                &&& q.waiters_r@ == o.waiters_r@
                &&& o.waiters_w@.len() == 0 ==> r == MqStep::Done(n as i32, None) && q.waiters_w@ == o.waiters_w@
                &&& o.waiters_w@.len() > 0 ==> r == MqStep::Done(n as i32, Some(o.waiters_w@[0]))
                    && q.waiters_w@ == o.waiters_w@.drop_first()
            }
            &&& o.msgs@.len() == 0 ==> r == MqStep::Block && q.msgs@ == o.msgs@
                && q.waiters_r@ == o.waiters_r@.push(pid) && q.waiters_w@ == o.waiters_w@
                && final(buf)@ == old(buf)@
        },
{
    match t.queues.find(name) {
        Some(i) => {
            let q = t.queues.get_mut(i);
            let len = q.msgs.len();
            let mut best: usize = 0;
            let mut j: usize = 1;
            while j < len
                invariant
                    len == q.msgs@.len(),
                    1 <= j <= len || len == 0,
                    best < j,
                    forall|t: int| 0 <= t < j && t < len ==> #[trigger] q.msgs@[t].prio <= q.msgs@[best as int].prio,
                    forall|t: int| 0 <= t < best ==> #[trigger] q.msgs@[t].prio < q.msgs@[best as int].prio,
                decreases len - j,
            {
                if q.msgs[j].prio > q.msgs[best].prio {
                    best = j;
                }
                j = j + 1;
            }
            let ghost ms = q.msgs@;
            let taken = if len > 0 { q.msgs.remove(best) } else { None };
            proof {
                if len > 0 {
                    assert(is_next(ms, best as int));
                }
            }
            let r = match taken {
                Some(msg) => {
                    let n = if msg.data.len() < buf.len() { msg.data.len() } else { buf.len() };
                    copy_into(buf, msg.data.as_slice(), n);
                    let w = q.waiters_w.pop_front();
                    MqStep::Done(#[verifier::truncate] (n as i32), w)
                },
                None => {
                    q.waiters_r.push_back(pid);
                    MqStep::Block
                },
            };
            proof {
                NameTable::lemma_view_update(&old(t).queues, &t.queues, i as int);
            }
            r
        },
        None => MqStep::Done(-2, None),
    }
}

} // verus!
