//! POSIX named semaphores.
use vstd::prelude::*;
use std::collections::VecDeque;
use crate::table::NameTable;
use crate::ipc::Pid;

verus! {

pub const O_CREAT: i32 = 0o100;
pub const O_EXCL: i32 = 0o200;

pub struct Semaphore {
    pub name: String,
    pub value: i32,
    pub waiters: VecDeque<Pid>,
    pub mode: u32,
    pub refs: u32,
}

/// All named semaphores of the system.
pub struct SemTable {
    pub sems: NameTable<Semaphore>,
}

/// What a `sem_wait` attempt came to.
pub enum SemWait {
    /// The call is finished with this return value (0, or -2 for no such
    /// semaphore).
    Done(i32),
    /// The caller was queued as a waiter and must sleep, then try again.
    Block,
}

impl SemTable {
    pub open spec fn wf(&self) -> bool {
        self.sems.wf()
    }

    pub fn new() -> (r: SemTable)
        ensures
            r.wf(),
            r.sems@ == Map::<Seq<char>, Semaphore>::empty(),
    {
        SemTable { sems: NameTable::new() }
    }
}

/// Opens (and with `O_CREAT` creates) the semaphore `name`.
///
/// Returns 0, -17 (EEXIST) for `O_CREAT|O_EXCL` on an existing name, or -2
/// (ENOENT) when the name is unknown and `O_CREAT` is absent.
pub fn sem_open(t: &mut SemTable, name: &str, oflag: i32, mode: u32, value: u32) -> (r: i32)
    requires
        old(t).wf(),
        old(t).sems@.contains_key(name@) ==> old(t).sems@[name@].refs < u32::MAX,
    ensures
        final(t).wf(),
        old(t).sems@.contains_key(name@) && oflag & O_CREAT != 0 && oflag & O_EXCL != 0 ==> r == -17
            && final(t).sems@ == old(t).sems@,
        old(t).sems@.contains_key(name@) && !(oflag & O_CREAT != 0 && oflag & O_EXCL != 0) ==> r == 0
            && final(t).sems@.dom() == old(t).sems@.dom()
            && final(t).sems@[name@].refs == old(t).sems@[name@].refs + 1
            && final(t).sems@[name@].value == old(t).sems@[name@].value
            && final(t).sems@[name@].waiters@ == old(t).sems@[name@].waiters@
            && forall|k: Seq<char>| #[trigger] old(t).sems@.contains_key(k) && k != name@
                ==> final(t).sems@[k] == old(t).sems@[k],
        !old(t).sems@.contains_key(name@) && oflag & O_CREAT == 0 ==> r == -2
            && final(t).sems@ == old(t).sems@,
        !old(t).sems@.contains_key(name@) && oflag & O_CREAT != 0 ==> r == 0
            && final(t).sems@.dom() == old(t).sems@.dom().insert(name@)
            && final(t).sems@[name@].value == value as i32
            && final(t).sems@[name@].refs == 1
            && final(t).sems@[name@].mode == mode
            && final(t).sems@[name@].name@ == name@
            && final(t).sems@[name@].waiters@.len() == 0
            && forall|k: Seq<char>| #[trigger] old(t).sems@.contains_key(k)
                ==> final(t).sems@[k] == old(t).sems@[k],
{
    let create = oflag & O_CREAT != 0;
    let excl = oflag & O_EXCL != 0;
    match t.sems.find(name) {
        Some(i) => {
            if create && excl {
                return -17;
            }
            let s = t.sems.get_mut(i);
            s.refs = s.refs + 1;
            proof {
                NameTable::lemma_view_update(&old(t).sems, &t.sems, i as int);
            }
            0
        },
        None => {
            if !create {
                return -2;
            }
            let sem = Semaphore {
                name: name.to_owned(),
                value: value as i32,
                waiters: VecDeque::new(),
                mode,
                refs: 1,
            };
            t.sems.insert_new(name, sem);
            0
        },
    }
}

/// Drops one reference to `name`; unknown names are ignored. Always 0.
pub fn sem_close(t: &mut SemTable, name: &str) -> (r: i32)
    requires
        old(t).wf(),
    ensures
        final(t).wf(),
        r == 0,
        final(t).sems@.dom() == old(t).sems@.dom(),
        forall|k: Seq<char>| #[trigger] old(t).sems@.contains_key(k) && k != name@
            ==> final(t).sems@[k] == old(t).sems@[k],
        old(t).sems@.contains_key(name@) ==> {
            let o = old(t).sems@[name@];
            let n = final(t).sems@[name@];
            &&& n.refs == if o.refs > 0 { (o.refs - 1) as u32 } else { 0 }
            &&& n.value == o.value
            &&& n.waiters@ == o.waiters@
        },
{
    match t.sems.find(name) {
        Some(i) => {
            let s = t.sems.get_mut(i);
            if s.refs > 0 {
                s.refs = s.refs - 1;
            }
            proof {
                NameTable::lemma_view_update(&old(t).sems, &t.sems, i as int);
            }
        },
        None => {},
    }
    0
}

/// Removes the name; 0, or -2 when it was unknown.
pub fn sem_unlink(t: &mut SemTable, name: &str) -> (r: i32)
    requires
        old(t).wf(),
    ensures
        final(t).wf(),
        final(t).sems@ == old(t).sems@.remove(name@),
        r == if old(t).sems@.contains_key(name@) { 0i32 } else { -2i32 },
{
    match t.sems.find(name) {
        Some(i) => {
            let _ = t.sems.remove_at(i);
            0
        },
        None => {
            proof {
                assert(old(t).sems@.remove(name@) =~= old(t).sems@);
            }
            -2
        },
    }
}

/// One attempt of `sem_wait` by process `pid`: takes a unit when the value
/// is positive, otherwise queues `pid` and asks the caller to sleep.
pub fn sem_wait(t: &mut SemTable, name: &str, pid: Pid) -> (r: SemWait)
    requires
        old(t).wf(),
    ensures
        final(t).wf(),
        final(t).sems@.dom() == old(t).sems@.dom(),
        forall|k: Seq<char>| #[trigger] old(t).sems@.contains_key(k) && k != name@
            ==> final(t).sems@[k] == old(t).sems@[k],
        !old(t).sems@.contains_key(name@) ==> r == SemWait::Done(-2i32),
        old(t).sems@.contains_key(name@) && old(t).sems@[name@].value > 0 ==> r == SemWait::Done(0i32)
            && final(t).sems@[name@].value == old(t).sems@[name@].value - 1
            && final(t).sems@[name@].waiters@ == old(t).sems@[name@].waiters@
            && final(t).sems@[name@].refs == old(t).sems@[name@].refs,
        old(t).sems@.contains_key(name@) && old(t).sems@[name@].value <= 0 ==> r == SemWait::Block
            && final(t).sems@[name@].value == old(t).sems@[name@].value
            && final(t).sems@[name@].waiters@ == old(t).sems@[name@].waiters@.push(pid)
            && final(t).sems@[name@].refs == old(t).sems@[name@].refs,
{
    match t.sems.find(name) {
        Some(i) => {
            let s = t.sems.get_mut(i);
            let r = if s.value > 0 {
                s.value = s.value - 1;
                SemWait::Done(0)
            } else {
                s.waiters.push_back(pid);
                SemWait::Block
            };
            proof {
                NameTable::lemma_view_update(&old(t).sems, &t.sems, i as int);
            }
            r
        },
        None => {
            proof {
                assert(t.sems@ =~= old(t).sems@);
            }
            SemWait::Done(-2)
        },
    }
}

/// Non-blocking wait: 0 when a unit was taken, -11 (EAGAIN) when the value
/// is not positive, -2 when the name is unknown.
pub fn sem_trywait(t: &mut SemTable, name: &str) -> (r: i32)
    requires
        old(t).wf(),
    ensures
        final(t).wf(),
        final(t).sems@.dom() == old(t).sems@.dom(),
        forall|k: Seq<char>| #[trigger] old(t).sems@.contains_key(k) && k != name@
            ==> final(t).sems@[k] == old(t).sems@[k],
        !old(t).sems@.contains_key(name@) ==> r == -2,
        old(t).sems@.contains_key(name@) && old(t).sems@[name@].value > 0 ==> r == 0
            && final(t).sems@[name@].value == old(t).sems@[name@].value - 1
            && final(t).sems@[name@].waiters@ == old(t).sems@[name@].waiters@
            && final(t).sems@[name@].refs == old(t).sems@[name@].refs,
        old(t).sems@.contains_key(name@) && old(t).sems@[name@].value <= 0 ==> r == -11
            && final(t).sems@ == old(t).sems@,
{
    match t.sems.find(name) {
        Some(i) => {
            if t.sems.get(i).value > 0 {
                let s = t.sems.get_mut(i);
                s.value = s.value - 1;
                proof {
                    NameTable::lemma_view_update(&old(t).sems, &t.sems, i as int);
                }
                0
            } else {
                -11
            }
        },
        None => -2,
    }
}

/// Releases a unit. Returns the result (0, or -2 for an unknown name) and
/// the first queued waiter, which the caller wakes.
pub fn sem_post(t: &mut SemTable, name: &str) -> (r: (i32, Option<Pid>))
    requires
        old(t).wf(),
        old(t).sems@.contains_key(name@) ==> old(t).sems@[name@].value < i32::MAX,
    ensures
        final(t).wf(),
        final(t).sems@.dom() == old(t).sems@.dom(),
        forall|k: Seq<char>| #[trigger] old(t).sems@.contains_key(k) && k != name@
            ==> final(t).sems@[k] == old(t).sems@[k],
        !old(t).sems@.contains_key(name@) ==> r == (-2i32, None::<Pid>) && final(t).sems@ == old(t).sems@,
        old(t).sems@.contains_key(name@) ==> {
            let o = old(t).sems@[name@];
            let n = final(t).sems@[name@];
            &&& r.0 == 0
            &&& n.value == o.value + 1
            &&& n.refs == o.refs
            &&& o.waiters@.len() == 0 ==> r.1 == None::<Pid> && n.waiters@ == o.waiters@
            &&& o.waiters@.len() > 0 ==> r.1 == Some(o.waiters@[0]) && n.waiters@ == o.waiters@.drop_first()
        },
{
    match t.sems.find(name) {
        Some(i) => {
            let s = t.sems.get_mut(i);
            s.value = s.value + 1;
            let w = s.waiters.pop_front();
            proof {
                NameTable::lemma_view_update(&old(t).sems, &t.sems, i as int);
            }
            (0, w)
        },
        None => (-2, None),
    }
}

/// The current value, or -2 when the name is unknown.
pub fn sem_getvalue(t: &SemTable, name: &str) -> (r: i32)
    requires
        t.wf(),
    ensures
        r == if t.sems@.contains_key(name@) { t.sems@[name@].value } else { -2i32 },
{
    match t.sems.find(name) {
        Some(i) => t.sems.get(i).value,
        None => -2,
    }
}

} // verus!
