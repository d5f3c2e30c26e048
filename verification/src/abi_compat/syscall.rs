//! The futex table behind `futex(2)`: waiters as (address, pid) pairs in
//! arrival order, and the wait, wake, requeue and wake-op operations on
//! it. Reading and writing the futex words and parking or waking threads
//! are the caller's part; each operation says what to do.
use vstd::prelude::*;

verus! {

pub type Pid = u32;

pub const FUTEX_WAIT: i32 = 0;
pub const FUTEX_WAKE: i32 = 1;
pub const FUTEX_FD: i32 = 2;
pub const FUTEX_REQUEUE: i32 = 3;
pub const FUTEX_CMP_REQUEUE: i32 = 4;
pub const FUTEX_WAKE_OP: i32 = 5;
pub const FUTEX_PRIVATE: i32 = 128;
pub const FUTEX_CLOCK_RT: i32 = 256;
pub const USER_LIMIT: u64 = 0x0000_8000_0000_0000;
pub const EFAULT: i64 = -14;
pub const EAGAIN: i64 = -11;
pub const EINVAL: i64 = -22;
pub const ENOSYS: i64 = -38;
pub const ETIMEDOUT: i64 = -110;

pub struct FutexTable {
    pub waiters: Vec<(u64, Pid)>,
}

/// Waking up to `n` waiters on `uaddr`, oldest first: the waiters left
/// (in order) and the pids woken (in order).
pub open spec fn wake_split(t: Seq<(u64, Pid)>, uaddr: u64, n: int) -> (Seq<(u64, Pid)>, Seq<Pid>)
    decreases t.len(),
{
    if t.len() == 0 {
        (Seq::empty(), Seq::empty())
    } else {
        let (k, w) = wake_split(t.drop_last(), uaddr, n);
        let e = t.last();
        if e.0 == uaddr && w.len() < n { (k, w.push(e.1)) } else { (k.push(e), w) }
    }
}

/// Requeueing: of the waiters on `uaddr`, the first `n` are woken and the
/// rest moved to `uaddr2`; then every waiter whose address is the
/// all-ones sentinel is dropped. The waiters left and the pids woken.
pub open spec fn requeue_split(t: Seq<(u64, Pid)>, uaddr: u64, uaddr2: u64, n: int) -> (Seq<(u64, Pid)>, Seq<Pid>)
    decreases t.len(),
{
    if t.len() == 0 {
        (Seq::empty(), Seq::empty())
    } else {
        let (k, w) = requeue_split(t.drop_last(), uaddr, uaddr2, n);
        let e = t.last();
        if e.0 == uaddr && w.len() < n {
            (k, w.push(e.1))
        } else {
            let e2 = if e.0 == uaddr { (uaddr2, e.1) } else { e };
            if e2.0 == u64::MAX { (k, w) } else { (k.push(e2), w) }
        }
    }
}

impl FutexTable {
    pub fn new() -> (r: FutexTable)
        ensures
            r.waiters@.len() == 0,
    {
        FutexTable { waiters: Vec::new() }
    }
}

/// Wakes up to `n` waiters on `uaddr`, oldest first; the pids to wake.
pub fn futex_wake(t: &mut FutexTable, uaddr: u64, n: usize) -> (r: Vec<Pid>)
    ensures
        (final(t).waiters@, r@) == wake_split(old(t).waiters@, uaddr, n as int),
{
    let ghost old_w = t.waiters@;
    let mut kept: Vec<(u64, Pid)> = Vec::new();
    let mut woken: Vec<Pid> = Vec::new();
    let mut i: usize = 0;
    while i < t.waiters.len()
        invariant
            i <= t.waiters@.len(),
            t.waiters@ == old_w,
            (kept@, woken@) == wake_split(old_w.take(i as int), uaddr, n as int),
        decreases t.waiters@.len() - i,
    {
        let e = t.waiters[i];
        proof {
            assert(old_w.take(i + 1).drop_last() =~= old_w.take(i as int));
        }
        if e.0 == uaddr && woken.len() < n {
            woken.push(e.1);
        } else {
            kept.push(e);
        }
        i = i + 1;
    }
    assert(old_w.take(old_w.len() as int) =~= old_w);
    t.waiters = kept;
    woken
}

/// Wakes up to `n` waiters on `uaddr` and requeues the others to `uaddr2`.
pub fn futex_requeue(t: &mut FutexTable, uaddr: u64, uaddr2: u64, n: usize) -> (r: Vec<Pid>)
    ensures
        (final(t).waiters@, r@) == requeue_split(old(t).waiters@, uaddr, uaddr2, n as int),
{
    let ghost old_w = t.waiters@;
    let mut kept: Vec<(u64, Pid)> = Vec::new();
    let mut woken: Vec<Pid> = Vec::new();
    let mut i: usize = 0;
    while i < t.waiters.len()
        invariant
            i <= t.waiters@.len(),
            t.waiters@ == old_w,
            (kept@, woken@) == requeue_split(old_w.take(i as int), uaddr, uaddr2, n as int),
        decreases t.waiters@.len() - i,
    {
        let e = t.waiters[i];
        proof {
            assert(old_w.take(i + 1).drop_last() =~= old_w.take(i as int));
        }
        if e.0 == uaddr && woken.len() < n {
            woken.push(e.1);
        } else {
            let e2 = if e.0 == uaddr { (uaddr2, e.1) } else { e };
            if e2.0 != u64::MAX {
                kept.push(e2);
            }
        }
        i = i + 1;
    }
    assert(old_w.take(old_w.len() as int) =~= old_w);
    t.waiters = kept;
    woken
}

/// Drops every waiter of `pid` (its exit).
pub fn futex_cleanup(t: &mut FutexTable, pid: Pid)
    ensures
        final(t).waiters@ == old(t).waiters@.filter(|e: (u64, Pid)| e.1 != pid),
{
    let ghost old_w = t.waiters@;
    let ghost f = |e: (u64, Pid)| e.1 != pid;
    let mut kept: Vec<(u64, Pid)> = Vec::new();
    let mut i: usize = 0;
    while i < t.waiters.len()
        invariant
            i <= t.waiters@.len(),
            t.waiters@ == old_w,
            f == |e: (u64, Pid)| e.1 != pid,
            kept@ == old_w.take(i as int).filter(f),
        decreases t.waiters@.len() - i,
    {
        let e = t.waiters[i];
        proof {
            reveal(Seq::filter);
            assert(old_w.take(i + 1).drop_last() =~= old_w.take(i as int));
        }
        if e.1 != pid {
            kept.push(e);
        }
        i = i + 1;
    }
    assert(old_w.take(old_w.len() as int) =~= old_w);
    t.waiters = kept;
}

/// Drops the waits of `pid` on `uaddr`; whether it still had one (after
/// a timed wait, that means it timed out rather than being woken).
pub fn futex_unwait(t: &mut FutexTable, uaddr: u64, pid: Pid) -> (r: bool)
    ensures
        r == exists|i: int| 0 <= i < old(t).waiters@.len() && #[trigger] old(t).waiters@[i] == (uaddr, pid),
        final(t).waiters@ == old(t).waiters@.filter(|e: (u64, Pid)| !(e.0 == uaddr && e.1 == pid)),
{
    let ghost old_w = t.waiters@;
    let ghost f = |e: (u64, Pid)| !(e.0 == uaddr && e.1 == pid);
    let mut kept: Vec<(u64, Pid)> = Vec::new();
    let mut found = false;
    let mut i: usize = 0;
    while i < t.waiters.len()
        invariant
            i <= t.waiters@.len(),
            t.waiters@ == old_w,
            f == |e: (u64, Pid)| !(e.0 == uaddr && e.1 == pid),
            kept@ == old_w.take(i as int).filter(f),
            found == exists|k: int| 0 <= k < i && #[trigger] old_w[k] == (uaddr, pid),
        decreases t.waiters@.len() - i,
    {
        let e = t.waiters[i];
        proof {
            reveal(Seq::filter);
            assert(old_w.take(i + 1).drop_last() =~= old_w.take(i as int));
        }
        if e.0 == uaddr && e.1 == pid {
            found = true;
        } else {
            kept.push(e);
        }
        i = i + 1;
    }
    assert(old_w.take(old_w.len() as int) =~= old_w);
    t.waiters = kept;
    found
}

/// A 12-bit field read as a signed number.
pub open spec fn sext12(x: u32) -> int {
    if x >= 0x800 { x as int - 0x1000 } else { x as int }
}

/// The FUTEX_WAKE_OP operand as Linux encodes it: operation (low three
/// bits of the top nibble), whether the argument is a shift count (its top
/// bit), comparison, and the raw 12-bit argument and comparison argument.
pub open spec fn wake_op_fields(v: u32) -> (u32, bool, u32, u32, u32) {
    ((v / 0x1000_0000) % 8, v / 0x8000_0000 == 1, (v / 0x100_0000) % 16, (v / 0x1000) % 0x1000, v % 0x1000)
}

/// The operation's argument: the sign-extended field, or, as a shift
/// count (taken modulo 32), one shifted left by it.
pub open spec fn wake_op_arg(shift: bool, raw: u32) -> u32 {
    if shift { 1u32 << ((sext12(raw) % 32) as u32) } else { (sext12(raw) % 0x1_0000_0000) as u32 }
}

/// The new value of the word at `uaddr2`: set, add, or, and-not or xor
/// (`None` for any other operation).
pub open spec fn wake_op_value(old_val: u32, op: u32, arg: u32) -> Option<u32> {
    if op == 0 { Some(arg) }
    else if op == 1 { Some(old_val.wrapping_add(arg)) }
    else if op == 2 { Some(old_val | arg) }
    else if op == 3 { Some(old_val & !arg) }
    else if op == 4 { Some(old_val ^ arg) }
    else { None }
}

/// The comparison of the old value, as a signed number, with the
/// sign-extended argument: ==, !=, <, <=, >, >= (`None` for others).
pub open spec fn wake_op_holds(old_val: u32, rel: u32, relarg: int) -> Option<bool> {
    let o = old_val as i32 as int;
    if rel == 0 { Some(o == relarg) }
    else if rel == 1 { Some(o != relarg) }
    else if rel == 2 { Some(o < relarg) }
    else if rel == 3 { Some(o <= relarg) }
    else if rel == 4 { Some(o > relarg) }
    else if rel == 5 { Some(o >= relarg) }
    else { None }
}

/// What one futex call asks of the caller.
pub struct FutexOutcome {
    /// The value to return, unless the thread parks.
    pub ret: i64,
    /// Threads to wake, in order.
    pub wake: Vec<Pid>,
    /// Park the calling thread, with a deadline (in ticks) or none.
    pub block: Option<Option<u64>>,
    /// The new value of the word at `uaddr2` (FUTEX_WAKE_OP).
    pub store2: Option<u32>,
}

fn decode_wake_op(v: u32) -> (r: (u32, bool, u32, u32, u32))
    ensures
        r == wake_op_fields(v),
{
    ((v / 0x1000_0000) % 8, v / 0x8000_0000 == 1, (v / 0x100_0000) % 16, (v / 0x1000) % 0x1000, v % 0x1000)
}

fn wake_op_argument(shift: bool, raw: u32) -> (r: u32)
    requires
        raw < 0x1000,
    ensures
        r == wake_op_arg(shift, raw),
{
    let sx: i32 = if raw >= 0x800 { raw as i32 - 0x1000 } else { raw as i32 };
    if shift {
        let amt: u32 = if sx >= 0 { (sx % 32) as u32 } else { ((sx % 32 + 32) % 32) as u32 };
        assert(amt == sext12(raw) % 32);
        1u32 << amt
    } else {
        let v: u32 = if sx >= 0 { sx as u32 } else { (sx as i64 + 0x1_0000_0000i64) as u32 };
        v
    }
}

fn apply_wake_op(old_val: u32, op: u32, arg: u32) -> (r: Option<u32>)
    ensures
        r == wake_op_value(old_val, op, arg),
{
    if op == 0 { Some(arg) }
    else if op == 1 { Some(old_val.wrapping_add(arg)) }
    else if op == 2 { Some(old_val | arg) }
    else if op == 3 { Some(old_val & !arg) }
    else if op == 4 { Some(old_val ^ arg) }
    else { None }
}

fn test_wake_op(old_val: u32, rel: u32, raw: u32) -> (r: Option<bool>)
    requires
        raw < 0x1000,
    ensures
        r == wake_op_holds(old_val, rel, sext12(raw)),
{
    let o: i32 = old_val as i32;
    let a: i32 = if raw >= 0x800 { raw as i32 - 0x1000 } else { raw as i32 };
    if rel == 0 { Some(o == a) }
    else if rel == 1 { Some(o != a) }
    else if rel == 2 { Some(o < a) }
    else if rel == 3 { Some(o <= a) }
    else if rel == 4 { Some(o > a) }
    else if rel == 5 { Some(o >= a) }
    else { None }
}

/// The operation with the private and clock flags cleared.
pub open spec fn futex_cmd(op: i32) -> i32 {
    op & !(FUTEX_PRIVATE | FUTEX_CLOCK_RT)
}

/// The deadline of a timed wait: `now` plus the timespec in
/// milliseconds, negative fields counting as zero.
pub open spec fn wait_deadline(now: u64, sec: i64, nsec: i64) -> int {
    now + (if sec < 0 { 0 } else { sec as int }) * 1000 + (if nsec < 0 { 0 } else { nsec as int }) / 1_000_000
}

/// `futex(2)` for the calling thread `pid`. `word` is the current value at
/// `uaddr`, `word2` the one at `uaddr2`; `ts` the timeout (seconds and
/// nanoseconds) when `timeout` is non-null; `now` the tick count.
///
/// WAIT registers the caller and parks it (with its deadline) when the
/// word still holds `val`, else undoes that and returns EAGAIN; WAKE wakes
/// up to `val` waiters; REQUEUE and CMP_REQUEUE (which first compares the
/// word with `val3`) wake up to `val` and move the rest to `uaddr2`;
/// WAKE_OP (as Linux has it) applies the operation encoded in `val3` to
/// the word at `uaddr2` (the new value is `store2`), wakes up to `val`
/// waiters on `uaddr`, and, when the comparison of the old word holds, up
/// to `val2` (the low 32 bits of `timeout`) on `uaddr2`, returning how many
/// it woke; an unknown operation or comparison is ENOSYS. A null or kernel
/// address is EFAULT, any other operation EINVAL.
#[verifier::rlimit(40)]
pub fn sys_futex(t: &mut FutexTable, pid: Pid, uaddr: u64, op: i32, val: u32, timeout: u64, ts: (i64, i64),
    now: u64, uaddr2: u64, val3: u32, word: u32, word2: u32) -> (r: FutexOutcome)
    requires
        futex_cmd(op) == FUTEX_WAIT && timeout != 0 ==> wait_deadline(now, ts.0, ts.1) <= u64::MAX,
    ensures
        uaddr == 0 ==> r.ret == EFAULT && r.wake@.len() == 0 && r.block is None && final(t).waiters@ == old(t).waiters@,
        uaddr != 0 && futex_cmd(op) == FUTEX_WAIT ==> r.wake@.len() == 0 && r.store2 is None && {
            if uaddr >= USER_LIMIT || (timeout != 0 && timeout >= USER_LIMIT) {
                r.ret == EFAULT && r.block is None && final(t).waiters@ == old(t).waiters@
            } else if word != val {
                r.ret == EAGAIN && r.block is None
                    && final(t).waiters@ == old(t).waiters@.push((uaddr, pid)).filter(|e: (u64, Pid)| !(e.0 == uaddr && e.1 == pid))
            } else {
                &&& final(t).waiters@ == old(t).waiters@.push((uaddr, pid))
                &&& r.block == if timeout != 0 { Some(Some(wait_deadline(now, ts.0, ts.1) as u64)) } else { Some(None) }
            }
        },
        uaddr != 0 && futex_cmd(op) == FUTEX_WAKE ==> r.block is None && r.store2 is None
            && (final(t).waiters@, r.wake@) == wake_split(old(t).waiters@, uaddr, val as int)
            && r.ret == r.wake@.len() as i64,
        uaddr != 0 && (futex_cmd(op) == FUTEX_REQUEUE || futex_cmd(op) == FUTEX_CMP_REQUEUE) ==> r.block is None && r.store2 is None && {
            if futex_cmd(op) == FUTEX_CMP_REQUEUE && uaddr >= USER_LIMIT {
                r.ret == EFAULT && r.wake@.len() == 0 && final(t).waiters@ == old(t).waiters@
            } else if futex_cmd(op) == FUTEX_CMP_REQUEUE && word != val3 {
                r.ret == EAGAIN && r.wake@.len() == 0 && final(t).waiters@ == old(t).waiters@
            } else {
                (final(t).waiters@, r.wake@) == requeue_split(old(t).waiters@, uaddr, uaddr2, val as int)
                    && r.ret == r.wake@.len() as i64
            }
        },
        uaddr != 0 && futex_cmd(op) == FUTEX_WAKE_OP ==> r.block is None && ({
            let (opk, shift, rel, oraw, craw) = wake_op_fields(val3);
            let val2 = timeout as u32;
            if !(uaddr2 != 0 && uaddr2 < USER_LIMIT) {
                r.ret == EFAULT && r.store2 is None && r.wake@.len() == 0 && final(t).waiters@ == old(t).waiters@
            } else {
                match wake_op_value(word2, opk, wake_op_arg(shift, oraw)) {
                    None => r.ret == ENOSYS && r.store2 is None && r.wake@.len() == 0
                        && final(t).waiters@ == old(t).waiters@,
                    Some(nv) => r.store2 == Some(nv) && match wake_op_holds(word2, rel, sext12(craw)) {
                        None => r.ret == ENOSYS && r.wake@.len() == 0 && final(t).waiters@ == old(t).waiters@,
                        Some(h) => {
                            let first = wake_split(old(t).waiters@, uaddr, val as int);
                            let second = if h { wake_split(first.0, uaddr2, val2 as int) } else { (first.0, Seq::<Pid>::empty()) };
                            &&& final(t).waiters@ == second.0
                            &&& r.wake@ == first.1 + second.1
                            &&& r.ret == r.wake@.len() as i64
                        },
                    },
                }
            }
        }),
        uaddr != 0 && futex_cmd(op) != FUTEX_WAIT && futex_cmd(op) != FUTEX_WAKE && futex_cmd(op) != FUTEX_REQUEUE
            && futex_cmd(op) != FUTEX_CMP_REQUEUE && futex_cmd(op) != FUTEX_WAKE_OP ==> r.ret == EINVAL
            && r.wake@.len() == 0 && r.block is None && final(t).waiters@ == old(t).waiters@,
{
    let cmd = op & !(FUTEX_PRIVATE | FUTEX_CLOCK_RT);
    let none = FutexOutcome { ret: 0, wake: Vec::new(), block: None, store2: None };
    if uaddr == 0 {
        return FutexOutcome { ret: EFAULT, ..none };
    }
    if cmd == FUTEX_WAIT {
        if uaddr >= USER_LIMIT {
            return FutexOutcome { ret: EFAULT, ..none };
        }
        assert(cmd == futex_cmd(op));
        let deadline: Option<u64> = if timeout != 0 {
            if timeout >= USER_LIMIT {
                return FutexOutcome { ret: EFAULT, ..none };
            }
            let s: u64 = if ts.0 < 0 { 0 } else { ts.0 as u64 };
            let ns: u64 = if ts.1 < 0 { 0 } else { ts.1 as u64 };
            Some(now + s * 1000 + ns / 1_000_000)
        } else {
            None
        };
        t.waiters.push((uaddr, pid));
        if word != val {
            futex_unwait(t, uaddr, pid);
            return FutexOutcome { ret: EAGAIN, ..none };
        }
        return FutexOutcome { ret: 0, wake: Vec::new(), block: Some(deadline), store2: None };
    }
    if cmd == FUTEX_WAKE {
        let w = futex_wake(t, uaddr, val as usize);
        let n = #[verifier::truncate] (w.len() as i64);
        return FutexOutcome { ret: n, wake: w, block: None, store2: None };
    }
    if cmd == FUTEX_REQUEUE || cmd == FUTEX_CMP_REQUEUE {
        if cmd == FUTEX_CMP_REQUEUE {
            if uaddr >= USER_LIMIT {
                return FutexOutcome { ret: EFAULT, ..none };
            }
            if word != val3 {
                return FutexOutcome { ret: EAGAIN, ..none };
            }
        }
        let w = futex_requeue(t, uaddr, uaddr2, val as usize);
        let n = #[verifier::truncate] (w.len() as i64);
        return FutexOutcome { ret: n, wake: w, block: None, store2: None };
    }
    if cmd == FUTEX_WAKE_OP {
        if !(uaddr2 != 0 && uaddr2 < USER_LIMIT) {
            return FutexOutcome { ret: EFAULT, ..none };
        }
        let (opk, shift, rel, oraw, craw) = decode_wake_op(val3);
        let arg = wake_op_argument(shift, oraw);
        let new_val = match apply_wake_op(word2, opk, arg) {
            Some(v) => v,
            None => return FutexOutcome { ret: ENOSYS, ..none },
        };
        let holds = match test_wake_op(word2, rel, craw) {
            Some(h) => h,
            None => return FutexOutcome { ret: ENOSYS, wake: Vec::new(), block: None, store2: Some(new_val) },
        };
        #[verifier::truncate]
        let val2 = timeout as u32;
        let mut woken = futex_wake(t, uaddr, val as usize);
        if holds {
            let mut more = futex_wake(t, uaddr2, val2 as usize);
            woken.append(&mut more);
        }
        let n = #[verifier::truncate] (woken.len() as i64);
        return FutexOutcome { ret: n, wake: woken, block: None, store2: Some(new_val) };
    }
    FutexOutcome { ret: EINVAL, ..none }
}


/// Waking never loses or invents a waiter: every waiter is either still
/// waiting or woken, at most `n` are woken, all of them from `uaddr`, and
/// no waiter on another address is woken.
pub proof fn law_wake_partition(t: Seq<(u64, Pid)>, uaddr: u64, n: int)
    requires
        n >= 0,
    ensures
        wake_split(t, uaddr, n).0.len() + wake_split(t, uaddr, n).1.len() == t.len(),
        wake_split(t, uaddr, n).1.len() <= n,
        forall|i: int| #![trigger wake_split(t, uaddr, n).1[i]] 0 <= i < wake_split(t, uaddr, n).1.len()
            ==> exists|j: int| 0 <= j < t.len() && #[trigger] t[j] == (uaddr, wake_split(t, uaddr, n).1[i]),
        forall|i: int| #![trigger wake_split(t, uaddr, n).0[i]] 0 <= i < wake_split(t, uaddr, n).0.len()
            ==> exists|j: int| 0 <= j < t.len() && #[trigger] t[j] == wake_split(t, uaddr, n).0[i],
    decreases t.len(),
{
    if t.len() > 0 {
        let p = t.drop_last();
        law_wake_partition(p, uaddr, n);
        let (k, w) = wake_split(p, uaddr, n);
        assert forall|i: int| #![trigger wake_split(t, uaddr, n).1[i]] 0 <= i < wake_split(t, uaddr, n).1.len()
            implies exists|j: int| 0 <= j < t.len() && #[trigger] t[j] == (uaddr, wake_split(t, uaddr, n).1[i]) by {
            if i < w.len() {
                assert(w[i] == wake_split(p, uaddr, n).1[i]);
                let j = choose|j: int| 0 <= j < p.len() && #[trigger] p[j] == (uaddr, wake_split(p, uaddr, n).1[i]);
                assert(t[j] == p[j]);
            } else {
                assert(t[t.len() - 1] == (uaddr, wake_split(t, uaddr, n).1[i]));
            }
        }
        assert forall|i: int| #![trigger wake_split(t, uaddr, n).0[i]] 0 <= i < wake_split(t, uaddr, n).0.len()
            implies exists|j: int| 0 <= j < t.len() && #[trigger] t[j] == wake_split(t, uaddr, n).0[i] by {
            if i < k.len() {
                assert(k[i] == wake_split(p, uaddr, n).0[i]);
                let j = choose|j: int| 0 <= j < p.len() && #[trigger] p[j] == wake_split(p, uaddr, n).0[i];
                assert(t[j] == p[j]);
            } else {
                assert(t[t.len() - 1] == wake_split(t, uaddr, n).0[i]);
            }
        }
    }
}
} // verus!
