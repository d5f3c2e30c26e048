//! epoll instances: the watch lists and which watched descriptors report
//! events.
use vstd::prelude::*;
use std::collections::{BTreeMap, BTreeSet};

verus! {

broadcast use vstd::std_specs::btree::group_btree_axioms;

pub const EPOLLIN: u32 = 0x001;
pub const EPOLLOUT: u32 = 0x004;
pub const EPOLLERR: u32 = 0x008;
pub const EPOLLHUP: u32 = 0x010;

pub const EPOLL_CTL_ADD: i32 = 1;
pub const EPOLL_CTL_DEL: i32 = 2;
pub const EPOLL_CTL_MOD: i32 = 3;

/// The first instance id handed out.
pub const EPOLL_FIRST_ID: u32 = 200;
/// Inode numbers of epoll descriptors are this base plus the instance id.
pub const EPOLL_INO_BASE: u64 = 0xE000_0000;

#[derive(Clone, Copy)]
pub struct EpollEvent {
    pub events: u32,
    pub data: u64,
}

/// One instance: watched descriptor to (event mask, user data).
pub struct EpollInstance {
    pub watched: BTreeMap<i32, (u32, u64)>,
}

/// All instances by id, and the next id to hand out.
pub struct EpollTable {
    pub instances: BTreeMap<u32, EpollInstance>,
    pub next_id: u32,
}

impl EpollTable {
    pub fn new() -> (r: EpollTable)
        ensures
            r.instances@ == Map::<u32, EpollInstance>::empty(),
            r.next_id == EPOLL_FIRST_ID,
    {
        EpollTable { instances: BTreeMap::new(), next_id: EPOLL_FIRST_ID }
    }
}

/// Creates an instance with an empty watch list under the next id (ids
/// wrap around) and returns that id.
pub fn epoll_create(t: &mut EpollTable) -> (r: u32)
    ensures
        r == old(t).next_id,
        final(t).next_id == old(t).next_id.wrapping_add(1),
        final(t).instances@.dom() == old(t).instances@.dom().insert(r),
        final(t).instances@[r].watched@ == Map::<i32, (u32, u64)>::empty(),
        forall|k: u32| k != r && #[trigger] old(t).instances@.contains_key(k)
            ==> final(t).instances@[k] == old(t).instances@[k],
{
    let id = t.next_id;
    t.next_id = t.next_id.wrapping_add(1);
    t.instances.insert(id, EpollInstance { watched: BTreeMap::new() });
    id
}

/// The instance behind an epoll descriptor with inode number `ino`, if the
/// number is one of an epoll descriptor.
pub fn instance_of_ino(ino: Option<u64>) -> (r: Option<u32>)
    ensures
        r == match ino {
            Some(iv) => if iv >= EPOLL_INO_BASE { Some((iv - EPOLL_INO_BASE) as u32) } else { None },
            None => None,
        },
{
    match ino {
        Some(iv) => if iv >= EPOLL_INO_BASE {
            #[verifier::truncate]
            let id = (iv - EPOLL_INO_BASE) as u32;
            Some(id)
        } else {
            None
        },
        None => None,
    }
}

/// Changes the watch list of instance `ep` (found from the descriptor by
/// the caller, `None` when it is no epoll descriptor): add or replace,
/// remove, or modify an existing entry. Returns 0, -9 (EBADF) for no such
/// instance, -2 (ENOENT) when modifying an unwatched descriptor, or -22
/// (EINVAL) for an unknown operation.
pub fn epoll_ctl(t: &mut EpollTable, ep: Option<u32>, op: i32, fd: i32, ev: EpollEvent) -> (r: i64)
    ensures
        final(t).next_id == old(t).next_id,
        final(t).instances@.dom() == old(t).instances@.dom(),
        forall|k: u32| (ep is None || k != ep->0) && #[trigger] old(t).instances@.contains_key(k)
            ==> final(t).instances@[k] == old(t).instances@[k],
        ep is None || !old(t).instances@.contains_key(ep->0) ==> r == -9
            && final(t).instances@ == old(t).instances@,
        ep is Some && old(t).instances@.contains_key(ep->0) ==> ({
            let w0 = old(t).instances@[ep->0].watched@;
            let w1 = final(t).instances@[ep->0].watched@;
            &&& op == EPOLL_CTL_ADD ==> r == 0 && w1 == w0.insert(fd, (ev.events, ev.data))
            &&& op == EPOLL_CTL_DEL ==> r == 0 && w1 == w0.remove(fd)
            &&& op == EPOLL_CTL_MOD && w0.contains_key(fd) ==> r == 0 && w1 == w0.insert(fd, (ev.events, ev.data))
            &&& op == EPOLL_CTL_MOD && !w0.contains_key(fd) ==> r == -2 && w1 == w0
            &&& op != EPOLL_CTL_ADD && op != EPOLL_CTL_DEL && op != EPOLL_CTL_MOD ==> r == -22 && w1 == w0
        }),
{
    let id = match ep {
        Some(id) => id,
        None => return -9,
    };
    let mut inst = match t.instances.remove(&id) {
        Some(i) => i,
        None => {
            proof {
                assert(t.instances@ =~= old(t).instances@);
            }
            return -9;
        },
    };
    let r: i64 = if op == EPOLL_CTL_ADD {
        inst.watched.insert(fd, (ev.events, ev.data));
        0
    } else if op == EPOLL_CTL_DEL {
        let _ = inst.watched.remove(&fd);
        0
    } else if op == EPOLL_CTL_MOD {
        if inst.watched.contains_key(&fd) {
            inst.watched.insert(fd, (ev.events, ev.data));
            0
        } else {
            -2
        }
    } else {
        -22
    };
    t.instances.insert(id, inst);
    proof {
        assert(t.instances@.dom() =~= old(t).instances@.dom());
    }
    r
}

/// The events a watched descriptor reports: `EPOLLIN` when it has data and
/// the mask asks for it, else `EPOLLOUT` when the mask asks for that,
/// else none.
pub fn check_fd_ready(has_data: bool, mask: u32) -> (r: u32)
    ensures
        r == if has_data && mask & EPOLLIN != 0 { EPOLLIN } else if mask & EPOLLOUT != 0 { EPOLLOUT } else { 0 },
{
    if has_data && mask & EPOLLIN != 0 {
        EPOLLIN
    } else if mask & EPOLLOUT != 0 {
        EPOLLOUT
    } else {
        0
    }
}

/// The events the first `n` watched entries report, in watch-list order,
/// stopping once `max` have been found.
pub open spec fn ready_events(w: Seq<(&i32, &(u32, u64))>, has: Set<i32>, max: int, n: int) -> Seq<EpollEvent>
    decreases n,
{
    if n <= 0 {
        Seq::empty()
    } else {
        let prev = ready_events(w, has, max, n - 1);
        let fd = *w[n - 1].0;
        let (mask, data) = *w[n - 1].1;
        let ready: u32 = if has.contains(fd) && mask & EPOLLIN != 0 { EPOLLIN } else if mask & EPOLLOUT != 0 {
            EPOLLOUT } else { 0 };
        if prev.len() >= max || ready == 0 { prev } else { prev.push(EpollEvent { events: ready, data }) }
    }
}

/// One poll of instance `ep`: walks its watch list in descriptor order and
/// reports, for at most `maxevents` descriptors, the events they are ready
/// for (`has_data` holds the descriptors with data waiting). -9 (EBADF)
/// for no such instance. Storing the events and waiting when there are
/// none is the caller's part.
pub fn epoll_wait(t: &EpollTable, ep: Option<u32>, maxevents: i32, has_data: &BTreeSet<i32>)
    -> (r: Result<Vec<EpollEvent>, i64>)
    ensures
        ep is None || !t.instances@.contains_key(ep->0) ==> r == Err::<Vec<EpollEvent>, i64>(-9i64),
        ep is Some && t.instances@.contains_key(ep->0) ==> r is Ok && ({
            let w = vstd::std_specs::iter::IteratorSpec::remaining(&vstd::std_specs::btree::spec_btree_map_iter(&t.instances@[ep->0].watched));
            r->Ok_0@ == ready_events(w, has_data@, maxevents as int, w.len() as int)
        }),
{
    let id = match ep {
        Some(id) => id,
        None => return Err(-9),
    };
    let inst = match t.instances.get(&id) {
        Some(i) => i,
        None => return Err(-9),
    };
    let mut out: Vec<EpollEvent> = Vec::new();
    let mut count: i32 = 0;
    for kv in it: inst.watched.iter()
        invariant
            out@ == ready_events(it.seq(), has_data@, maxevents as int, it.index() as int),
            count as int == out@.len(),
            out@.len() <= it.index(),
    {
        let (fd, m) = kv;
        let (mask, data) = *m;
        if count < maxevents {
            let ready = check_fd_ready(has_data.contains(fd), mask);
            if ready != 0 {
                out.push(EpollEvent { events: ready, data });
                count = count + 1;
            }
        }
    }
    Ok(out)
}

} // verus!
