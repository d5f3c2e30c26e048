//! The evdev input queue: key events as `/dev/input/event*` delivers them.
use vstd::prelude::*;
use std::collections::VecDeque;

verus! {

pub const EV_SYN: u16 = 0;
pub const EV_KEY: u16 = 1;

/// The size of `struct input_event`.
pub const INPUT_EVENT_SIZE: usize = 24;

#[derive(Clone, Copy)]
pub struct InputEvent {
    pub tv_sec: i64,
    pub tv_usec: i64,
    pub ev_type: u16,
    pub code: u16,
    pub value: i32,
}

pub struct InputQueue {
    pub events: VecDeque<InputEvent>,
}

impl InputQueue {
    pub fn new() -> (r: InputQueue)
        ensures
            r.events@.len() == 0,
    {
        InputQueue { events: VecDeque::new() }
    }
}

/// The event stamped at `ticks` milliseconds.
pub open spec fn stamped(ticks: u64, ev_type: u16, code: u16, value: i32) -> InputEvent {
    InputEvent { tv_sec: (ticks / 1000) as i64, tv_usec: ((ticks % 1000) * 1000) as i64, ev_type, code, value }
}

/// Queues a key event and the report that closes it, both stamped with the
/// time `ticks` (milliseconds).
pub fn push_key_event(q: &mut InputQueue, ticks: u64, code: u16, value: i32)
    ensures
        final(q).events@ == old(q).events@.push(stamped(ticks, EV_KEY, code, value)).push(stamped(ticks, EV_SYN, 0, 0)),
{
    let sec: i64 = (ticks / 1000) as i64;
    let usec: i64 = ((ticks % 1000) * 1000) as i64;
    q.events.push_back(InputEvent { tv_sec: sec, tv_usec: usec, ev_type: EV_KEY, code, value });
    q.events.push_back(InputEvent { tv_sec: sec, tv_usec: usec, ev_type: EV_SYN, code: 0, value: 0 });
}

/// Takes the oldest event for a read of `count` bytes; a read too small for
/// one event takes nothing.
pub fn read_event(q: &mut InputQueue, count: usize) -> (r: Option<InputEvent>)
    ensures
        count < INPUT_EVENT_SIZE ==> r is None && final(q).events@ == old(q).events@,
        count >= INPUT_EVENT_SIZE && old(q).events@.len() == 0 ==> r is None && final(q).events@ == old(q).events@,
        count >= INPUT_EVENT_SIZE && old(q).events@.len() > 0 ==> r == Some(old(q).events@[0])
            && final(q).events@ == old(q).events@.drop_first(),
{
    if count < INPUT_EVENT_SIZE {
        return None;
    }
    q.events.pop_front()
}

} // verus!
