//! Inter-process communication: pipes, semaphores, message queues, shared
//! memory and epoll.
use vstd::prelude::*;

pub mod pipe;
pub mod sem;
pub mod msgq;
pub mod shm;
pub mod epoll;

verus! {

/// A process id.
pub type Pid = u32;

} // verus!
