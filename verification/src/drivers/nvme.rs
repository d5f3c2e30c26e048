//! NVMe queue bookkeeping: command and completion entries, command ids,
//! doorbell offsets, and the submission and completion positions.
use vstd::prelude::*;

verus! {

pub const DOORBELL_BASE: usize = 0x1000;
pub const QUEUE_DEPTH: u16 = 64;

/// A 64-byte submission queue entry.
#[derive(Clone, Copy)]
pub struct SqEntry {
    pub cdw0: u32,
    pub nsid: u32,
    pub cdw2: u32,
    pub cdw3: u32,
    pub mptr: u64,
    pub prp1: u64,
    pub prp2: u64,
    pub cdw10: u32,
    pub cdw11: u32,
    pub cdw12: u32,
    pub cdw13: u32,
    pub cdw14: u32,
    pub cdw15: u32,
}

impl SqEntry {
    /// A command with `opcode`, command id `cid` and namespace `nsid`, all
    /// other fields zero.
    pub fn new(opcode: u8, cid: u16, nsid: u32) -> (r: SqEntry)
        ensures
            r.cdw0 == opcode as u32 | ((cid as u32) << 16u32),
            r.nsid == nsid,
            r.cdw2 == 0 && r.cdw3 == 0 && r.mptr == 0 && r.prp1 == 0 && r.prp2 == 0,
            r.cdw10 == 0 && r.cdw11 == 0 && r.cdw12 == 0 && r.cdw13 == 0 && r.cdw14 == 0 && r.cdw15 == 0,
    {
        SqEntry {
            cdw0: opcode as u32 | ((cid as u32) << 16u32), nsid, cdw2: 0, cdw3: 0, mptr: 0, prp1: 0, prp2: 0,
            cdw10: 0, cdw11: 0, cdw12: 0, cdw13: 0, cdw14: 0, cdw15: 0,
        }
    }

    /// Sets the starting block and the block count (stored zero-based).
    pub fn set_lba(&mut self, lba: u64, nlb: u16)
        ensures
            final(self).cdw10 == lba as u32,
            final(self).cdw11 == (lba >> 32u64) as u32,
            final(self).cdw12 == if nlb >= 1 { (nlb - 1) as u32 } else { 0u32 },
            final(self).cdw0 == old(self).cdw0 && final(self).nsid == old(self).nsid
                && final(self).prp1 == old(self).prp1 && final(self).prp2 == old(self).prp2,
    {
        #[verifier::truncate]
        let lo = lba as u32;
        #[verifier::truncate]
        let hi = (lba >> 32u64) as u32;
        self.cdw10 = lo;
        self.cdw11 = hi;
        self.cdw12 = (nlb as u32).saturating_sub(1);
    }
}

/// A 16-byte completion queue entry.
#[derive(Clone, Copy)]
pub struct CqEntry {
    pub dw0: u32,
    pub dw1: u32,
    pub sq_hd: u16,
    pub sq_id: u16,
    pub cid: u16,
    pub phase_status: u16,
}

impl CqEntry {
    /// The phase tag (bit 0).
    pub fn phase(&self) -> (r: bool)
        ensures
            r == (self.phase_status & 1u16 != 0),
    {
        self.phase_status & 1 != 0
    }

    /// The status field (bits 15..1).
    pub fn status(&self) -> (r: u16)
        ensures
            r == self.phase_status >> 1u16,
    {
        self.phase_status >> 1
    }

    pub fn is_success(&self) -> (r: bool)
        ensures
            r == (self.phase_status >> 1u16 == 0),
    {
        self.status() == 0
    }
}

/// The positions of one submission/completion queue pair.
pub struct QueueState {
    pub qid: u16,
    pub db_stride: usize,
    pub sq_tail: u16,
    pub cq_head: u16,
    pub cq_phase: bool,
    pub next_cid: u16,
}

/// What a look at the completion slot under the head came to.
pub enum Completion {
    /// Not yet there: poll again.
    Pending,
    /// The command completed with this status (0 for success).
    Done(u16),
}

impl QueueState {
    pub open spec fn wf(&self) -> bool {
        &&& self.sq_tail < QUEUE_DEPTH
        &&& self.cq_head < QUEUE_DEPTH
    }

    /// A fresh queue: positions at zero, phase set, command ids from 1.
    pub fn new(qid: u16, db_stride: usize) -> (r: QueueState)
        ensures
            r.wf(),
            r.qid == qid && r.db_stride == db_stride,
            r.sq_tail == 0 && r.cq_head == 0 && r.cq_phase && r.next_cid == 1,
    {
        QueueState { qid, db_stride, sq_tail: 0, cq_head: 0, cq_phase: true, next_cid: 1 }
    }

    /// Hands out the next command id; ids wrap around and skip 0.
    pub fn alloc_cid(&mut self) -> (cid: u16)
        ensures
            cid == old(self).next_cid,
            final(self).next_cid == if old(self).next_cid == u16::MAX { 1u16 } else { (old(self).next_cid + 1) as u16 },
            final(self).qid == old(self).qid && final(self).db_stride == old(self).db_stride,
            final(self).sq_tail == old(self).sq_tail && final(self).cq_head == old(self).cq_head,
            final(self).cq_phase == old(self).cq_phase,
    {
        let cid = self.next_cid;
        let n = self.next_cid.wrapping_add(1);
        self.next_cid = if n < 1 { 1 } else { n };
        cid
    }

    pub fn sq_doorbell_offset(&self) -> (r: usize)
        requires
            DOORBELL_BASE + self.qid * 2 * self.db_stride <= usize::MAX,
        ensures
            r == DOORBELL_BASE + self.qid * 2 * self.db_stride,
    {
        assert(self.qid * 2 * self.db_stride >= 0) by (nonlinear_arith);
        assert((self.qid as usize * 2) * self.db_stride <= usize::MAX) by (nonlinear_arith)
            requires DOORBELL_BASE + self.qid * 2 * self.db_stride <= usize::MAX;
        DOORBELL_BASE + self.qid as usize * 2 * self.db_stride
    }

    pub fn cq_doorbell_offset(&self) -> (r: usize)
        requires
            DOORBELL_BASE + (self.qid * 2 + 1) * self.db_stride <= usize::MAX,
        ensures
            r == DOORBELL_BASE + (self.qid * 2 + 1) * self.db_stride,
    {
        assert((self.qid as usize * 2 + 1) * self.db_stride <= usize::MAX) by (nonlinear_arith)
            requires DOORBELL_BASE + (self.qid * 2 + 1) * self.db_stride <= usize::MAX;
        DOORBELL_BASE + (self.qid as usize * 2 + 1) * self.db_stride
    }

    /// Stamps `cmd` with a fresh command id and takes the submission slot
    /// under the tail, which it returns with the stamped command; the
    /// caller stores it there and rings the doorbell.
    pub fn submit(&mut self, cmd: SqEntry) -> (r: (u16, usize, SqEntry))
        requires
            old(self).wf(),
        ensures
            final(self).wf(),
            r.0 == old(self).next_cid,
            r.1 == old(self).sq_tail,
            r.2 == (SqEntry { cdw0: (cmd.cdw0 & 0xFF_FFFFu32) | ((r.0 as u32) << 16u32) | (cmd.cdw0 & 0xFFu32), ..cmd }),
            final(self).sq_tail == (old(self).sq_tail + 1) % (QUEUE_DEPTH as int),
            final(self).cq_head == old(self).cq_head && final(self).cq_phase == old(self).cq_phase,
            final(self).next_cid == if old(self).next_cid == u16::MAX { 1u16 } else { (old(self).next_cid + 1) as u16 },
    {
        let cid = self.alloc_cid();
        let mut c = cmd;
        c.cdw0 = (cmd.cdw0 & 0xFF_FFFF) | ((cid as u32) << 16u32) | (cmd.cdw0 & 0xFF);
        let slot = self.sq_tail as usize;
        self.sq_tail = (self.sq_tail + 1) % QUEUE_DEPTH;
        (cid, slot, c)
    }

    /// Looks at the completion `cqe` found under the head while waiting for
    /// command `cid`: when its phase is the expected one and it is for
    /// `cid`, the head advances (flipping the phase at the wrap) and the
    /// status is the outcome; otherwise nothing changes.
    pub fn complete(&mut self, cqe: CqEntry, cid: u16) -> (r: Completion)
        requires
            old(self).wf(),
        ensures
            final(self).wf(),
            final(self).sq_tail == old(self).sq_tail && final(self).next_cid == old(self).next_cid,
            ((cqe.phase_status & 1u16 != 0) == old(self).cq_phase && cqe.cid == cid) ==> ({
                let h = (old(self).cq_head + 1) % (QUEUE_DEPTH as int);
                &&& r == Completion::Done(cqe.phase_status >> 1u16)
                &&& final(self).cq_head == h
                &&& final(self).cq_phase == if h == 0 { !old(self).cq_phase } else { old(self).cq_phase }
            }),
            !((cqe.phase_status & 1u16 != 0) == old(self).cq_phase && cqe.cid == cid) ==> r == Completion::Pending
                && final(self).cq_head == old(self).cq_head && final(self).cq_phase == old(self).cq_phase,
    {
        if cqe.phase() == self.cq_phase && cqe.cid == cid {
            self.cq_head = (self.cq_head + 1) % QUEUE_DEPTH;
            if self.cq_head == 0 {
                self.cq_phase = !self.cq_phase;
            }
            Completion::Done(cqe.status())
        } else {
            Completion::Pending
        }
    }
}

/// The LBA size of a namespace: two to the power given by the active LBA
/// format (the low four bits of `flbas` select it).
pub fn lba_size(flbas: u8, lbaf: &[[u8; 4]; 16]) -> (r: u32)
    requires
        lbaf@[(flbas % 16) as int]@[1] < 32,
    ensures
        r == 1u32 << lbaf@[(flbas % 16) as int]@[1],
{
    let active: usize = (flbas % 16) as usize;
    let f = lbaf[active];
    1u32 << f[1]
}

} // verus!
