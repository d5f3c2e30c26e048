//! The table of handlers for the 16 legacy IRQ lines. A handler is named
//! by the number the platform code gave it; dispatching yields the number
//! to run.
use vstd::prelude::*;

verus! {

pub const MAX_IRQS: usize = 16;

/// One optional handler per IRQ line.
pub struct IrqTable {
    pub handlers: Vec<Option<u32>>,
}

impl IrqTable {
    pub open spec fn wf(&self) -> bool {
        self.handlers@.len() == MAX_IRQS
    }

    pub fn new() -> (r: IrqTable)
        ensures
            r.wf(),
            forall|i: int| 0 <= i < MAX_IRQS ==> #[trigger] r.handlers@[i] is None,
    {
        let mut handlers: Vec<Option<u32>> = Vec::new();
        while handlers.len() < MAX_IRQS
            invariant
                handlers@.len() <= MAX_IRQS,
                forall|i: int| 0 <= i < handlers@.len() ==> #[trigger] handlers@[i] is None,
            decreases MAX_IRQS - handlers@.len(),
        {
            handlers.push(None);
        }
        IrqTable { handlers }
    }
}

/// Installs `handler` on line `irq`; lines past the last are ignored.
pub fn register(t: &mut IrqTable, irq: u8, handler: u32)
    requires
        old(t).wf(),
    ensures
        final(t).wf(),
        (irq as usize) < MAX_IRQS ==> final(t).handlers@ == old(t).handlers@.update(irq as int, Some(handler)),
        (irq as usize) >= MAX_IRQS ==> *final(t) == *old(t),
{
    if irq as usize >= MAX_IRQS {
        return;
    }
    t.handlers.set(irq as usize, Some(handler));
}

/// The handler to run for line `irq`, if one is installed.
pub fn dispatch(t: &IrqTable, irq: u8) -> (r: Option<u32>)
    requires
        t.wf(),
    ensures
        (irq as usize) < MAX_IRQS ==> r == t.handlers@[irq as int],
        (irq as usize) >= MAX_IRQS ==> r is None,
{
    if irq as usize >= MAX_IRQS {
        return None;
    }
    t.handlers[irq as usize]
}

/// Dispatch finds what registration installed, and registering one line
/// leaves every other line as it was.
pub proof fn law_register_dispatch(before: IrqTable, after: IrqTable, irq: u8, handler: u32, other: int)
    requires
        before.wf(),
        (irq as usize) < MAX_IRQS,
        after.handlers@ == before.handlers@.update(irq as int, Some(handler)),
        0 <= other < MAX_IRQS,
        other != irq,
    ensures
        after.handlers@[irq as int] == Some(handler),
        after.handlers@[other] == before.handlers@[other],
{
}

} // verus!
