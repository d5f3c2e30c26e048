//! The driver host: block and network devices that drivers register, each
//! under an id handed out in order.
use vstd::prelude::*;
use std::collections::BTreeMap;

verus! {

broadcast use vstd::std_specs::btree::group_btree_axioms;

/// What a driver operation can fail with.
pub enum DriverError {
    Timeout,
    IoError(u32),
    InvalidArgument,
    NotSupported,
    NoMemory,
    DeviceRemoved,
}

/// The error for an id that names no device (ENODEV).
pub const NO_DEVICE: u32 = 19;

pub struct BlockDevice<B> {
    pub id: u32,
    pub name: String,
    pub ops: B,
}

pub struct NetDevice<N> {
    pub id: u32,
    pub name: String,
    pub ops: N,
}

/// The registered devices; `B` and `N` are the drivers' operation handles.
pub struct DriverRegistry<B, N> {
    pub block_devs: BTreeMap<u32, BlockDevice<B>>,
    pub net_devs: BTreeMap<u32, NetDevice<N>>,
    pub next_block_id: u32,
    pub next_net_id: u32,
}

impl<B, N> DriverRegistry<B, N> {
    /// Ids in use are below the next id to hand out.
    pub open spec fn wf(&self) -> bool {
        &&& forall|k: u32| #[trigger] self.block_devs@.contains_key(k) ==> k < self.next_block_id
        &&& forall|k: u32| #[trigger] self.net_devs@.contains_key(k) ==> k < self.next_net_id
    }

    pub fn new() -> (r: Self)
        ensures
            r.wf(),
            r.block_devs@ == Map::<u32, BlockDevice<B>>::empty(),
            r.net_devs@ == Map::<u32, NetDevice<N>>::empty(),
            r.next_block_id == 0 && r.next_net_id == 0,
    {
        DriverRegistry { block_devs: BTreeMap::new(), net_devs: BTreeMap::new(), next_block_id: 0, next_net_id: 0 }
    }
}

/// Registers a block device under the next block id, which it returns.
pub fn register_block<B, N>(reg: &mut DriverRegistry<B, N>, name: String, ops: B) -> (id: u32)
    requires
        old(reg).wf(),
        old(reg).next_block_id < u32::MAX,
    ensures
        final(reg).wf(),
        id == old(reg).next_block_id,
        final(reg).next_block_id == id + 1,
        final(reg).next_net_id == old(reg).next_net_id,
        final(reg).net_devs@ == old(reg).net_devs@,
        final(reg).block_devs@ == old(reg).block_devs@.insert(id, BlockDevice { id, name, ops }),
{
    let id = reg.next_block_id;
    reg.next_block_id = reg.next_block_id + 1;
    reg.block_devs.insert(id, BlockDevice { id, name, ops });
    id
}

/// Registers a network device under the next net id, which it returns.
pub fn register_net<B, N>(reg: &mut DriverRegistry<B, N>, name: String, ops: N) -> (id: u32)
    requires
        old(reg).wf(),
        old(reg).next_net_id < u32::MAX,
    ensures
        final(reg).wf(),
        id == old(reg).next_net_id,
        final(reg).next_net_id == id + 1,
        final(reg).next_block_id == old(reg).next_block_id,
        final(reg).block_devs@ == old(reg).block_devs@,
        final(reg).net_devs@ == old(reg).net_devs@.insert(id, NetDevice { id, name, ops }),
{
    let id = reg.next_net_id;
    reg.next_net_id = reg.next_net_id + 1;
    reg.net_devs.insert(id, NetDevice { id, name, ops });
    id
}

/// The operations of block device `id`, if registered.
pub fn get_block<B, N>(reg: &DriverRegistry<B, N>, id: u32) -> (r: Option<&B>)
    ensures
        r is Some <==> reg.block_devs@.contains_key(id),
        r is Some ==> *r->0 == reg.block_devs@[id].ops,
{
    match reg.block_devs.get(&id) {
        Some(d) => Some(&d.ops),
        None => None,
    }
}

/// The operations of network device `id`, if registered.
pub fn get_net<B, N>(reg: &DriverRegistry<B, N>, id: u32) -> (r: Option<&N>)
    ensures
        r is Some <==> reg.net_devs@.contains_key(id),
        r is Some ==> *r->0 == reg.net_devs@[id].ops,
{
    match reg.net_devs.get(&id) {
        Some(d) => Some(&d.ops),
        None => None,
    }
}

/// How many block ids have been handed out.
pub fn block_device_count<B, N>(reg: &DriverRegistry<B, N>) -> (r: u32)
    ensures
        r == reg.next_block_id,
{
    reg.next_block_id
}

/// How many net ids have been handed out.
pub fn net_device_count<B, N>(reg: &DriverRegistry<B, N>) -> (r: u32)
    ensures
        r == reg.next_net_id,
{
    reg.next_net_id
}

/// The device a block request goes to, or `IoError(ENODEV)` for an unknown
/// id; the request itself is the driver's.
pub fn block_target<B, N>(reg: &DriverRegistry<B, N>, id: u32) -> (r: Result<&B, DriverError>)
    ensures
        reg.block_devs@.contains_key(id) ==> r is Ok && *r->Ok_0 == reg.block_devs@[id].ops,
        !reg.block_devs@.contains_key(id) ==> r == Err::<&B, DriverError>(DriverError::IoError(NO_DEVICE)),
{
    match get_block(reg, id) {
        Some(b) => Ok(b),
        None => Err(DriverError::IoError(NO_DEVICE)),
    }
}

/// The device a network request goes to, or `IoError(ENODEV)`.
pub fn net_target<B, N>(reg: &DriverRegistry<B, N>, id: u32) -> (r: Result<&N, DriverError>)
    ensures
        reg.net_devs@.contains_key(id) ==> r is Ok && *r->Ok_0 == reg.net_devs@[id].ops,
        !reg.net_devs@.contains_key(id) ==> r == Err::<&N, DriverError>(DriverError::IoError(NO_DEVICE)),
{
    match get_net(reg, id) {
        Some(n) => Ok(n),
        None => Err(DriverError::IoError(NO_DEVICE)),
    }
}

} // verus!
