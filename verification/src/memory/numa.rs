//! NUMA topology from the ACPI SRAT, and a buddy allocator per node.
use vstd::prelude::*;
use vstd::arithmetic::power2::pow2;
use crate::bytes::{read_u32_le, spec_u32_le};
use crate::memory::buddy::{BuddyAlloc, FreeMap, after_free, block_taken, pow2_usize, MAX_FRAMES, MAX_ORDER, FRAME_SIZE};
use crate::memory::phys::{PhysAllocator, LOW_MEMORY_END, alloc_frame_post};

verus! {

pub const MAX_NUMA_NODES: usize = 8;
pub const NUMA_NO_NODE: u32 = 0xFFFF_FFFF;
pub const SRAT_HEADER_SIZE: usize = 48;
pub const SRAT_TYPE_CPU_AFFINITY: u8 = 0;
pub const SRAT_TYPE_MEMORY_AFFINITY: u8 = 1;
pub const SRAT_TYPE_X2APIC_AFFINITY: u8 = 2;
pub const SRAT_MEM_ENABLED: u32 = 1;
pub const SRAT_MEM_HOT_PLUGGABLE: u32 = 2;
pub const SRAT_CPU_ENABLED: u32 = 1;

/// A physical range `[base, end)` of one node.
#[derive(Clone, Copy)]
pub struct NumaMemRange {
    pub base: u64,
    pub end: u64,
    pub node_id: u32,
    pub hot_pluggable: bool,
}

/// The node of one CPU, by APIC id.
#[derive(Clone, Copy)]
pub struct NumaCpuAffinity {
    pub apic_id: u32,
    pub node_id: u32,
}

pub struct NumaTopology {
    pub node_count: u32,
    pub mem_ranges: Vec<NumaMemRange>,
    pub cpu_map: Vec<NumaCpuAffinity>,
    /// Bytes of memory per node.
    pub node_mem: Vec<u64>,
}

/// The node of the first range holding `phys`, from range `i` on; node 0
/// when none does.
pub open spec fn spec_phys_node(rs: Seq<NumaMemRange>, phys: u64, i: int) -> u32
    decreases rs.len() - i,
{
    if i >= rs.len() || i < 0 {
        0
    } else if rs[i].base <= phys < rs[i].end {
        rs[i].node_id
    } else {
        spec_phys_node(rs, phys, i + 1)
    }
}

/// The node of the first CPU entry with `apic`, from entry `i` on; node 0
/// when none matches.
pub open spec fn spec_cpu_node(cs: Seq<NumaCpuAffinity>, apic: u32, i: int) -> u32
    decreases cs.len() - i,
{
    if i >= cs.len() || i < 0 {
        0
    } else if cs[i].apic_id == apic {
        cs[i].node_id
    } else {
        spec_cpu_node(cs, apic, i + 1)
    }
}

impl NumaTopology {
    /// The node a physical address belongs to (node 0 when no range holds it).
    pub fn phys_to_node(&self, phys: u64) -> (r: u32)
        ensures
            r == spec_phys_node(self.mem_ranges@, phys, 0),
    {
        let mut i: usize = 0;
        while i < self.mem_ranges.len()
            invariant
                i <= self.mem_ranges@.len(),
                spec_phys_node(self.mem_ranges@, phys, i as int) == spec_phys_node(self.mem_ranges@, phys, 0),
            decreases self.mem_ranges@.len() - i,
        {
            let r = self.mem_ranges[i];
            if phys >= r.base && phys < r.end {
                return r.node_id;
            }
            i = i + 1;
        }
        0
    }

    /// The node a CPU belongs to, by APIC id (node 0 when unlisted).
    pub fn cpu_to_node(&self, apic_id: u32) -> (r: u32)
        ensures
            r == spec_cpu_node(self.cpu_map@, apic_id, 0),
    {
        let mut i: usize = 0;
        while i < self.cpu_map.len()
            invariant
                i <= self.cpu_map@.len(),
                spec_cpu_node(self.cpu_map@, apic_id, i as int) == spec_cpu_node(self.cpu_map@, apic_id, 0),
            decreases self.cpu_map@.len() - i,
        {
            let c = self.cpu_map[i];
            if c.apic_id == apic_id {
                return c.node_id;
            }
            i = i + 1;
        }
        0
    }
}

/// A proximity domain clamped to the node range.
pub open spec fn clamp_node(prox: u32) -> u32 {
    if prox < (MAX_NUMA_NODES - 1) as u32 { prox } else { (MAX_NUMA_NODES - 1) as u32 }
}

fn clamp_node_exec(prox: u32) -> (r: u32)
    ensures
        r == clamp_node(prox),
{
    if prox < (MAX_NUMA_NODES - 1) as u32 { prox } else { (MAX_NUMA_NODES - 1) as u32 }
}

/// Parses the sub-tables of an SRAT (the whole table, header included):
/// enabled CPU, x2APIC and memory affinity entries become the topology.
/// Entries that would run past the table end the walk.
pub fn parse_srat(t: &[u8]) -> (r: NumaTopology)
    ensures
        r.node_mem@.len() == MAX_NUMA_NODES,
        1 <= r.node_count <= MAX_NUMA_NODES,
        forall|i: int| 0 <= i < r.mem_ranges@.len() ==> #[trigger] r.mem_ranges@[i].node_id < r.node_count
            && r.mem_ranges@[i].base < r.mem_ranges@[i].end,
        forall|i: int| 0 <= i < r.cpu_map@.len() ==> #[trigger] r.cpu_map@[i].node_id < r.node_count,
{
    let total_len: usize = if t.len() >= 8 {
        let l = read_u32_le(t, 4) as usize;
        if l < t.len() { l } else { t.len() }
    } else {
        0
    };
    let mut topo = NumaTopology {
        node_count: 0,
        mem_ranges: Vec::new(),
        cpu_map: Vec::new(),
        node_mem: vec![0u64; MAX_NUMA_NODES],
    };
    let mut max_node: u32 = 0;
    let mut off: usize = SRAT_HEADER_SIZE;
    while off < total_len && total_len - off > 2
        invariant
            total_len <= t@.len(),
            topo.node_mem@.len() == MAX_NUMA_NODES,
            max_node < MAX_NUMA_NODES,
            forall|i: int| 0 <= i < topo.mem_ranges@.len() ==> #[trigger] topo.mem_ranges@[i].node_id <= max_node
                && topo.mem_ranges@[i].base < topo.mem_ranges@[i].end,
            forall|i: int| 0 <= i < topo.cpu_map@.len() ==> #[trigger] topo.cpu_map@[i].node_id <= max_node,
        decreases total_len - off,
    {
        let sub_type = t[off];
        let sub_len = t[off + 1] as usize;
        if sub_len < 2 || sub_len > total_len - off {
            break;
        }
        if sub_type == SRAT_TYPE_CPU_AFFINITY && sub_len >= 16 {
            let flags = read_u32_le(t, off + 4);
            if flags & SRAT_CPU_ENABLED != 0 {
                let prox = (t[off + 2] as u32) | ((t[off + 9] as u32) << 8) | ((t[off + 10] as u32) << 16)
                    | ((t[off + 11] as u32) << 24);
                let node = clamp_node_exec(prox);
                topo.cpu_map.push(NumaCpuAffinity { apic_id: t[off + 3] as u32, node_id: node });
                if node > max_node {
                    max_node = node;
                }
            }
        } else if sub_type == SRAT_TYPE_MEMORY_AFFINITY && sub_len >= 32 {
            let flags = read_u32_le(t, off + 28);
            if flags & SRAT_MEM_ENABLED != 0 {
                let base = (read_u32_le(t, off + 8) as u64) | ((read_u32_le(t, off + 12) as u64) << 32);
                let length = (read_u32_le(t, off + 16) as u64) | ((read_u32_le(t, off + 20) as u64) << 32);
                let node = clamp_node_exec(read_u32_le(t, off + 2));
                if length > 0 && base <= u64::MAX - length {
                    topo.mem_ranges.push(NumaMemRange {
                        base,
                        end: base + length,
                        node_id: node,
                        hot_pluggable: flags & SRAT_MEM_HOT_PLUGGABLE != 0,
                    });
                    let cur = topo.node_mem[node as usize];
                    topo.node_mem.set(node as usize, cur.wrapping_add(length));
                    if node > max_node {
                        max_node = node;
                    }
                }
            }
        } else if sub_type == SRAT_TYPE_X2APIC_AFFINITY && sub_len >= 16 {
            let flags = read_u32_le(t, off + 12);
            if flags & SRAT_CPU_ENABLED != 0 {
                let node = clamp_node_exec(read_u32_le(t, off + 4));
                topo.cpu_map.push(NumaCpuAffinity { apic_id: read_u32_le(t, off + 8), node_id: node });
                if node > max_node {
                    max_node = node;
                }
            }
        }
        off = off + sub_len;
    }
    topo.node_count = max_node + 1;
    topo
}

/// The buddy allocator of one node. Frames past the allocator's range are
/// counted but not tracked.
pub struct NodeBuddy {
    pub node_id: u32,
    pub buddy: BuddyAlloc,
    pub total: usize,
    pub free: usize,
}

impl NodeBuddy {
    pub open spec fn wf(&self) -> bool {
        self.buddy.wf()
    }

    pub fn new(node_id: u32) -> (r: NodeBuddy)
        ensures
            r.wf(),
            r.node_id == node_id,
            r.total == 0 && r.free == 0,
            r.buddy.free_frames == 0,
            forall|o: int, i: int| !#[trigger] (r.buddy.free_map())(o, i),
    {
        NodeBuddy { node_id, buddy: BuddyAlloc::new(), total: 0, free: 0 }
    }

    /// Frees `2^order` frames at `phys` into the node.
    pub fn free_frame(&mut self, phys: u64, order: usize)
        requires
            old(self).wf(),
            order <= MAX_ORDER,
            old(self).free + pow2(order as nat) <= usize::MAX,
            old(self).buddy.free_frames + pow2(order as nat) <= usize::MAX,
        ensures
            final(self).wf(),
            final(self).node_id == old(self).node_id,
            final(self).total == old(self).total,
            final(self).free == old(self).free + pow2(order as nat),
            phys / FRAME_SIZE < MAX_FRAMES ==> final(self).buddy.free_map() == after_free(
                old(self).buddy.free_map(),
                (phys / FRAME_SIZE) as int / pow2(order as nat) as int,
                order as int,
            ),
            phys / FRAME_SIZE < MAX_FRAMES ==> final(self).buddy.free_frames == old(self).buddy.free_frames + pow2(order as nat),
            phys / FRAME_SIZE >= MAX_FRAMES ==> final(self).buddy == old(self).buddy,
    {
        let n = pow2_usize(order);
        self.free = self.free + n;
        if phys / FRAME_SIZE < MAX_FRAMES as u64 {
            self.buddy.free_block(phys, order);
        }
    }

    /// Gives one frame to the node.
    pub fn add_frame(&mut self, phys: u64)
        requires
            old(self).wf(),
            old(self).free < usize::MAX,
            old(self).total < usize::MAX,
            old(self).buddy.free_frames < usize::MAX,
        ensures
            final(self).wf(),
            final(self).node_id == old(self).node_id,
            final(self).total == old(self).total + 1,
            final(self).free == old(self).free + 1,
            phys / FRAME_SIZE < MAX_FRAMES ==> final(self).buddy.free_map() == after_free(
                old(self).buddy.free_map(), (phys / FRAME_SIZE) as int, 0),
            phys / FRAME_SIZE < MAX_FRAMES ==> final(self).buddy.free_frames == old(self).buddy.free_frames + 1,
            phys / FRAME_SIZE >= MAX_FRAMES ==> final(self).buddy == old(self).buddy,
    {
        proof {
            vstd::arithmetic::power2::lemma2_to64();
        }
        self.free_frame(phys, 0);
        self.total = self.total + 1;
        proof {
            assert((phys / FRAME_SIZE) as int / 1 == (phys / FRAME_SIZE) as int);
        }
    }

    /// Allocates `2^order` frames from the node.
    pub fn alloc_order(&mut self, order: usize) -> (r: Option<u64>)
        requires
            old(self).wf(),
            order <= MAX_ORDER,
        ensures
            final(self).wf(),
            final(self).node_id == old(self).node_id,
            final(self).total == old(self).total,
            r is None ==> *final(self) == *old(self)
                && final(self).buddy.free_map() == old(self).buddy.free_map()
                && forall|o: int, i: int| order <= o <= MAX_ORDER ==> !#[trigger] (old(self).buddy.free_map())(o, i),
            r is Some ==> block_taken(old(self).buddy.free_map(), final(self).buddy.free_map(),
                old(self).buddy.free_frames, final(self).buddy.free_frames, order as int, r->0),
            r is Some ==> r->0 / FRAME_SIZE < MAX_FRAMES && r->0 % FRAME_SIZE == 0
                && final(self).free == if old(self).free >= pow2(order as nat) {
                    (old(self).free - pow2(order as nat)) as usize
                } else {
                    old(self).free
                },
    {
        let r = self.buddy.alloc_block(order);
        if r.is_some() {
            let n = pow2_usize(order);
            if self.free >= n {
                self.free = self.free - n;
            }
        }
        r
    }
}

/// Allocation policy for node-aware frame allocation.
#[derive(Clone, Copy, PartialEq, Eq, Structural)]
pub enum NumaPolicy {
    /// The current CPU's node first, then any other.
    Local,
    /// A given node first, then any other.
    Preferred(u32),
    /// Round-robin over the nodes.
    Interleave,
    /// Only the given node.
    Bind(u32),
}

/// NUMA state: the topology and the per-node allocators.
pub struct NumaState {
    pub topo: Option<NumaTopology>,
    pub nodes: Vec<Option<NodeBuddy>>,
    pub interleave_counter: u32,
    pub enabled: bool,
}

impl NumaState {
    pub open spec fn wf(&self) -> bool {
        &&& self.nodes@.len() == MAX_NUMA_NODES
        &&& forall|i: int| 0 <= i < MAX_NUMA_NODES && (#[trigger] self.nodes@[i]) is Some ==> self.nodes@[i]->0.wf()
        &&& self.enabled ==> self.topo is Some
        &&& self.topo is Some ==> 1 <= self.topo->0.node_count <= MAX_NUMA_NODES
    }

    /// NUMA off: no topology, no node allocators.
    pub fn new() -> (r: NumaState)
        ensures
            r.wf(),
            !r.enabled,
            r.topo is None,
            forall|i: int| 0 <= i < MAX_NUMA_NODES ==> #[trigger] r.nodes@[i] is None,
    {
        let mut nodes: Vec<Option<NodeBuddy>> = Vec::new();
        let mut i: usize = 0;
        while i < MAX_NUMA_NODES
            invariant
                i <= MAX_NUMA_NODES,
                nodes@.len() == i,
                forall|k: int| 0 <= k < i ==> #[trigger] nodes@[k] is None,
            decreases MAX_NUMA_NODES - i,
        {
            nodes.push(None);
            i = i + 1;
        }
        NumaState { topo: None, nodes, interleave_counter: 0, enabled: false }
    }
}

pub fn is_enabled(st: &NumaState) -> (r: bool)
    ensures
        r == st.enabled,
{
    st.enabled
}

/// Installs the topology parsed from the SRAT (when one was found) and an
/// empty allocator for each of its nodes, and turns NUMA on.
pub fn init_from_srat(st: &mut NumaState, srat: Option<&[u8]>)
    requires
        old(st).wf(),
    ensures
        final(st).wf(),
        srat is None ==> *final(st) == *old(st),
        srat is Some ==> final(st).enabled && final(st).topo is Some
            && forall|n: int| 0 <= n < final(st).topo->0.node_count ==> #[trigger] final(st).nodes@[n] is Some
                && final(st).nodes@[n]->0.free == 0 && final(st).nodes@[n]->0.total == 0
                && final(st).nodes@[n]->0.buddy.free_frames == 0,
{
    match srat {
        None => {},
        Some(t) => {
            let topo = parse_srat(t);
            let count = topo.node_count as usize;
            let mut n: usize = 0;
            while n < count
                invariant
                    st.nodes@.len() == MAX_NUMA_NODES,
                    forall|i: int| 0 <= i < MAX_NUMA_NODES && (#[trigger] st.nodes@[i]) is Some ==> st.nodes@[i]->0.wf(),
                    count <= MAX_NUMA_NODES,
                    n <= count,
                    forall|k: int| 0 <= k < n ==> #[trigger] st.nodes@[k] is Some && st.nodes@[k]->0.free == 0
                        && st.nodes@[k]->0.total == 0 && st.nodes@[k]->0.buddy.free_frames == 0,
                decreases count - n,
            {
                st.nodes.set(n, Some(NodeBuddy::new(n as u32)));
                n = n + 1;
            }
            st.topo = Some(topo);
            st.enabled = true;
        },
    }
}

/// Node allocator `a` became `b` by giving out the frame at `p`.
pub open spec fn node_took(a: NodeBuddy, b: NodeBuddy, p: u64) -> bool {
    &&& block_taken(a.buddy.free_map(), b.buddy.free_map(), a.buddy.free_frames, b.buddy.free_frames, 0, p)
    &&& b.node_id == a.node_id && b.total == a.total
    &&& b.free == if a.free >= 1 { (a.free - 1) as usize } else { a.free }
}

/// Allocates one frame from node `node_id`; `None` for an unknown node or
/// an exhausted one.
pub fn alloc_frame_node(st: &mut NumaState, node_id: u32) -> (r: Option<u64>)
    requires
        old(st).wf(),
    ensures
        final(st).wf(),
        final(st).topo == old(st).topo,
        final(st).enabled == old(st).enabled,
        final(st).interleave_counter == old(st).interleave_counter,
        forall|i: int| 0 <= i < MAX_NUMA_NODES && i != node_id ==> #[trigger] final(st).nodes@[i] == old(st).nodes@[i],
        node_id >= MAX_NUMA_NODES ==> r is None,
        node_id < MAX_NUMA_NODES && old(st).nodes@[node_id as int] is None ==> r is None,
        r is None ==> same_numa(final(st), old(st)),
        r is None ==> !node_has_free(old(st), node_id as int),
        r is Some ==> r->0 % FRAME_SIZE == 0 && r->0 / FRAME_SIZE < MAX_FRAMES,
        r is Some ==> node_id < MAX_NUMA_NODES && old(st).nodes@[node_id as int] is Some
            && final(st).nodes@[node_id as int] is Some
            && node_took(old(st).nodes@[node_id as int]->0, final(st).nodes@[node_id as int]->0, r->0),
        r is Some ==> node_has_free(old(st), node_id as int),
{
    let n = node_id as usize;
    if node_id >= MAX_NUMA_NODES as u32 {
        return None;
    }
    let slot = st.nodes.remove(n);
    match slot {
        None => {
            st.nodes.insert(n, None);
            proof {
                assert(st.nodes@ =~= old(st).nodes@);
            }
            None
        },
        Some(mut nb) => {
            let ghost nb0 = nb;
            let r = nb.alloc_order(0);
            st.nodes.insert(n, Some(nb));
            proof {
                assert(old(st).nodes@[n as int] == Some(nb0));
                assert(st.nodes@[n as int] == Some(nb));
                if r is Some {
                    vstd::arithmetic::power2::lemma2_to64();
                    assert(node_took(nb0, nb, r->0));
                }
                if r is None {
                    assert(st.nodes@ =~= old(st).nodes@);
                    assert forall|o: int, i: int| 0 <= o <= MAX_ORDER implies !#[trigger] (nb0.buddy.free_map())(o, i) by {}
                }
                assert forall|i: int| 0 <= i < MAX_NUMA_NODES && i != n implies #[trigger] st.nodes@[i] == old(st).nodes@[i] by {}
            }
            r
        },
    }
}

/// The node of the current CPU (by its APIC id), or 0 without topology.
pub fn current_node(st: &NumaState, apic: u32) -> (r: u32)
    ensures
        st.topo is None ==> r == 0,
        st.topo is Some ==> r == spec_cpu_node(st.topo->0.cpu_map@, apic, 0),
{
    match &st.topo {
        Some(t) => t.cpu_to_node(apic),
        None => 0,
    }
}

/// The node of a physical address, or 0 without topology.
pub fn phys_node(st: &NumaState, phys: u64) -> (r: u32)
    ensures
        st.topo is None ==> r == 0,
        st.topo is Some ==> r == spec_phys_node(st.topo->0.mem_ranges@, phys, 0),
{
    match &st.topo {
        Some(t) => t.phys_to_node(phys),
        None => 0,
    }
}

/// The number of nodes (1 without topology).
pub fn node_count(st: &NumaState) -> (r: u32)
    ensures
        st.topo is None ==> r == 1,
        st.topo is Some ==> r == st.topo->0.node_count,
{
    match &st.topo {
        Some(t) => t.node_count,
        None => 1,
    }
}

/// Free memory of a node in MiB (0 for an unknown node).
pub fn node_free_mb(st: &NumaState, node: u32) -> (r: u64)
    requires
        st.wf(),
    ensures
        node >= MAX_NUMA_NODES ==> r == 0,
        node < MAX_NUMA_NODES && st.nodes@[node as int] is None ==> r == 0,
        node < MAX_NUMA_NODES && st.nodes@[node as int] is Some ==> r == (st.nodes@[node as int]->0.free as u64).wrapping_mul(4096) / 1048576,
{
    if node >= MAX_NUMA_NODES as u32 {
        return 0;
    }
    match &st.nodes[node as usize] {
        Some(nb) => (nb.free as u64).wrapping_mul(4096) / 1048576,
        None => 0,
    }
}

/// Two NUMA states hold the same nodes, topology and counters.
pub open spec fn same_numa(a: &NumaState, b: &NumaState) -> bool {
    &&& a.nodes@ == b.nodes@
    &&& a.topo == b.topo
    &&& a.interleave_counter == b.interleave_counter
    &&& a.enabled == b.enabled
}

/// Node `n` exists and has a free block.
pub open spec fn node_has_free(st: &NumaState, n: int) -> bool {
    &&& 0 <= n < MAX_NUMA_NODES
    &&& st.nodes@[n] is Some
    &&& exists|o: int, i: int| 0 <= o <= MAX_ORDER && #[trigger] (st.nodes@[n]->0.buddy.free_map())(o, i)
}

/// Round-robin choice: the first node with a free block among positions
/// `k..count` counted from `start`, wrapping.
pub open spec fn interleave_pick(st: &NumaState, start: int, count: int, k: int) -> Option<int>
    decreases count - k,
{
    if k < 0 || k >= count {
        None
    } else if node_has_free(st, (start + k) % count) {
        Some((start + k) % count)
    } else {
        interleave_pick(st, start, count, k + 1)
    }
}

/// Fallback choice: the lowest node from `n` on below `count`, other than
/// `skip`, with a free block.
pub open spec fn fallback_pick(st: &NumaState, skip: int, n: int, count: int) -> Option<int>
    decreases count - n,
{
    if n < 0 || n >= count {
        None
    } else if n != skip && node_has_free(st, n) {
        Some(n)
    } else {
        fallback_pick(st, skip, n + 1, count)
    }
}

/// Node `first` when it has a free block, otherwise the fallback choice.
pub open spec fn first_then_any(st: &NumaState, first: int, count: int) -> Option<int> {
    if node_has_free(st, first) { Some(first) } else { fallback_pick(st, first, 0, count) }
}

/// The node a policy allocation takes its frame from (NUMA on), if any.
pub open spec fn policy_pick(st: &NumaState, policy: NumaPolicy, apic: u32) -> Option<int> {
    let count = st.topo->0.node_count as int;
    let here = spec_cpu_node(st.topo->0.cpu_map@, apic, 0) as int;
    match policy {
        NumaPolicy::Bind(b) => if node_has_free(st, b as int) { Some(b as int) } else { None },
        NumaPolicy::Interleave => interleave_pick(st, st.interleave_counter as int % count, count, 0),
        NumaPolicy::Local => first_then_any(st, here, count),
        NumaPolicy::Preferred(p) => first_then_any(st, if p == NUMA_NO_NODE { here } else { p as int }, count),
    }
}

/// Tries node `n`; `None` tells the node is unknown or exhausted.
fn try_node(st: &mut NumaState, n: u32) -> (r: Option<u64>)
    requires
        old(st).wf(),
    ensures
        final(st).wf(),
        final(st).topo == old(st).topo,
        final(st).enabled == old(st).enabled,
        final(st).interleave_counter == old(st).interleave_counter,
        r is None ==> !node_has_free(old(st), n as int) && same_numa(final(st), old(st)),
        r is Some ==> r->0 % FRAME_SIZE == 0 && r->0 / FRAME_SIZE < MAX_FRAMES,
        r is Some ==> node_has_free(old(st), n as int) && final(st).nodes@[n as int] is Some
            && node_took(old(st).nodes@[n as int]->0, final(st).nodes@[n as int]->0, r->0),
        forall|i: int| 0 <= i < MAX_NUMA_NODES && i != n ==> #[trigger] final(st).nodes@[i] == old(st).nodes@[i],
{
    alloc_frame_node(st, n)
}

/// Allocates a frame by policy, through the node allocators when NUMA is
/// on and through the global allocator (for CPU `cpu`) otherwise. A node
/// that is unknown or exhausted passes the request on to the next node of
/// the policy's fallback order.
pub fn alloc_frame_policy(st: &mut NumaState, phys: &mut PhysAllocator, cpu: u32, apic: u32, policy: NumaPolicy) -> (r: Option<u64>)
    requires
        old(st).wf(),
        old(phys).wf(),
    ensures
        final(st).wf(),
        final(phys).wf(),
        final(st).topo == old(st).topo,
        final(st).enabled == old(st).enabled,
        !old(st).enabled ==> same_numa(final(st), old(st)),
        old(st).enabled ==> *final(phys) == *old(phys),
        !old(st).enabled ==> alloc_frame_post(*old(phys), *final(phys), cpu, r),
        old(st).enabled ==> final(st).interleave_counter == if policy is Interleave {
            old(st).interleave_counter.wrapping_add(1) } else { old(st).interleave_counter },
        old(st).enabled ==> (r is Some <==> policy_pick(old(st), policy, apic) is Some),
        old(st).enabled && r is None ==> final(st).nodes@ == old(st).nodes@,
        old(st).enabled && r is Some ==> ({
            let n = policy_pick(old(st), policy, apic)->0;
            &&& 0 <= n < MAX_NUMA_NODES
            &&& old(st).nodes@[n] is Some && final(st).nodes@[n] is Some
            &&& node_took(old(st).nodes@[n]->0, final(st).nodes@[n]->0, r->0)
            &&& forall|i: int| 0 <= i < MAX_NUMA_NODES && i != n ==> #[trigger] final(st).nodes@[i] == old(st).nodes@[i]
        }),
        old(st).enabled && r is Some ==> r->0 % FRAME_SIZE == 0 && r->0 / FRAME_SIZE < MAX_FRAMES,
        old(st).enabled && r is None ==> match policy {
            NumaPolicy::Bind(n) => !node_has_free(old(st), n as int),
            NumaPolicy::Interleave => forall|n: int| 0 <= n < old(st).topo->0.node_count ==> !#[trigger] node_has_free(old(st), n),
            NumaPolicy::Local => forall|n: int| 0 <= n < old(st).topo->0.node_count ==> !#[trigger] node_has_free(old(st), n),
            NumaPolicy::Preferred(p) => forall|n: int| 0 <= n < old(st).topo->0.node_count ==> !#[trigger] node_has_free(old(st), n),
        },
{
    if !st.enabled {
        return crate::memory::phys::alloc_frame(phys, cpu);
    }
    let node_count = node_count(st) as usize;
    let ghost s0 = *st;
    match policy {
        NumaPolicy::Bind(node) => try_node(st, node),
        NumaPolicy::Interleave => {
            let start = (st.interleave_counter as usize) % node_count;
            st.interleave_counter = st.interleave_counter.wrapping_add(1);
            let ghost s1 = *st;
            proof {
                assert forall|n: int| 0 <= n < MAX_NUMA_NODES implies node_has_free(&s1, n) == node_has_free(&s0, n) by {}
            }
            let mut i: usize = 0;
            while i < node_count
                invariant
                    st.wf(),
                    st.topo == s0.topo,
                    st.enabled,
                    s0.topo is Some,
                    node_count == s0.topo->0.node_count,
                    1 <= node_count <= MAX_NUMA_NODES,
                    start < node_count,
                    i <= node_count,
                    s0 == *old(st),
                    *phys == *old(phys),
                    old(phys).wf(),
                    old(st).enabled,
                    st.nodes@ == s0.nodes@,
                    st.interleave_counter == s0.interleave_counter.wrapping_add(1),
                    policy is Interleave,
                    start == s0.interleave_counter as int % node_count as int,
                    forall|k: int| 0 <= k < i ==> !#[trigger] node_has_free(&s0, ((start + k) % (node_count as int))),
                    interleave_pick(&s0, start as int, node_count as int, 0)
                        == interleave_pick(&s0, start as int, node_count as int, i as int),
                decreases node_count - i,
            {
                let n = (start + i) % node_count;
                let ghost sb = *st;
                proof {
                    assert(node_has_free(&sb, n as int) == node_has_free(&s0, n as int));
                }
                match try_node(st, n as u32) {
                    Some(p) => {
                        proof {
                            assert(forall|j: int| 0 <= j < MAX_NUMA_NODES && j != n ==> #[trigger] st.nodes@[j] == s0.nodes@[j]);
                        }
                        return Some(p);
                    },
                    None => {},
                }
                i = i + 1;
            }
            proof {
                assert forall|n: int| 0 <= n < node_count implies !#[trigger] node_has_free(&s0, n) by {
                    let k = if n >= start { n - start } else { n + node_count - start };
                    if n >= start {
                        vstd::arithmetic::div_mod::lemma_small_mod(n as nat, node_count as nat);
                    } else {
                        vstd::arithmetic::div_mod::lemma_mod_add_multiples_vanish(n, node_count as int);
                        vstd::arithmetic::div_mod::lemma_small_mod(n as nat, node_count as nat);
                    }
                    assert((start + k) % (node_count as int) == n);
                }
            }
            None
        },
        _ => {
            let first = match policy {
                NumaPolicy::Preferred(p) => if p == NUMA_NO_NODE { current_node(st, apic) } else { p },
                _ => current_node(st, apic),
            };
            let ghost sb = *st;
            match try_node(st, first) {
                Some(p) => return Some(p),
                None => {},
            }
            let mut n: usize = 0;
            while n < node_count
                invariant
                    st.wf(),
                    same_numa(st, &s0),
                    s0 == *old(st),
                    *phys == *old(phys),
                    old(phys).wf(),
                    old(st).enabled,
                    s0.topo is Some,
                    node_count == s0.topo->0.node_count,
                    node_count <= MAX_NUMA_NODES,
                    n <= node_count,
                    !node_has_free(&s0, first as int),
                    forall|k: int| 0 <= k < n ==> !#[trigger] node_has_free(&s0, k),
                    fallback_pick(&s0, first as int, 0, node_count as int)
                        == fallback_pick(&s0, first as int, n as int, node_count as int),
                    policy_pick(&s0, policy, apic) == first_then_any(&s0, first as int, node_count as int),
                    !(policy is Interleave),
                decreases node_count - n,
            {
                if n as u32 != first {
                    match try_node(st, n as u32) {
                        Some(p) => {
                            proof {
                                assert(forall|j: int| 0 <= j < MAX_NUMA_NODES && j != n ==> #[trigger] st.nodes@[j] == s0.nodes@[j]);
                            }
                            return Some(p);
                        },
                        None => {},
                    }
                }
                n = n + 1;
            }
            None
        },
    }
}

/// Returns a frame to the node its address belongs to, or to the global
/// allocator (for CPU `cpu`) when NUMA is off.
pub fn free_frame_node(st: &mut NumaState, phys: &mut PhysAllocator, cpu: u32, frame: u64)
    requires
        old(st).wf(),
        old(phys).wf(),
        frame / FRAME_SIZE < MAX_FRAMES,
        old(phys).buddy.free_frames + 64 <= usize::MAX,
        forall|i: int| 0 <= i < MAX_NUMA_NODES && (#[trigger] old(st).nodes@[i]) is Some ==>
            old(st).nodes@[i]->0.free < usize::MAX && old(st).nodes@[i]->0.buddy.free_frames < usize::MAX,
    ensures
        final(st).wf(),
        final(phys).wf(),
        final(st).topo == old(st).topo,
        final(st).enabled == old(st).enabled,
        !old(st).enabled ==> *final(st) == *old(st),
        old(st).enabled ==> *final(phys) == *old(phys) && ({
            let n = spec_phys_node(old(st).topo->0.mem_ranges@, frame, 0) as int;
            &&& forall|i: int| 0 <= i < MAX_NUMA_NODES && i != n ==> #[trigger] final(st).nodes@[i] == old(st).nodes@[i]
            &&& n < MAX_NUMA_NODES && old(st).nodes@[n] is Some ==> final(st).nodes@[n] is Some
                && final(st).nodes@[n]->0.free == old(st).nodes@[n]->0.free + 1
                && final(st).nodes@[n]->0.buddy.free_map() == after_free(old(st).nodes@[n]->0.buddy.free_map(), (frame / FRAME_SIZE) as int, 0)
        }),
{
    if !st.enabled {
        crate::memory::phys::free_frame(phys, cpu, frame);
        return;
    }
    let node = phys_node(st, frame);
    if node < MAX_NUMA_NODES as u32 {
        let n = node as usize;
        let slot = st.nodes.remove(n);
        match slot {
            Some(mut nb) => {
                proof {
                    vstd::arithmetic::power2::lemma2_to64();
                    assert(old(st).nodes@[n as int] == Some(nb));
                }
                nb.free_frame(frame, 0);
                proof {
                    assert((frame / FRAME_SIZE) as int / 1 == (frame / FRAME_SIZE) as int);
                }
                st.nodes.insert(n, Some(nb));
            },
            None => {
                st.nodes.insert(n, None);
            },
        }
        proof {
            assert forall|i: int| 0 <= i < MAX_NUMA_NODES && i != n implies #[trigger] st.nodes@[i] == old(st).nodes@[i] by {}
        }
    }
}

/// Frames the start-up walk gives to nodes: those of ranges that are not
/// hot-pluggable, first `k` ranges.
pub open spec fn range_frames(rs: Seq<NumaMemRange>, k: int) -> nat
    decreases k,
{
    if k <= 0 {
        0
    } else {
        let r = rs[k - 1];
        range_frames(rs, k - 1) + if r.hot_pluggable || r.node_id >= MAX_NUMA_NODES || r.end / FRAME_SIZE <= r.base / FRAME_SIZE {
            0nat
        } else {
            (r.end / FRAME_SIZE - r.base / FRAME_SIZE) as nat
        }
    }
}

/// Counters of every node allocator are at most `b`.
pub open spec fn counters_below(st: &NumaState, b: int) -> bool {
    forall|i: int| 0 <= i < MAX_NUMA_NODES && (#[trigger] st.nodes@[i]) is Some ==> {
        &&& st.nodes@[i]->0.free <= b
        &&& st.nodes@[i]->0.total <= b
        &&& st.nodes@[i]->0.buddy.free_frames <= b
    }
}

/// A node's free map after being given frames `f..last`: each frame from
/// 1 MiB up that the allocator can address is freed into it, in order.
pub open spec fn map_after_frames(m: FreeMap, f: int, last: int) -> FreeMap
    decreases last - f,
{
    if f >= last {
        m
    } else {
        map_after_frames(if f * FRAME_SIZE >= LOW_MEMORY_END && f < MAX_FRAMES { after_free(m, f, 0) } else { m },
            f + 1, last)
    }
}

/// How many of the frames `f..last` lie from 1 MiB up.
pub open spec fn frames_above_low(f: int, last: int) -> int
    decreases last - f,
{
    if f >= last { 0 } else { (if f * FRAME_SIZE >= LOW_MEMORY_END { 1int } else { 0int }) + frames_above_low(f + 1, last) }
}

/// Whether range `r` is handed to node `node` at start-up.
pub open spec fn range_feeds(r: NumaMemRange, node: int) -> bool {
    &&& !r.hot_pluggable
    &&& r.node_id == node
    &&& r.node_id < MAX_NUMA_NODES
    &&& r.base / FRAME_SIZE < r.end / FRAME_SIZE
}

/// Node `node`'s free map after the first `k` ranges, from `m`.
pub open spec fn node_map_after(rs: Seq<NumaMemRange>, k: int, node: int, m: FreeMap) -> FreeMap
    decreases k,
{
    if k <= 0 {
        m
    } else {
        let prev = node_map_after(rs, k - 1, node, m);
        let r = rs[k - 1];
        if range_feeds(r, node) { map_after_frames(prev, (r.base / FRAME_SIZE) as int, (r.end / FRAME_SIZE) as int) }
        else { prev }
    }
}

/// How many frames node `node` is given by the first `k` ranges.
pub open spec fn node_gain(rs: Seq<NumaMemRange>, k: int, node: int) -> int
    decreases k,
{
    if k <= 0 {
        0
    } else {
        let r = rs[k - 1];
        node_gain(rs, k - 1, node) + if range_feeds(r, node) {
            frames_above_low((r.base / FRAME_SIZE) as int, (r.end / FRAME_SIZE) as int) } else { 0 }
    }
}

/// Node `i` after start-up: present exactly when it was, its free map
/// after the ranges that feed it, and its counters up by the frames given.
pub open spec fn node_populated(o: Option<NodeBuddy>, n: Option<NodeBuddy>, rs: Seq<NumaMemRange>, k: int, i: int) -> bool {
    &&& (n is Some <==> o is Some)
    &&& o is Some ==> {
        &&& n->0.node_id == o->0.node_id
        &&& n->0.buddy.free_map() == node_map_after(rs, k, i, o->0.buddy.free_map())
        &&& n->0.total == o->0.total + node_gain(rs, k, i)
        &&& n->0.free == o->0.free + node_gain(rs, k, i)
    }
}

/// Gives every frame from 1 MiB up of every range that is not
/// hot-pluggable to the allocator of the range's node (NUMA on only).
pub fn populate_nodes(st: &mut NumaState)
    requires
        old(st).wf(),
        old(st).topo is Some ==> exists|b: int| counters_below(old(st), b)
            && b + range_frames(old(st).topo->0.mem_ranges@, old(st).topo->0.mem_ranges@.len() as int) < usize::MAX,
    ensures
        final(st).wf(),
        final(st).topo == old(st).topo,
        final(st).enabled == old(st).enabled,
        !old(st).enabled ==> same_numa(final(st), old(st)),
        old(st).enabled ==> final(st).interleave_counter == old(st).interleave_counter,
        old(st).enabled ==> forall|i: int| 0 <= i < MAX_NUMA_NODES ==> #[trigger] node_populated(old(st).nodes@[i],
            final(st).nodes@[i], old(st).topo->0.mem_ranges@, old(st).topo->0.mem_ranges@.len() as int, i),
{
    if !st.enabled {
        return;
    }
    let ghost old_nodes = st.nodes@;
    let topo = match st.topo.take() {
        Some(t) => t,
        None => return,
    };
    let ghost b = choose|b: int| counters_below(old(st), b)
        && b + range_frames(topo.mem_ranges@, topo.mem_ranges@.len() as int) < usize::MAX;
    let ghost total = range_frames(topo.mem_ranges@, topo.mem_ranges@.len() as int);
    proof {
        lemma_range_frames_mono(topo.mem_ranges@, topo.mem_ranges@.len() as int);
    }
    let mut k: usize = 0;
    while k < topo.mem_ranges.len()
        invariant
            st.nodes@.len() == MAX_NUMA_NODES,
            forall|i: int| 0 <= i < MAX_NUMA_NODES && (#[trigger] st.nodes@[i]) is Some ==> st.nodes@[i]->0.wf(),
            k <= topo.mem_ranges@.len(),
            b + total < usize::MAX,
            total == range_frames(topo.mem_ranges@, topo.mem_ranges@.len() as int),
            forall|j: int| 0 <= j <= topo.mem_ranges@.len() ==> #[trigger] range_frames(topo.mem_ranges@, j) <= total,
            counters_below(st, b + range_frames(topo.mem_ranges@, k as int)),
            st.enabled == old(st).enabled,
            st.interleave_counter == old(st).interleave_counter,
            st.topo is None,
            old_nodes == old(st).nodes@,
            forall|i: int| 0 <= i < MAX_NUMA_NODES ==> #[trigger] node_populated(old_nodes[i], st.nodes@[i],
                topo.mem_ranges@, k as int, i),
        decreases topo.mem_ranges@.len() - k,
    {
        let r = topo.mem_ranges[k];
        let node = r.node_id as usize;
        let first = r.base / FRAME_SIZE;
        let last = r.end / FRAME_SIZE;
        if !r.hot_pluggable && node < MAX_NUMA_NODES && first < last {
            let ghost pre = st.nodes@;
            assert(range_feeds(r, node as int));
            let slot = st.nodes.remove(node);
            match slot {
                Some(mut nb) => {
                    let ghost base = b + range_frames(topo.mem_ranges@, k as int);
                    proof {
                        assert(range_frames(topo.mem_ranges@, k + 1) == range_frames(topo.mem_ranges@, k as int) + (last - first));
                        assert(range_frames(topo.mem_ranges@, k + 1) <= total);
                    }
                    let ghost nb0 = nb;
                    let mut f = first;
                    while f < last
                        invariant
                            map_after_frames(nb.buddy.free_map(), f as int, last as int)
                                == map_after_frames(nb0.buddy.free_map(), first as int, last as int),
                            nb.total + frames_above_low(f as int, last as int) == nb0.total + frames_above_low(first as int, last as int),
                            nb.free + frames_above_low(f as int, last as int) == nb0.free + frames_above_low(first as int, last as int),
                            nb.node_id == nb0.node_id,
                            nb.wf(),
                            first <= f <= last,
                            last == r.end / FRAME_SIZE,
                            base + (last - first) + 1 <= usize::MAX,
                            nb.free <= base + (f - first),
                            nb.total <= base + (f - first),
                            nb.buddy.free_frames <= base + (f - first),
                        decreases last - f,
                    {
                        proof {
                            assert(f * 4096 <= r.end) by (nonlinear_arith)
                                requires f < last, last == r.end / 4096;
                        }
                        let phys = f * FRAME_SIZE;
                        proof {
                            assert(phys / FRAME_SIZE == f) by (nonlinear_arith)
                                requires phys == f * 4096;
                        }
                        if phys >= LOW_MEMORY_END {
                            nb.add_frame(phys);
                        }
                        f = f + 1;
                    }
                    st.nodes.insert(node, Some(nb));
                    proof {
                        assert(st.nodes@ =~= pre.update(node as int, Some(nb)));
                        assert(pre[node as int] == Some(nb0));
                        assert(nb.buddy.free_map() == map_after_frames(nb0.buddy.free_map(), first as int, last as int));
                        assert(node_populated(old_nodes[node as int], pre[node as int], topo.mem_ranges@, k as int, node as int));
                        assert forall|i: int| 0 <= i < MAX_NUMA_NODES implies #[trigger] node_populated(old_nodes[i],
                            st.nodes@[i], topo.mem_ranges@, k + 1, i) by {
                            assert(topo.mem_ranges@[k as int] == r);
                            assert(node_populated(old_nodes[i], pre[i], topo.mem_ranges@, k as int, i));
                            if i != node {
                                assert(!range_feeds(r, i));
                                assert(st.nodes@[i] == pre[i]);
                            }
                        }
                    }
                },
                None => {
                    st.nodes.insert(node, None);
                    proof {
                        assert(st.nodes@ =~= pre);
                        assert forall|i: int| 0 <= i < MAX_NUMA_NODES implies #[trigger] node_populated(old_nodes[i],
                            st.nodes@[i], topo.mem_ranges@, k + 1, i) by {
                            assert(topo.mem_ranges@[k as int] == r);
                            assert(node_populated(old_nodes[i], pre[i], topo.mem_ranges@, k as int, i));
                            if i != node {
                                assert(!range_feeds(r, i));
                                assert(st.nodes@[i] == pre[i]);
                            }
                        }
                    }
                },
            }
        } else {
            proof {
                assert forall|i: int| 0 <= i < MAX_NUMA_NODES implies #[trigger] node_populated(old_nodes[i],
                    st.nodes@[i], topo.mem_ranges@, k + 1, i) by {
                    assert(topo.mem_ranges@[k as int] == r);
                    assert(node_populated(old_nodes[i], st.nodes@[i], topo.mem_ranges@, k as int, i));
                    assert(!range_feeds(r, i));
                }
            }
        }
        proof {
            assert(range_frames(topo.mem_ranges@, k + 1) >= range_frames(topo.mem_ranges@, k as int));
        }
        k = k + 1;
    }
    st.topo = Some(topo);
}

proof fn lemma_range_frames_mono(rs: Seq<NumaMemRange>, n: int)
    requires
        0 <= n,
    ensures
        forall|j: int| 0 <= j <= n ==> #[trigger] range_frames(rs, j) <= range_frames(rs, n),
    decreases n,
{
    if n > 0 {
        lemma_range_frames_mono(rs, n - 1);
    }
}

} // verus!
