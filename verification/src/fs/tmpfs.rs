//! tmpfs: files held in memory. A file's contents are its bytes; reads
//! stop at the end, writes past the end fill the gap with zeros, and
//! truncation cuts or zero-extends.
use vstd::prelude::*;
use crate::errno::{VfsError, ENOENT, ENOTDIR, EISDIR, EINVAL, ENOTEMPTY};
use crate::table::NameTable;

verus! {

pub const TMPFS_PAGE_SIZE: usize = 4096;

/// The pages a file of `len` bytes occupies.
pub open spec fn required_pages(len: int) -> int {
    if len <= 0 { 0 } else { (len + TMPFS_PAGE_SIZE - 1) / TMPFS_PAGE_SIZE as int }
}

pub open spec fn zeros(n: nat) -> Seq<u8> {
    Seq::new(n, |i: int| 0u8)
}

/// The contents `c` after writing `data` at `off`: a gap past the end is
/// zero-filled first; an empty write changes nothing.
pub open spec fn written(c: Seq<u8>, off: int, data: Seq<u8>) -> Seq<u8> {
    if data.len() == 0 {
        c
    } else {
        let base = if off > c.len() { c + zeros((off - c.len()) as nat) } else { c };
        if off + data.len() >= base.len() {
            base.take(off) + data
        } else {
            base.take(off) + data + base.skip(off + data.len())
        }
    }
}

/// The contents `c` cut or zero-extended to `len` bytes.
pub open spec fn truncated(c: Seq<u8>, len: int) -> Seq<u8> {
    if len > c.len() { c + zeros((len - c.len()) as nat) } else { c.take(len) }
}

/// How many bytes a read of `want` bytes at `off` gets from `c`.
pub open spec fn read_len(c: Seq<u8>, off: int, want: int) -> int {
    if off >= c.len() { 0 } else if want < c.len() - off { want } else { c.len() - off }
}

/// A file of tmpfs.
pub struct TmpFile {
    pub data: Vec<u8>,
}

impl TmpFile {
    pub fn new() -> (r: TmpFile)
        ensures
            r.data@.len() == 0,
    {
        TmpFile { data: Vec::new() }
    }

    pub fn len(&self) -> (r: usize)
        ensures
            r == self.data@.len(),
    {
        self.data.len()
    }

    /// The pages the file occupies.
    pub fn page_count(&self) -> (r: usize)
        ensures
            r == required_pages(self.data@.len() as int),
    {
        let n = self.data.len();
        if n == 0 { 0 } else { n / TMPFS_PAGE_SIZE + if n % TMPFS_PAGE_SIZE == 0 { 0 } else { 1 } }
    }

    /// Reads from `offset` into `buf`: as many bytes as both hold; the rest
    /// of `buf` is left as it was.
    pub fn read(&self, offset: usize, buf: &mut [u8]) -> (n: usize)
        ensures
            n == read_len(self.data@, offset as int, old(buf)@.len() as int),
            final(buf)@.len() == old(buf)@.len(),
            forall|i: int| 0 <= i < n ==> #[trigger] final(buf)@[i] == self.data@[offset + i],
            final(buf)@.subrange(n as int, final(buf)@.len() as int) == old(buf)@.subrange(n as int, old(buf)@.len() as int),
    {
        let len = self.data.len();
        if offset >= len {
            return 0;
        }
        let total = if buf.len() < len - offset { buf.len() } else { len - offset };
        let mut k: usize = 0;
        while k < total
            invariant
                total <= buf@.len(),
                offset + total <= self.data@.len(),
                self.data@.len() <= usize::MAX,
                k <= total,
                buf@.len() == old(buf)@.len(),
                forall|i: int| 0 <= i < k ==> buf@[i] == self.data@[offset + i],
                forall|i: int| k <= i < buf@.len() ==> buf@[i] == old(buf)@[i],
            decreases total - k,
        {
            buf[k] = self.data[offset + k];
            k = k + 1;
        }
        assert(buf@.subrange(total as int, buf@.len() as int) =~= old(buf)@.subrange(total as int, old(buf)@.len() as int));
        total
    }

    /// Writes `data` at `offset`, zero-filling a gap past the end; returns
    /// the bytes written.
    pub fn write(&mut self, offset: usize, data: &[u8]) -> (r: Result<usize, VfsError>)
        requires
            offset + data@.len() <= usize::MAX,
        ensures
            r == Ok::<usize, VfsError>(data@.len() as usize),
            final(self).data@ == written(old(self).data@, offset as int, data@),
    {
        if data.len() == 0 {
            return Ok(0);
        }
        let ghost c = self.data@;
        while self.data.len() < offset
            invariant
                c.len() <= offset ==> self.data@ == c + zeros((self.data@.len() - c.len()) as nat),
                c.len() > offset ==> self.data@ == c,
                self.data@.len() >= c.len(),
                self.data@.len() <= offset || self.data@ == c,
            decreases offset - self.data@.len(),
        {
            let ghost before = self.data@;
            self.data.push(0u8);
            assert(self.data@ =~= c + zeros((self.data@.len() - c.len()) as nat));
        }
        let ghost base = self.data@;
        assert(base == if offset > c.len() { c + zeros((offset - c.len()) as nat) } else { c }) by {
            if offset > c.len() {
                assert(base.len() == offset);
            } else if c.len() <= offset {
                assert(base =~= c);
            }
        }
        let mut k: usize = 0;
        while k < data.len()
            invariant
                k <= data@.len(),
                offset + data@.len() <= usize::MAX,
                base.len() >= offset,
                self.data@.len() == if base.len() > offset + k { base.len() as int } else { offset + k },
                forall|i: int| 0 <= i < offset ==> #[trigger] self.data@[i] == base[i],
                forall|i: int| offset <= i < offset + k ==> #[trigger] self.data@[i] == data@[i - offset],
                forall|i: int| offset + k <= i < self.data@.len() ==> #[trigger] self.data@[i] == base[i],
            decreases data@.len() - k,
        {
            if offset + k < self.data.len() {
                self.data.set(offset + k, data[k]);
            } else {
                self.data.push(data[k]);
            }
            k = k + 1;
        }
        proof {
            if offset + data@.len() >= base.len() {
                assert(self.data@ =~= base.take(offset as int) + data@);
            } else {
                assert(self.data@ =~= base.take(offset as int) + data@ + base.skip(offset + data@.len()));
            }
        }
        Ok(data.len())
    }

    /// Cuts the file to `len` bytes, or extends it with zeros.
    pub fn truncate(&mut self, len: usize)
        ensures
            final(self).data@ == truncated(old(self).data@, len as int),
    {
        if len <= self.data.len() {
            self.data.truncate(len);
            assert(self.data@ =~= old(self).data@.take(len as int));
            return;
        }
        let ghost c = self.data@;
        while self.data.len() < len
            invariant
                c.len() < len,
                c.len() <= self.data@.len() <= len,
                self.data@ == c + zeros((self.data@.len() - c.len()) as nat),
            decreases len - self.data@.len(),
        {
            self.data.push(0u8);
            assert(self.data@ =~= c + zeros((self.data@.len() - c.len()) as nat));
        }
    }
}

/// What a write puts in a file is what a read there gets back.
pub proof fn law_read_after_write(c: Seq<u8>, off: int, data: Seq<u8>)
    requires
        0 <= off,
    ensures
        data.len() > 0 ==> read_len(written(c, off, data), off, data.len() as int) == data.len(),
        forall|i: int| 0 <= i < data.len() ==> #[trigger] written(c, off, data)[off + i] == data[i],
{
}

/// Truncation keeps the bytes below the new length and reads zeros in
/// what it added.
pub proof fn law_truncate(c: Seq<u8>, len: int)
    requires
        0 <= len,
    ensures
        truncated(c, len).len() == len,
        forall|i: int| 0 <= i < len && i < c.len() ==> #[trigger] truncated(c, len)[i] == c[i],
        forall|i: int| c.len() <= i < len ==> #[trigger] truncated(c, len)[i] == 0,
{
}

// ── The file system ──────────────────────────────────────────────────────

pub const S_IFREG: u32 = 0o100000;
pub const S_IFDIR: u32 = 0o040000;
pub const S_IFLNK: u32 = 0o120000;
pub const ROOT_INO: u64 = 1;

/// What a node holds.
pub enum NodeData {
    File(TmpFile),
    /// Entries: name to inode number.
    Dir(NameTable<u64>),
    /// The link's target.
    Symlink(Vec<u8>),
}

pub struct TmpNode {
    pub ino: u64,
    pub mode: u32,
    pub uid: u32,
    pub gid: u32,
    pub nlink: u32,
    pub data: NodeData,
}

/// What a node holds, as values.
pub enum KindV {
    File(Seq<u8>),
    Dir(Map<Seq<char>, u64>),
    Symlink(Seq<u8>),
}

/// A node as values.
pub struct NodeV {
    pub ino: u64,
    pub mode: u32,
    pub uid: u32,
    pub gid: u32,
    pub nlink: u32,
    pub kind: KindV,
}

pub open spec fn node_view(n: TmpNode) -> NodeV {
    NodeV {
        ino: n.ino,
        mode: n.mode,
        uid: n.uid,
        gid: n.gid,
        nlink: n.nlink,
        kind: match n.data {
            NodeData::File(f) => KindV::File(f.data@),
            NodeData::Dir(d) => KindV::Dir(d@),
            NodeData::Symlink(t) => KindV::Symlink(t@),
        },
    }
}

/// The first node from `i` on with inode number `ino`, or -1.
pub open spec fn find_from(s: Seq<NodeV>, ino: u64, i: int) -> int
    decreases s.len() - i,
{
    if i < 0 || i >= s.len() { -1 } else if s[i].ino == ino { i } else { find_from(s, ino, i + 1) }
}

/// The node with inode number `ino`, or -1.
pub open spec fn node_at(s: Seq<NodeV>, ino: u64) -> int {
    find_from(s, ino, 0)
}

pub proof fn lemma_find_from(s: Seq<NodeV>, ino: u64, i: int)
    requires
        0 <= i,
    ensures
        find_from(s, ino, i) == -1 || (i <= find_from(s, ino, i) < s.len() && s[find_from(s, ino, i)].ino == ino),
    decreases s.len() - i,
{
    if i < s.len() && s[i].ino != ino {
        lemma_find_from(s, ino, i + 1);
    }
}

/// Replacing a node by one with the same inode number leaves every
/// lookup by inode number where it was.
pub proof fn lemma_find_update(s: Seq<NodeV>, k: int, n: NodeV, ino: u64, i: int)
    requires
        0 <= k < s.len(),
        n.ino == s[k].ino,
        0 <= i,
    ensures
        find_from(s.update(k, n), ino, i) == find_from(s, ino, i),
    decreases s.len() - i,
{
    if i < s.len() && s[i].ino != ino {
        lemma_find_update(s, k, n, ino, i + 1);
    }
}

/// Node `k` with its contents replaced.
pub open spec fn with_kind(n: NodeV, kind: KindV) -> NodeV {
    NodeV { ino: n.ino, mode: n.mode, uid: n.uid, gid: n.gid, nlink: n.nlink, kind }
}

/// Node `n` with `nlink` links.
pub open spec fn with_nlink(n: NodeV, nlink: u32) -> NodeV {
    NodeV { ino: n.ino, mode: n.mode, uid: n.uid, gid: n.gid, nlink, kind: n.kind }
}

/// A tmpfs: its nodes, the root directory first, and the next inode
/// number to hand out.
pub struct TmpFs {
    pub nodes: Vec<TmpNode>,
    pub next_ino: u64,
}

impl TmpFs {
    pub open spec fn view(&self) -> Seq<NodeV> {
        self.nodes@.map_values(|n: TmpNode| node_view(n))
    }

    /// Every directory's entry table is well formed.
    pub open spec fn wf(&self) -> bool {
        forall|k: int| 0 <= k < self.nodes@.len() ==> (#[trigger] self.nodes@[k]).data is Dir
            ==> self.nodes@[k].data->Dir_0.wf()
    }

    /// An empty file system: the root directory (inode 1, mode 0755,
    /// two links) and inode numbers from 2.
    pub fn new() -> (r: TmpFs)
        ensures
            r.wf(),
            r.next_ino == 2,
            r@ == seq![NodeV { ino: ROOT_INO, mode: S_IFDIR | 0o755, uid: 0, gid: 0, nlink: 2,
                kind: KindV::Dir(Map::empty()) }],
    {
        let root = TmpNode { ino: ROOT_INO, mode: S_IFDIR | 0o755, uid: 0, gid: 0, nlink: 2,
            data: NodeData::Dir(NameTable::new()) };
        let mut nodes: Vec<TmpNode> = Vec::new();
        nodes.push(root);
        let r = TmpFs { nodes, next_ino: 2 };
        assert(r@ =~= seq![node_view(r.nodes@[0])]);
        r
    }

    /// The slot of the node with inode number `ino`.
    pub fn locate(&self, ino: u64) -> (r: Option<usize>)
        ensures
            r is None ==> node_at(self@, ino) == -1,
            r matches Some(k) ==> k == node_at(self@, ino) && k < self@.len() && self@[k as int].ino == ino,
    {
        let mut i: usize = 0;
        while i < self.nodes.len()
            invariant
                i <= self.nodes@.len(),
                self@.len() == self.nodes@.len(),
                node_at(self@, ino) == find_from(self@, ino, i as int),
            decreases self.nodes@.len() - i,
        {
            assert(self@[i as int].ino == self.nodes@[i as int].ino);
            if self.nodes[i].ino == ino {
                return Some(i);
            }
            i = i + 1;
        }
        None
    }

    /// Reads from `offset` of node `ino` into `buf`: a file gives what it
    /// holds there, a link the start of its target; the rest of `buf`
    /// stays as it was. `ENOENT` for no such node, `EISDIR` for a
    /// directory.
    pub fn read(&self, ino: u64, offset: usize, buf: &mut [u8]) -> (r: Result<usize, VfsError>)
        ensures
            final(buf)@.len() == old(buf)@.len(),
            ({
                let k = node_at(self@, ino);
                if k < 0 {
                    r == Err::<usize, VfsError>(ENOENT) && final(buf)@ == old(buf)@
                } else {
                    match self@[k].kind {
                        KindV::File(c) => {
                            let n = read_len(c, offset as int, old(buf)@.len() as int);
                            &&& r == Ok::<usize, VfsError>(n as usize)
                            &&& forall|i: int| 0 <= i < n ==> #[trigger] final(buf)@[i] == c[offset + i]
                            &&& final(buf)@.subrange(n, final(buf)@.len() as int)
                                == old(buf)@.subrange(n, old(buf)@.len() as int)
                        },
                        KindV::Symlink(t) => {
                            let n = if old(buf)@.len() < t.len() { old(buf)@.len() as int } else { t.len() as int };
                            &&& r == Ok::<usize, VfsError>(n as usize)
                            &&& final(buf)@ == t.take(n) + old(buf)@.skip(n)
                        },
                        KindV::Dir(_) => r == Err::<usize, VfsError>(EISDIR) && final(buf)@ == old(buf)@,
                    }
                }
            }),
    {
        let k = match self.locate(ino) {
            Some(k) => k,
            None => {
                return Err(ENOENT);
            },
        };
        match &self.nodes[k].data {
            NodeData::File(f) => Ok(f.read(offset, buf)),
            NodeData::Symlink(t) => {
                let n: usize = if buf.len() < t.len() { buf.len() } else { t.len() };
                let mut i: usize = 0;
                while i < n
                    invariant
                        n <= buf@.len(),
                        n <= t@.len(),
                        i <= n,
                        buf@.len() == old(buf)@.len(),
                        forall|j: int| 0 <= j < i ==> buf@[j] == t@[j],
                        forall|j: int| i <= j < buf@.len() ==> buf@[j] == old(buf)@[j],
                    decreases n - i,
                {
                    buf[i] = t[i];
                    i = i + 1;
                }
                assert(buf@ =~= t@.take(n as int) + old(buf)@.skip(n as int));
                Ok(n)
            },
            NodeData::Dir(_) => Err(EISDIR),
        }
    }

    /// Writes `data` at `offset` of node `ino`, which must be a file: the
    /// bytes written. `EINVAL` when the range overflows or for a link,
    /// `ENOENT` for no such node, `EISDIR` for a directory.
    pub fn write(&mut self, ino: u64, offset: usize, data: &[u8]) -> (r: Result<usize, VfsError>)
        requires
            old(self).wf(),
        ensures
            final(self).wf(),
            final(self).next_ino == old(self).next_ino,
            ({
                let s = old(self)@;
                let k = node_at(s, ino);
                if offset + data@.len() > usize::MAX {
                    r == Err::<usize, VfsError>(EINVAL) && final(self)@ == s
                } else if k < 0 {
                    r == Err::<usize, VfsError>(ENOENT) && final(self)@ == s
                } else {
                    match s[k].kind {
                        KindV::File(c) => r == Ok::<usize, VfsError>(data@.len() as usize)
                            && final(self)@ == s.update(k, with_kind(s[k], KindV::File(written(c, offset as int, data@)))),
                        KindV::Dir(_) => r == Err::<usize, VfsError>(EISDIR) && final(self)@ == s,
                        KindV::Symlink(_) => r == Err::<usize, VfsError>(EINVAL) && final(self)@ == s,
                    }
                }
            }),
    {
        if data.len() > usize::MAX - offset {
            return Err(EINVAL);
        }
        let k = match self.locate(ino) {
            Some(k) => k,
            None => {
                return Err(ENOENT);
            },
        };
        let tag: u8 = match &self.nodes[k].data {
            NodeData::File(_) => 0,
            NodeData::Dir(_) => 1,
            NodeData::Symlink(_) => 2,
        };
        if tag == 1 {
            return Err(EISDIR);
        }
        if tag == 2 {
            return Err(EINVAL);
        }
        let mut node = self.nodes.remove(k);
        let res = match &mut node.data {
            NodeData::File(f) => f.write(offset, data),
            _ => Err(EINVAL),
        };
        self.nodes.insert(k, node);
        proof {
            assert(self.nodes@ =~= old(self).nodes@.update(k as int, node));
            assert(self@ =~= old(self)@.update(k as int, node_view(node)));
        }
        res
    }

    /// Cuts or zero-extends the file `ino` to `size` bytes; `EINVAL` when
    /// there is no such file.
    pub fn truncate(&mut self, ino: u64, size: usize) -> (r: Result<(), VfsError>)
        requires
            old(self).wf(),
        ensures
            final(self).wf(),
            final(self).next_ino == old(self).next_ino,
            ({
                let s = old(self)@;
                let k = node_at(s, ino);
                if k >= 0 && s[k].kind is File {
                    r == Ok::<(), VfsError>(())
                        && final(self)@ == s.update(k, with_kind(s[k], KindV::File(truncated(s[k].kind->File_0, size as int))))
                } else {
                    r == Err::<(), VfsError>(EINVAL) && final(self)@ == s
                }
            }),
    {
        let k = match self.locate(ino) {
            Some(k) => k,
            None => {
                return Err(EINVAL);
            },
        };
        let is_file: bool = match &self.nodes[k].data {
            NodeData::File(_) => true,
            _ => false,
        };
        if !is_file {
            return Err(EINVAL);
        }
        let mut node = self.nodes.remove(k);
        match &mut node.data {
            NodeData::File(f) => f.truncate(size),
            _ => {},
        }
        self.nodes.insert(k, node);
        proof {
            assert(self.nodes@ =~= old(self).nodes@.update(k as int, node));
            assert(self@ =~= old(self)@.update(k as int, node_view(node)));
        }
        Ok(())
    }

    /// The inode number that `name` names in the directory `dir`:
    /// `ENOENT` for no such directory or name, `ENOTDIR` when `dir` is not
    /// a directory.
    pub fn lookup(&self, dir: u64, name: &str) -> (r: Result<u64, VfsError>)
        requires
            self.wf(),
        ensures
            ({
                let s = self@;
                let k = node_at(s, dir);
                if k < 0 {
                    r == Err::<u64, VfsError>(ENOENT)
                } else {
                    match s[k].kind {
                        KindV::Dir(d) => if d.contains_key(name@) {
                            r == Ok::<u64, VfsError>(d[name@])
                        } else {
                            r == Err::<u64, VfsError>(ENOENT)
                        },
                        _ => r == Err::<u64, VfsError>(ENOTDIR),
                    }
                }
            }),
    {
        let k = match self.locate(dir) {
            Some(k) => k,
            None => {
                return Err(ENOENT);
            },
        };
        match &self.nodes[k].data {
            NodeData::Dir(d) => match d.find(name) {
                Some(i) => Ok(*d.get(i)),
                None => Err(ENOENT),
            },
            _ => Err(ENOTDIR),
        }
    }

    /// Adds the new node `node` (a file or an empty directory), numbered
    /// with the next inode number, and enters it under `name` in the
    /// directory `dir`, replacing an entry of that name. The node is added
    /// whether or not `dir` is a directory: `ENOENT` for no such node,
    /// `ENOTDIR` when it is not a directory.
    fn add_node(&mut self, dir: u64, name: &str, node: TmpNode) -> (r: Result<u64, VfsError>)
        requires
            old(self).wf(),
            old(self).next_ino < u64::MAX,
            node.ino == old(self).next_ino,
            node.data is Dir ==> node.data->Dir_0.wf(),
        ensures
            final(self).wf(),
            final(self).next_ino == old(self).next_ino + 1,
            ({
                let ino = old(self).next_ino;
                let s1 = old(self)@.push(node_view(node));
                let k = node_at(s1, dir);
                if k < 0 {
                    r == Err::<u64, VfsError>(ENOENT) && final(self)@ == s1
                } else {
                    match s1[k].kind {
                        KindV::Dir(d) => r == Ok::<u64, VfsError>(ino)
                            && final(self)@ == s1.update(k, with_kind(s1[k], KindV::Dir(d.insert(name@, ino)))),
                        _ => r == Err::<u64, VfsError>(ENOTDIR) && final(self)@ == s1,
                    }
                }
            }),
    {
        let ino = self.next_ino;
        self.next_ino = ino + 1;
        self.nodes.push(node);
        proof {
            assert(self@ =~= old(self)@.push(node_view(node)));
        }
        let k = match self.locate(dir) {
            Some(k) => k,
            None => {
                return Err(ENOENT);
            },
        };
        let is_dir: bool = match &self.nodes[k].data {
            NodeData::Dir(_) => true,
            _ => false,
        };
        if !is_dir {
            return Err(ENOTDIR);
        }
        let ghost before = self.nodes@;
        let mut parent = self.nodes.remove(k);
        assert(parent.data->Dir_0.wf());
        match &mut parent.data {
            NodeData::Dir(d) => set_entry(d, name, ino),
            _ => {},
        }
        self.nodes.insert(k, parent);
        proof {
            assert(self.nodes@ =~= before.update(k as int, parent));
            assert(self@ =~= before.map_values(|n: TmpNode| node_view(n)).update(k as int, node_view(parent)));
        }
        Ok(ino)
    }

    /// Creates a file under `name` in the directory `dir`: mode `S_IFREG`
    /// with the permission bits of `mode`, owned by `uid`/`gid`, one link,
    /// empty; its inode number. See `add_node` for the errors.
    pub fn create(&mut self, dir: u64, name: &str, mode: u32, uid: u32, gid: u32) -> (r: Result<u64, VfsError>)
        requires
            old(self).wf(),
            old(self).next_ino < u64::MAX,
        ensures
            final(self).wf(),
            final(self).next_ino == old(self).next_ino + 1,
            ({
                let ino = old(self).next_ino;
                let fresh = NodeV { ino, mode: S_IFREG | (mode & 0o777), uid, gid, nlink: 1, kind: KindV::File(Seq::empty()) };
                let s1 = old(self)@.push(fresh);
                let k = node_at(s1, dir);
                if k < 0 {
                    r == Err::<u64, VfsError>(ENOENT) && final(self)@ == s1
                } else {
                    match s1[k].kind {
                        KindV::Dir(d) => r == Ok::<u64, VfsError>(ino)
                            && final(self)@ == s1.update(k, with_kind(s1[k], KindV::Dir(d.insert(name@, ino)))),
                        _ => r == Err::<u64, VfsError>(ENOTDIR) && final(self)@ == s1,
                    }
                }
            }),
    {
        let node = TmpNode { ino: self.next_ino, mode: S_IFREG | (mode & 0o777), uid, gid, nlink: 1,
            data: NodeData::File(TmpFile::new()) };
        assert(node.data->File_0.data@ =~= Seq::<u8>::empty());
        assert(node_view(node).kind == KindV::File(Seq::<u8>::empty()));
        self.add_node(dir, name, node)
    }

    /// Creates an empty directory under `name` in the directory `dir`:
    /// mode `S_IFDIR` with the permission bits of `mode`, two links; its
    /// inode number. See `add_node` for the errors.
    pub fn mkdir(&mut self, dir: u64, name: &str, mode: u32, uid: u32, gid: u32) -> (r: Result<u64, VfsError>)
        requires
            old(self).wf(),
            old(self).next_ino < u64::MAX,
        ensures
            final(self).wf(),
            final(self).next_ino == old(self).next_ino + 1,
            ({
                let ino = old(self).next_ino;
                let fresh = NodeV { ino, mode: S_IFDIR | (mode & 0o777), uid, gid, nlink: 2, kind: KindV::Dir(Map::empty()) };
                let s1 = old(self)@.push(fresh);
                let k = node_at(s1, dir);
                if k < 0 {
                    r == Err::<u64, VfsError>(ENOENT) && final(self)@ == s1
                } else {
                    match s1[k].kind {
                        KindV::Dir(d) => r == Ok::<u64, VfsError>(ino)
                            && final(self)@ == s1.update(k, with_kind(s1[k], KindV::Dir(d.insert(name@, ino)))),
                        _ => r == Err::<u64, VfsError>(ENOTDIR) && final(self)@ == s1,
                    }
                }
            }),
    {
        let node = TmpNode { ino: self.next_ino, mode: S_IFDIR | (mode & 0o777), uid, gid, nlink: 2,
            data: NodeData::Dir(NameTable::new()) };
        self.add_node(dir, name, node)
    }

    /// Removes the entry `name` of the directory `dir`, which must not name
    /// a directory, and drops a link of the node it names; a node left
    /// without links is gone. `ENOENT` for no such directory, name or
    /// node, `ENOTDIR` when `dir` is not a directory, `EISDIR` when `name`
    /// names one.
    pub fn unlink(&mut self, dir: u64, name: &str) -> (r: Result<(), VfsError>)
        requires
            old(self).wf(),
        ensures
            final(self).wf(),
            final(self).next_ino == old(self).next_ino,
            ({
                let s = old(self)@;
                let k = node_at(s, dir);
                if k < 0 {
                    r == Err::<(), VfsError>(ENOENT) && final(self)@ == s
                } else {
                    match s[k].kind {
                        KindV::Dir(d) => if !d.contains_key(name@) {
                            r == Err::<(), VfsError>(ENOENT) && final(self)@ == s
                        } else {
                            let c = node_at(s, d[name@]);
                            if c < 0 {
                                r == Err::<(), VfsError>(ENOENT) && final(self)@ == s
                            } else if s[c].kind is Dir {
                                r == Err::<(), VfsError>(EISDIR) && final(self)@ == s
                            } else {
                                let nl: u32 = if s[c].nlink > 0 { (s[c].nlink - 1) as u32 } else { 0 };
                                let s2 = s.update(k, with_kind(s[k], KindV::Dir(d.remove(name@)))).update(c, with_nlink(s[c], nl));
                                r == Ok::<(), VfsError>(()) && final(self)@ == if nl == 0 { s2.remove(c) } else { s2 }
                            }
                        },
                        _ => r == Err::<(), VfsError>(ENOTDIR) && final(self)@ == s,
                    }
                }
            }),
    {
        let k = match self.locate(dir) {
            Some(k) => k,
            None => {
                return Err(ENOENT);
            },
        };
        let (i, child) = match &self.nodes[k].data {
            NodeData::Dir(d) => match d.find(name) {
                Some(i) => (i, *d.get(i)),
                None => {
                    return Err(ENOENT);
                },
            },
            _ => {
                return Err(ENOTDIR);
            },
        };
        let c = match self.locate(child) {
            Some(c) => c,
            None => {
                return Err(ENOENT);
            },
        };
        let child_is_dir: bool = match &self.nodes[c].data {
            NodeData::Dir(_) => true,
            _ => false,
        };
        if child_is_dir {
            return Err(EISDIR);
        }
        let ghost s0 = self.nodes@;
        let mut parent = self.nodes.remove(k);
        match &mut parent.data {
            NodeData::Dir(d) => {
                let _ = d.remove_at(i);
            },
            _ => {},
        }
        self.nodes.insert(k, parent);
        let ghost s1 = self.nodes@;
        assert(s1 =~= s0.update(k as int, parent));
        let mut ch = self.nodes.remove(c);
        assert(ch == s0[c as int]);
        if ch.nlink > 0 {
            ch.nlink = ch.nlink - 1;
        }
        if ch.nlink != 0 {
            self.nodes.insert(c, ch);
            proof {
                assert(self.nodes@ =~= s1.update(c as int, ch));
                assert(self@ =~= old(self)@.update(k as int, node_view(parent)).update(c as int, node_view(ch)));
            }
        } else {
            proof {
                assert(self.nodes@ =~= s1.remove(c as int));
                assert(self@ =~= old(self)@.update(k as int, node_view(parent)).update(c as int, node_view(ch)).remove(c as int));
            }
        }
        Ok(())
    }

    /// Removes the empty directory `name` of the directory `dir`.
    /// `ENOENT` for no such directory, name or node, `ENOTDIR` when `dir`
    /// is not a directory or `name` does not name one, `ENOTEMPTY` when
    /// it has entries.
    pub fn rmdir(&mut self, dir: u64, name: &str) -> (r: Result<(), VfsError>)
        requires
            old(self).wf(),
        ensures
            final(self).wf(),
            final(self).next_ino == old(self).next_ino,
            ({
                let s = old(self)@;
                let k = node_at(s, dir);
                if k < 0 {
                    r == Err::<(), VfsError>(ENOENT) && final(self)@ == s
                } else {
                    match s[k].kind {
                        KindV::Dir(d) => if !d.contains_key(name@) {
                            r == Err::<(), VfsError>(ENOENT) && final(self)@ == s
                        } else {
                            let c = node_at(s, d[name@]);
                            if c < 0 {
                                r == Err::<(), VfsError>(ENOENT) && final(self)@ == s
                            } else {
                                match s[c].kind {
                                    KindV::Dir(cd) => if cd != Map::<Seq<char>, u64>::empty() {
                                        r == Err::<(), VfsError>(ENOTEMPTY) && final(self)@ == s
                                    } else {
                                        r == Ok::<(), VfsError>(()) && final(self)@
                                            == s.update(k, with_kind(s[k], KindV::Dir(d.remove(name@)))).remove(c)
                                    },
                                    _ => r == Err::<(), VfsError>(ENOTDIR) && final(self)@ == s,
                                }
                            }
                        },
                        _ => r == Err::<(), VfsError>(ENOTDIR) && final(self)@ == s,
                    }
                }
            }),
    {
        let k = match self.locate(dir) {
            Some(k) => k,
            None => {
                return Err(ENOENT);
            },
        };
        let (i, child) = match &self.nodes[k].data {
            NodeData::Dir(d) => match d.find(name) {
                Some(i) => (i, *d.get(i)),
                None => {
                    return Err(ENOENT);
                },
            },
            _ => {
                return Err(ENOTDIR);
            },
        };
        let c = match self.locate(child) {
            Some(c) => c,
            None => {
                return Err(ENOENT);
            },
        };
        match &self.nodes[c].data {
            NodeData::Dir(cd) => {
                if cd.count() != 0 {
                    return Err(ENOTEMPTY);
                }
            },
            _ => {
                return Err(ENOTDIR);
            },
        }
        let ghost s0 = self.nodes@;
        let mut parent = self.nodes.remove(k);
        match &mut parent.data {
            NodeData::Dir(d) => {
                let _ = d.remove_at(i);
            },
            _ => {},
        }
        self.nodes.insert(k, parent);
        let ghost s1 = self.nodes@;
        assert(s1 =~= s0.update(k as int, parent));
        let _gone = self.nodes.remove(c);
        proof {
            assert(self.nodes@ =~= s1.remove(c as int));
            assert(self@ =~= old(self)@.update(k as int, node_view(parent)).remove(c as int));
        }
        Ok(())
    }

    /// Creates a symbolic link to `target` under `name` in the directory
    /// `dir`: mode `S_IFLNK` with all permission bits, one link; its inode
    /// number. See `add_node` for the errors.
    pub fn symlink(&mut self, dir: u64, name: &str, target: &[u8], uid: u32, gid: u32) -> (r: Result<u64, VfsError>)
        requires
            old(self).wf(),
            old(self).next_ino < u64::MAX,
        ensures
            final(self).wf(),
            final(self).next_ino == old(self).next_ino + 1,
            ({
                let ino = old(self).next_ino;
                let fresh = NodeV { ino, mode: S_IFLNK | 0o777, uid, gid, nlink: 1, kind: KindV::Symlink(target@) };
                let s1 = old(self)@.push(fresh);
                let k = node_at(s1, dir);
                if k < 0 {
                    r == Err::<u64, VfsError>(ENOENT) && final(self)@ == s1
                } else {
                    match s1[k].kind {
                        KindV::Dir(d) => r == Ok::<u64, VfsError>(ino)
                            && final(self)@ == s1.update(k, with_kind(s1[k], KindV::Dir(d.insert(name@, ino)))),
                        _ => r == Err::<u64, VfsError>(ENOTDIR) && final(self)@ == s1,
                    }
                }
            }),
    {
        let t = crate::bytes::copy_bytes(target, 0, target.len());
        assert(t@ =~= target@);
        let node = TmpNode { ino: self.next_ino, mode: S_IFLNK | 0o777, uid, gid, nlink: 1, data: NodeData::Symlink(t) };
        self.add_node(dir, name, node)
    }

    /// The target of the link `ino`; `ENOENT` for no such node, `EINVAL`
    /// for one that is not a link.
    pub fn readlink(&self, ino: u64) -> (r: Result<Vec<u8>, VfsError>)
        ensures
            ({
                let k = node_at(self@, ino);
                if k >= 0 && self@[k].kind is Symlink {
                    r is Ok && r->Ok_0@ == self@[k].kind->Symlink_0
                } else if k < 0 {
                    r == Err::<Vec<u8>, VfsError>(ENOENT)
                } else {
                    r == Err::<Vec<u8>, VfsError>(EINVAL)
                }
            }),
    {
        let k = match self.locate(ino) {
            Some(k) => k,
            None => {
                return Err(ENOENT);
            },
        };
        match &self.nodes[k].data {
            NodeData::Symlink(t) => Ok(crate::bytes::copy_bytes(t.as_slice(), 0, t.len())),
            _ => Err(EINVAL),
        }
    }

    /// Moves the entry `old_name` of the directory `dir` to `new_name` in
    /// the directory `new_dir`, replacing an entry of that name. The entry
    /// is removed before `new_dir` is looked at: `ENOENT` for no such
    /// directory or name, `ENOTDIR` for a node that is not a directory.
    pub fn rename(&mut self, dir: u64, old_name: &str, new_dir: u64, new_name: &str) -> (r: Result<(), VfsError>)
        requires
            old(self).wf(),
        ensures
            final(self).wf(),
            final(self).next_ino == old(self).next_ino,
            ({
                let s = old(self)@;
                let k = node_at(s, dir);
                if k < 0 {
                    r == Err::<(), VfsError>(ENOENT) && final(self)@ == s
                } else {
                    match s[k].kind {
                        KindV::Dir(d) => if !d.contains_key(old_name@) {
                            r == Err::<(), VfsError>(ENOENT) && final(self)@ == s
                        } else {
                            let child = d[old_name@];
                            let s1 = s.update(k, with_kind(s[k], KindV::Dir(d.remove(old_name@))));
                            let k2 = node_at(s1, new_dir);
                            if k2 < 0 {
                                r == Err::<(), VfsError>(ENOENT) && final(self)@ == s1
                            } else {
                                match s1[k2].kind {
                                    KindV::Dir(d2) => r == Ok::<(), VfsError>(())
                                        && final(self)@ == s1.update(k2, with_kind(s1[k2], KindV::Dir(d2.insert(new_name@, child)))),
                                    _ => r == Err::<(), VfsError>(ENOTDIR) && final(self)@ == s1,
                                }
                            }
                        },
                        _ => r == Err::<(), VfsError>(ENOTDIR) && final(self)@ == s,
                    }
                }
            }),
    {
        let k = match self.locate(dir) {
            Some(k) => k,
            None => {
                return Err(ENOENT);
            },
        };
        let (i, child) = match &self.nodes[k].data {
            NodeData::Dir(d) => match d.find(old_name) {
                Some(i) => (i, *d.get(i)),
                None => {
                    return Err(ENOENT);
                },
            },
            _ => {
                return Err(ENOTDIR);
            },
        };
        let ghost s0 = self.nodes@;
        let mut parent = self.nodes.remove(k);
        match &mut parent.data {
            NodeData::Dir(d) => {
                let _ = d.remove_at(i);
            },
            _ => {},
        }
        self.nodes.insert(k, parent);
        proof {
            assert(self.nodes@ =~= s0.update(k as int, parent));
            assert(self@ =~= old(self)@.update(k as int, node_view(parent)));
        }
        let k2 = match self.locate(new_dir) {
            Some(k2) => k2,
            None => {
                return Err(ENOENT);
            },
        };
        let is_dir: bool = match &self.nodes[k2].data {
            NodeData::Dir(_) => true,
            _ => false,
        };
        if !is_dir {
            return Err(ENOTDIR);
        }
        let ghost s1 = self.nodes@;
        let mut target = self.nodes.remove(k2);
        match &mut target.data {
            NodeData::Dir(d2) => set_entry(d2, new_name, child),
            _ => {},
        }
        self.nodes.insert(k2, target);
        proof {
            assert(self.nodes@ =~= s1.update(k2 as int, target));
            assert(self@ =~= s1.map_values(|n: TmpNode| node_view(n)).update(k2 as int, node_view(target)));
        }
        Ok(())
    }
}

/// Enters `name` for `ino` in the directory table `d`, replacing an entry
/// of that name.
fn set_entry(d: &mut NameTable<u64>, name: &str, ino: u64)
    requires
        old(d).wf(),
    ensures
        final(d).wf(),
        final(d)@ == old(d)@.insert(name@, ino),
{
    match d.find(name) {
        Some(i) => {
            let ghost od = *d;
            let v = d.get_mut(i);
            *v = ino;
            proof {
                NameTable::lemma_view_update(&od, &*d, i as int);
            }
        },
        None => d.insert_new(name, ino),
    }
}

/// What a write gives is what a read at the same place gets back: after
/// a write of `data` at `off` to the file `ino` (as `TmpFs::write`
/// leaves the nodes `s`), the node still answers to `ino` and holds
/// `data` at `off`.
pub proof fn law_tmpfs_read_after_write(s: Seq<NodeV>, ino: u64, off: int, data: Seq<u8>)
    requires
        0 <= off,
        node_at(s, ino) >= 0,
        s[node_at(s, ino)].kind is File,
    ensures
        ({
            let k = node_at(s, ino);
            let s2 = s.update(k, with_kind(s[k], KindV::File(written(s[k].kind->File_0, off, data))));
            &&& node_at(s2, ino) == k
            &&& forall|i: int| 0 <= i < data.len() ==> #[trigger] s2[k].kind->File_0[off + i] == data[i]
        }),
{
    let k = node_at(s, ino);
    lemma_find_from(s, ino, 0);
    lemma_find_update(s, k, with_kind(s[k], KindV::File(written(s[k].kind->File_0, off, data))), ino, 0);
    law_read_after_write(s[k].kind->File_0, off, data);
}

/// A name just entered in a directory is found there: after
/// `TmpFs::create` or `TmpFs::mkdir` adds `fresh` and enters it under
/// `name` in `dir` (leaving the nodes `s2`), `dir` is where it was and
/// `name` names the new inode.
pub proof fn law_lookup_after_create(s: Seq<NodeV>, fresh: NodeV, dir: u64, name: Seq<char>)
    requires
        node_at(s.push(fresh), dir) >= 0,
        s.push(fresh)[node_at(s.push(fresh), dir)].kind is Dir,
    ensures
        ({
            let s1 = s.push(fresh);
            let k = node_at(s1, dir);
            let d = s1[k].kind->Dir_0;
            let s2 = s1.update(k, with_kind(s1[k], KindV::Dir(d.insert(name, fresh.ino))));
            &&& node_at(s2, dir) == k
            &&& s2[k].kind->Dir_0.contains_key(name)
            &&& s2[k].kind->Dir_0[name] == fresh.ino
        }),
{
    let s1 = s.push(fresh);
    let k = node_at(s1, dir);
    lemma_find_from(s1, dir, 0);
    let d = s1[k].kind->Dir_0;
    lemma_find_update(s1, k, with_kind(s1[k], KindV::Dir(d.insert(name, fresh.ino))), dir, 0);
}

} // verus!
