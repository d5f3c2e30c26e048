//! ELF64 executables: header and program-header parsing, and the plan of
//! how the loadable segments are laid out in a user address space.
use vstd::prelude::*;
use crate::bytes::{read_u16_le, read_u32_le, read_u64_le, spec_u16_le, spec_u32_le, spec_u64_le};
use crate::errno::{EINVAL};
use crate::memory::vmm::{Prot, PROT_READ, PROT_WRITE, PROT_EXEC};
use crate::arch::paging::{PageFlags, PAGE_SIZE};

verus! {

pub const ELFCLASS64: u8 = 2;
pub const ELFDATA2LSB: u8 = 1;
pub const ET_EXEC: u16 = 2;
pub const ET_DYN: u16 = 3;
pub const EM_X86_64: u16 = 0x3E;
pub const PT_NULL: u32 = 0;
pub const PT_LOAD: u32 = 1;
pub const PT_DYNAMIC: u32 = 2;
pub const PT_INTERP: u32 = 3;
pub const PT_NOTE: u32 = 4;
pub const PT_PHDR: u32 = 6;
pub const PT_TLS: u32 = 7;
pub const PT_GNU_STACK: u32 = 0x6474e551;
pub const PF_X: u32 = 1;
pub const PF_W: u32 = 2;
pub const PF_R: u32 = 4;
pub const USER_STACK_SIZE: u64 = 8 * 1024 * 1024;
pub const USER_STACK_TOP: u64 = 0x0000_7FFF_FFFF_0000;
pub const INTERP_BASE: u64 = 0x0000_7FFF_0000_0000;
pub const PIE_BASE: u64 = 0x0000_4000_0000_0000;
pub const PIE_WITH_INTERP_BASE: u64 = 0x0000_5000_0000_0000;
pub const USER_SPACE_END: u64 = 0x0000_7FFF_FFFF_FFFF;
pub const MMAP_BASE: u64 = 0x0000_4000_0000_0000;

/// The fields of an ELF64 header that the loader uses.
pub struct ElfHeader {
    pub e_type: u16,
    pub e_entry: u64,
    pub e_phoff: u64,
    pub e_phentsize: u16,
    pub e_phnum: u16,
    pub e_shoff: u64,
}

/// The header of `d`, if `d` is a 64-bit little-endian x86-64 ELF file of
/// version 1 whose program headers, if any, are at least 56 bytes each.
pub open spec fn spec_parse_header(d: Seq<u8>) -> Option<ElfHeader> {
    if d.len() < 64 || d[0] != 0x7f || d[1] != 0x45 || d[2] != 0x4c || d[3] != 0x46
        || d[4] != ELFCLASS64 || d[5] != ELFDATA2LSB || d[6] != 1
        || spec_u16_le(d, 18) != EM_X86_64 || spec_u32_le(d, 20) != 1
        || (spec_u16_le(d, 56) > 0 && spec_u16_le(d, 54) < 56) {
        None
    } else {
        Some(ElfHeader {
            e_type: spec_u16_le(d, 16),
            e_entry: spec_u64_le(d, 24),
            e_phoff: spec_u64_le(d, 32),
            e_phentsize: spec_u16_le(d, 54),
            e_phnum: spec_u16_le(d, 56),
            e_shoff: spec_u64_le(d, 40),
        })
    }
}

/// Parses and checks an ELF64 header.
pub fn parse_elf64_header(data: &[u8]) -> (r: Option<ElfHeader>)
    ensures
        r == spec_parse_header(data@),
{
    if data.len() < 64 {
        return None;
    }
    if data[0] != 0x7f || data[1] != 0x45 || data[2] != 0x4c || data[3] != 0x46 {
        return None;
    }
    if data[4] != ELFCLASS64 {
        return None;
    }
    if data[5] != ELFDATA2LSB {
        return None;
    }
    if data[6] != 1 {
        return None;
    }
    let e_machine = read_u16_le(data, 18);
    if e_machine != EM_X86_64 {
        return None;
    }
    let e_version = read_u32_le(data, 20);
    if e_version != 1 {
        return None;
    }
    let e_type = read_u16_le(data, 16);
    let e_entry = read_u64_le(data, 24);
    let e_phoff = read_u64_le(data, 32);
    let e_phentsize = read_u16_le(data, 54);
    let e_phnum = read_u16_le(data, 56);
    let e_shoff = read_u64_le(data, 40);
    if e_phnum > 0 && e_phentsize < 56 {
        return None;
    }
    Some(ElfHeader { e_type, e_entry, e_phoff, e_phentsize, e_phnum, e_shoff })
}

/// One program header.
pub struct PhSegment {
    pub p_type: u32,
    pub p_flags: u32,
    pub p_offset: u64,
    pub p_vaddr: u64,
    pub p_paddr: u64,
    pub p_filesz: u64,
    pub p_memsz: u64,
    pub p_align: u64,
}

pub open spec fn spec_parse_phdr(d: Seq<u8>, off: int) -> Option<PhSegment> {
    if off + 56 > d.len() {
        None
    } else {
        Some(PhSegment {
            p_type: spec_u32_le(d, off),
            p_flags: spec_u32_le(d, off + 4),
            p_offset: spec_u64_le(d, off + 8),
            p_vaddr: spec_u64_le(d, off + 16),
            p_paddr: spec_u64_le(d, off + 24),
            p_filesz: spec_u64_le(d, off + 32),
            p_memsz: spec_u64_le(d, off + 40),
            p_align: spec_u64_le(d, off + 48),
        })
    }
}

/// Parses the 56-byte program header at `off`, if the buffer holds it.
pub fn parse_phdr(data: &[u8], off: usize) -> (r: Option<PhSegment>)
    ensures
        r == spec_parse_phdr(data@, off as int),
{
    let len = data.len();
    if off > len || len - off < 56 {
        return None;
    }
    Some(PhSegment {
        p_type: read_u32_le(data, off),
        p_flags: read_u32_le(data, off + 4),
        p_offset: read_u64_le(data, off + 8),
        p_vaddr: read_u64_le(data, off + 16),
        p_paddr: read_u64_le(data, off + 24),
        p_filesz: read_u64_le(data, off + 32),
        p_memsz: read_u64_le(data, off + 40),
        p_align: read_u64_le(data, off + 48),
    })
}

/// An ELF image held in memory.
pub struct SliceSource<'a> {
    pub data: &'a [u8],
}

impl<'a> SliceSource<'a> {
    pub fn len(&self) -> (r: u64)
        ensures
            r == self.data@.len(),
            self.data@.len() <= usize::MAX,
    {
        self.data.len() as u64
    }

    /// Copies `buf.len()` bytes from `offset`; `EINVAL` when they are not
    /// all inside the image.
    pub fn read_exact(&self, offset: u64, buf: &mut [u8]) -> (r: Result<(), u32>)
        ensures
            final(buf)@.len() == old(buf)@.len(),
            offset + old(buf)@.len() <= self.data@.len() ==> r is Ok
                && final(buf)@ == self.data@.subrange(offset as int, offset + old(buf)@.len()),
            !(offset + old(buf)@.len() <= self.data@.len()) ==> r == Err::<(), u32>(EINVAL as u32)
                && final(buf)@ == old(buf)@,
    {
        let len = self.data.len();
        let n = buf.len();
        if offset > len as u64 || (len as u64 - offset) < n as u64 {
            return Err(EINVAL as u32);
        }
        let start = offset as usize;
        let mut i: usize = 0;
        while i < n
            invariant
                len == self.data@.len(),
                i <= n,
                n == buf@.len(),
                n == old(buf)@.len(),
                start + n <= self.data@.len(),
                start == offset,
                forall|k: int| 0 <= k < i ==> buf@[k] == self.data@[start + k],
            decreases n - i,
        {
            buf[i] = self.data[start + i];
            i = i + 1;
        }
        assert(buf@ =~= self.data@.subrange(offset as int, offset + old(buf)@.len()));
        Ok(())
    }
}

/// Reads `len` bytes at `offset` of the image into a new vector.
pub fn read_small_vec(source: &SliceSource, offset: u64, len: usize) -> (r: Result<Vec<u8>, u32>)
    ensures
        offset + len <= source.data@.len() ==> r is Ok
            && r->Ok_0@ == source.data@.subrange(offset as int, offset + len),
        !(offset + len <= source.data@.len()) ==> r == Err::<Vec<u8>, u32>(EINVAL as u32),
{
    let total = source.len();
    if offset > u64::MAX - len as u64 {
        return Err(EINVAL as u32);
    }
    let end = offset + len as u64;
    if end > total {
        return Err(EINVAL as u32);
    }
    let mut buf: Vec<u8> = vec![0u8; len];
    let res = source.read_exact(offset, buf.as_mut_slice());
    match res {
        Ok(()) => Ok(buf),
        Err(e) => Err(e),
    }
}

/// The program headers named by the header fields, parsed from the image.
pub fn load_phdrs(source: &SliceSource, e_phoff: u64, e_phentsize: u16, e_phnum: u16) -> (r: Result<Vec<PhSegment>, u32>)
    ensures
        ({
            let table = e_phentsize as int * e_phnum as int;
            let ok = e_phoff + table <= source.data@.len()
                && (e_phnum == 0 || e_phentsize >= 56);
            &&& ok ==> r is Ok && r->Ok_0@.len() == e_phnum
                && forall|i: int| 0 <= i < e_phnum ==> Some(#[trigger] r->Ok_0@[i])
                    == spec_parse_phdr(source.data@, e_phoff + i * e_phentsize)
            &&& e_phoff + table > source.data@.len() ==> r == Err::<Vec<PhSegment>, u32>(EINVAL as u32)
        }),
{
    proof {
        assert(e_phentsize as int * e_phnum as int <= 65535 * 65535) by (nonlinear_arith)
            requires e_phentsize <= 65535, e_phnum <= 65535;
    }
    let table64 = e_phentsize as u64 * e_phnum as u64;
    let total = source.len();
    if e_phoff > u64::MAX - table64 || e_phoff + table64 > total {
        return Err(EINVAL as u32);
    }
    let table_bytes = table64 as usize;
    let raw = match read_small_vec(source, e_phoff, table_bytes) {
        Ok(v) => v,
        Err(e) => return Err(e),
    };
    let mut phdrs: Vec<PhSegment> = Vec::with_capacity(e_phnum as usize);
    let mut i: usize = 0;
    while i < e_phnum as usize
        invariant
            i <= e_phnum,
            raw@ == source.data@.subrange(e_phoff as int, e_phoff + table_bytes),
            table_bytes == e_phentsize as int * e_phnum as int,
            e_phoff + table_bytes <= source.data@.len(),
            phdrs@.len() == i,
            forall|k: int| 0 <= k < i ==> Some(#[trigger] phdrs@[k])
                == spec_parse_phdr(source.data@, e_phoff + k * e_phentsize),
        decreases e_phnum - i,
    {
        proof {
            assert((i + 1) * e_phentsize <= e_phentsize as int * e_phnum as int) by (nonlinear_arith)
                requires i < e_phnum, 0 <= e_phentsize;
            assert(i * e_phentsize + e_phentsize == (i + 1) * e_phentsize) by (nonlinear_arith);
            assert(i * e_phentsize <= table_bytes);
        }
        let off = i * e_phentsize as usize;
        proof {
            if e_phentsize >= 56 {
                assert(off + 56 <= raw@.len());
            }
        }
        match parse_phdr(raw.as_slice(), off) {
            Some(ph) => {
                proof {
                    lemma_phdr_in_window(source.data@, e_phoff as int, table_bytes as int, off as int);
                }
                phdrs.push(ph);
            },
            None => return Err(EINVAL as u32),
        }
        i = i + 1;
    }
    Ok(phdrs)
}

proof fn lemma_phdr_in_window(d: Seq<u8>, base: int, n: int, off: int)
    requires
        0 <= base,
        0 <= off,
        off + 56 <= n,
        base + n <= d.len(),
    ensures
        spec_parse_phdr(d.subrange(base, base + n), off) == spec_parse_phdr(d, base + off),
{
    let w = d.subrange(base, base + n);
    assert forall|k: int| 0 <= k < 56 implies #[trigger] w[off + k] == d[base + off + k] by {}
}

/// The memory protection asked for by segment flags `PF_R`/`PF_W`/`PF_X`.
pub fn flags_to_prot(flags: u32) -> (p: Prot)
    ensures
        p.bits == (if flags & PF_R != 0 { PROT_READ } else { 0 }) | (if flags & PF_W != 0 {
            PROT_WRITE
        } else {
            0
        }) | (if flags & PF_X != 0 { PROT_EXEC } else { 0 }),
        prot_matches_flags(p, flags),
{
    proof {
        crate::flag_bits::lemma_flag_bits(0, flags, 0, 0);
    }
    let r: u32 = if flags & PF_R != 0 { PROT_READ } else { 0 };
    let w: u32 = if flags & PF_W != 0 { PROT_WRITE } else { 0 };
    let x: u32 = if flags & PF_X != 0 { PROT_EXEC } else { 0 };
    Prot { bits: r | w | x }
}

/// Page-table flags for a user mapping with protection `prot`.
pub fn prot_to_page_flags(prot: Prot) -> (f: PageFlags)
    ensures
        f == crate::memory::vmm::spec_prot_to_flags(prot),
{
    crate::memory::vmm::prot_to_flags(prot)
}

// ── The initial user stack ──────────────────────────────────────────────

pub const AT_NULL: u64 = 0;
pub const AT_PHDR: u64 = 3;
pub const AT_PHENT: u64 = 4;
pub const AT_PHNUM: u64 = 5;
pub const AT_PAGESZ: u64 = 6;
pub const AT_BASE: u64 = 7;
pub const AT_FLAGS: u64 = 8;
pub const AT_ENTRY: u64 = 9;
pub const AT_UID: u64 = 11;
pub const AT_EUID: u64 = 12;
pub const AT_GID: u64 = 13;
pub const AT_EGID: u64 = 14;
pub const AT_PLATFORM: u64 = 15;
pub const AT_HWCAP: u64 = 16;
pub const AT_CLKTCK: u64 = 17;
pub const AT_SECURE: u64 = 23;
pub const AT_RANDOM: u64 = 25;
pub const AT_HWCAP2: u64 = 26;
pub const AT_EXECFN: u64 = 31;

/// What the initial stack holds: the final stack pointer, the 8-byte words
/// and the byte strings to store, each with its address, in the order they
/// are pushed.
pub struct StackImage {
    pub sp: u64,
    pub words: Vec<(u64, u64)>,
    pub bytes: Vec<(u64, Vec<u8>)>,
}

/// `x` rounded down to a multiple of 16.
pub open spec fn floor16(x: int) -> int {
    x - x % 16
}

pub open spec fn views(xs: Seq<Vec<u8>>) -> Seq<Seq<u8>> {
    xs.map_values(|v: Vec<u8>| v@)
}

/// Bytes taken by the NUL-terminated strings `xs[i..]`.
pub open spec fn strs_size(xs: Seq<Seq<u8>>, i: int) -> int
    decreases xs.len() - i,
{
    if i < 0 || i >= xs.len() { 0 } else { xs[i].len() + 1 + strs_size(xs, i + 1) }
}

/// The string named by `AT_EXECFN`: the first argument, or "/init".
pub open spec fn execfn(argv: Seq<Seq<u8>>) -> Seq<u8> {
    if argv.len() > 0 { argv[0] } else { seq![0x2fu8, 0x69, 0x6e, 0x69, 0x74] }
}

/// The addresses of the stack layout below `top`.
pub open spec fn execfn_addr(top: int, argv: Seq<Seq<u8>>) -> int {
    top - execfn(argv).len() - 1
}

pub open spec fn platform_addr(top: int, argv: Seq<Seq<u8>>) -> int {
    floor16(execfn_addr(top, argv) - 7)
}

pub open spec fn random_addr(top: int, argv: Seq<Seq<u8>>) -> int {
    floor16(platform_addr(top, argv) - 16)
}

pub open spec fn env_addr(top: int, argv: Seq<Seq<u8>>, envp: Seq<Seq<u8>>, i: int) -> int {
    random_addr(top, argv) - strs_size(envp, i)
}

pub open spec fn arg_addr(top: int, argv: Seq<Seq<u8>>, envp: Seq<Seq<u8>>, i: int) -> int {
    env_addr(top, argv, envp, 0) - strs_size(argv, i)
}

/// The top of the auxiliary vector: 19 key/value pairs below it.
pub open spec fn aux_top(top: int, argv: Seq<Seq<u8>>, envp: Seq<Seq<u8>>) -> int {
    floor16(arg_addr(top, argv, envp, 0))
}

/// One padding word keeps the argument count at 8 modulo 16.
pub open spec fn pad_words(argc: int, envc: int) -> int {
    if (argc + envc + 3) % 2 == 0 { 1 } else { 0 }
}

/// The address of the NULL that ends the environment pointers.
pub open spec fn envp_null(top: int, argv: Seq<Seq<u8>>, envp: Seq<Seq<u8>>) -> int {
    aux_top(top, argv, envp) - 304 - 8 * pad_words(argv.len() as int, envp.len() as int) - 8
}

pub open spec fn argv_null(top: int, argv: Seq<Seq<u8>>, envp: Seq<Seq<u8>>) -> int {
    envp_null(top, argv, envp) - 8 * envp.len() - 8
}

pub open spec fn initial_sp(top: int, argv: Seq<Seq<u8>>, envp: Seq<Seq<u8>>) -> int {
    argv_null(top, argv, envp) - 8 * argv.len() - 8
}

/// The auxiliary vector as pushed, highest pair first, `AT_NULL` last.
pub open spec fn aux_pairs(execfn_at: u64, platform_at: u64, random_at: u64, at_entry: u64, at_base: u64,
    phnum: u64, phent: u64, phdr_addr: u64) -> Seq<(u64, u64)> {
    seq![(AT_EXECFN, execfn_at), (AT_PLATFORM, platform_at), (AT_RANDOM, random_at), (AT_SECURE, 0u64),
        (AT_EGID, 0u64), (AT_GID, 0u64), (AT_EUID, 0u64), (AT_UID, 0u64), (AT_ENTRY, at_entry),
        (AT_FLAGS, 0u64), (AT_BASE, at_base), (AT_PHNUM, phnum), (AT_PHENT, phent), (AT_PHDR, phdr_addr),
        (AT_CLKTCK, 100u64), (AT_PAGESZ, 4096u64), (AT_HWCAP, 0x078bfbfdu64), (AT_HWCAP2, 0u64), (AT_NULL, 0u64)]
}

/// Room the layout needs below the top of the stack.
pub open spec fn stack_need(argv: Seq<Seq<u8>>, envp: Seq<Seq<u8>>) -> int {
    execfn(argv).len() + strs_size(envp, 0) + strs_size(argv, 0) + 8 * (argv.len() + envp.len()) + 512
}

/// The `w`-th word of the auxiliary vector as pushed from `at` down: the
/// value of a pair first, then its key below it.
pub open spec fn aux_word(at: int, pairs: Seq<(u64, u64)>, w: int) -> (u64, u64) {
    ((at - 8 * (w + 1)) as u64, if w % 2 == 0 { pairs[w / 2].1 } else { pairs[w / 2].0 })
}

/// The pointer words of a NULL-terminated vector whose NULL is at `null`,
/// pushed highest first: the NULL, then the addresses `addrs` last to first.
pub open spec fn ptr_words(null: int, addrs: Seq<int>) -> Seq<(u64, u64)> {
    seq![(null as u64, 0u64)] + Seq::new(addrs.len(), |k: int| ((null - 8 * (k + 1)) as u64, addrs[addrs.len() - 1 - k] as u64))
}

pub open spec fn env_addrs(top: int, argv: Seq<Seq<u8>>, envp: Seq<Seq<u8>>) -> Seq<int> {
    Seq::new(envp.len(), |i: int| env_addr(top, argv, envp, i))
}

pub open spec fn arg_addrs(top: int, argv: Seq<Seq<u8>>, envp: Seq<Seq<u8>>) -> Seq<int> {
    Seq::new(argv.len(), |i: int| arg_addr(top, argv, envp, i))
}

/// Strings as pushed: highest first, each with its NUL.
pub open spec fn str_writes(xs: Seq<Seq<u8>>, addrs: Seq<int>) -> Seq<(u64, Seq<u8>)> {
    Seq::new(xs.len(), |k: int| (addrs[xs.len() - 1 - k] as u64, xs[xs.len() - 1 - k].push(0u8)))
}

pub open spec fn byte_views(b: Seq<(u64, Vec<u8>)>) -> Seq<(u64, Seq<u8>)> {
    b.map_values(|e: (u64, Vec<u8>)| (e.0, e.1@))
}

/// "x86_64", without a NUL.
pub open spec fn platform_name() -> Seq<u8> {
    seq![0x78u8, 0x38, 0x36, 0x5f, 0x36, 0x34]
}

fn with_nul(s: &[u8]) -> (r: Vec<u8>)
    ensures
        r@ == s@.push(0u8),
{
    let mut v: Vec<u8> = Vec::new();
    let mut i: usize = 0;
    while i < s.len()
        invariant
            i <= s@.len(),
            v@ == s@.take(i as int),
        decreases s@.len() - i,
    {
        v.push(s[i]);
        i = i + 1;
        assert(v@ =~= s@.take(i as int));
    }
    v.push(0u8);
    assert(v@ =~= s@.push(0u8));
    v
}

proof fn lemma_strs_size_step(xs: Seq<Seq<u8>>, i: int)
    requires
        0 <= i < xs.len(),
    ensures
        strs_size(xs, i) == xs[i].len() + 1 + strs_size(xs, i + 1),
        strs_size(xs, i + 1) >= 0,
    decreases xs.len() - i,
{
    if i + 1 < xs.len() {
        lemma_strs_size_step(xs, i + 1);
    }
}

proof fn lemma_strs_size_nonneg(xs: Seq<Seq<u8>>, i: int)
    requires
        0 <= i,
    ensures
        strs_size(xs, i) >= 0,
        i <= xs.len() ==> strs_size(xs, i) <= strs_size(xs, 0),
    decreases i,
{
    if i > 0 {
        lemma_strs_size_nonneg(xs, i - 1);
        if i - 1 < xs.len() {
            lemma_strs_size_step(xs, i - 1);
        }
    }
    if i < xs.len() {
        lemma_strs_size_step(xs, i);
    }
}

/// Pushes the strings `xs`, last first, below `sp`; returns the new stack
/// pointer and the addresses in push order.
fn push_strings(xs: &[Vec<u8>], sp0: u64, bytes: &mut Vec<(u64, Vec<u8>)>) -> (r: (u64, Vec<u64>))
    requires
        sp0 >= strs_size(views(xs@), 0),
    ensures
        r.0 == sp0 - strs_size(views(xs@), 0),
        byte_views(final(bytes)@) == byte_views(old(bytes)@)
            + str_writes(views(xs@), Seq::new(xs@.len(), |i: int| sp0 - strs_size(views(xs@), i))),
        r.1@.len() == xs@.len(),
        forall|k: int| 0 <= k < xs@.len() ==> #[trigger] r.1@[k] == sp0 - strs_size(views(xs@), xs@.len() - 1 - k),
{
    let ghost v = views(xs@);
    let ghost addrs = Seq::new(xs@.len(), |i: int| sp0 - strs_size(v, i));
    let ghost b0 = byte_views(bytes@);
    let mut ptrs: Vec<u64> = Vec::new();
    let mut sp: u64 = sp0;
    let mut k: usize = xs.len();
    proof {
        lemma_strs_size_nonneg(v, k as int);
    }
    while k > 0
        invariant
            k <= xs@.len(),
            v == views(xs@),
            addrs == Seq::new(xs@.len(), |i: int| sp0 - strs_size(v, i)),
            sp0 >= strs_size(v, 0),
            sp == sp0 - strs_size(v, k as int),
            ptrs@.len() == xs@.len() - k,
            forall|j: int| 0 <= j < ptrs@.len() ==> #[trigger] ptrs@[j] == sp0 - strs_size(v, xs@.len() - 1 - j),
            byte_views(bytes@) == b0 + str_writes(v, addrs).take(xs@.len() - k),
        decreases k,
    {
        k = k - 1;
        proof {
            lemma_strs_size_step(v, k as int);
            lemma_strs_size_nonneg(v, k as int);
            assert(v[k as int] == xs@[k as int]@);
        }
        let s = with_nul(xs[k].as_slice());
        sp = sp - (xs[k].len() as u64 + 1);
        let ghost before = bytes@;
        bytes.push((sp, s));
        ptrs.push(sp);
        proof {
            let n = xs@.len() as int;
            assert(str_writes(v, addrs)[n - 1 - k] == (sp, v[k as int].push(0u8)));
            assert(byte_views(bytes@) =~= byte_views(before).push((sp, s@)));
            assert(str_writes(v, addrs).take(n - k) =~= str_writes(v, addrs).take(n - 1 - k).push((sp, s@)));
        }
    }
    proof {
        assert(str_writes(v, addrs).take(xs@.len() as int) =~= str_writes(v, addrs));
    }
    (sp, ptrs)
}

fn push_aux(words: &mut Vec<(u64, u64)>, at: u64, pairs: &Vec<(u64, u64)>) -> (r: u64)
    requires
        at >= 304,
        pairs@.len() == 19,
    ensures
        r == at - 304,
        final(words)@ == old(words)@ + Seq::new(38, |w: int| aux_word(at as int, pairs@, w)),
{
    let ghost w0 = words@;
    let mut sp: u64 = at;
    let mut i: usize = 0;
    while i < 19
        invariant
            i <= 19,
            pairs@.len() == 19,
            at >= 304,
            sp == at - 16 * i,
            words@ == w0 + Seq::new(2 * i as nat, |w: int| aux_word(at as int, pairs@, w)),
        decreases 19 - i,
    {
        let ghost before = words@;
        sp = sp - 8;
        words.push((sp, pairs[i].1));
        sp = sp - 8;
        words.push((sp, pairs[i].0));
        proof {
            let f = |w: int| aux_word(at as int, pairs@, w);
            assert((2 * i) / 2 == i && (2 * i) % 2 == 0);
            assert((2 * i + 1) / 2 == i && (2 * i + 1) % 2 == 1);
            assert(words@ =~= w0 + Seq::new((2 * i + 2) as nat, f));
        }
        i = i + 1;
    }
    sp
}

fn push_ptr_words(words: &mut Vec<(u64, u64)>, null: u64, ptrs: &Vec<u64>) -> (r: u64)
    requires
        null >= 8 * ptrs@.len() + 8,
    ensures
        r == null - 8 * ptrs@.len(),
        final(words)@ == old(words)@ + seq![(null, 0u64)]
            + Seq::new(ptrs@.len(), |k: int| ((null - 8 * (k + 1)) as u64, ptrs@[k])),
{
    let ghost w0 = words@;
    words.push((null, 0u64));
    let mut sp: u64 = null;
    let mut k: usize = 0;
    while k < ptrs.len()
        invariant
            k <= ptrs@.len(),
            null >= 8 * ptrs@.len() + 8,
            sp == null - 8 * k,
            words@ == w0 + seq![(null, 0u64)]
                + Seq::new(k as nat, |j: int| ((null - 8 * (j + 1)) as u64, ptrs@[j])),
        decreases ptrs@.len() - k,
    {
        sp = sp - 8;
        words.push((sp, ptrs[k]));
        k = k + 1;
        assert(words@ =~= w0 + seq![(null, 0u64)]
            + Seq::new(k as nat, |j: int| ((null - 8 * (j + 1)) as u64, ptrs@[j])));
    }
    sp
}

/// Lays out the initial process stack below `stack_top` as the System V
/// AMD64 ABI has it: the argument count at the returned stack pointer,
/// then the argument pointers and a NULL, the environment pointers and a
/// NULL, a padding word where needed, the auxiliary vector, and above it
/// sixteen random bytes (from `tsc`), the platform name and the strings.
///
/// The result says what to store where; storing it is the caller's part.
#[verifier::rlimit(60)]
#[verifier::spinoff_prover]
pub fn setup_stack(stack_top: u64, argv: &[Vec<u8>], envp: &[Vec<u8>], at_entry: u64, phdr_addr: u64,
    phent: u64, phnum: u64, at_base: u64, tsc: u64) -> (r: StackImage)
    requires
        stack_top >= stack_need(views(argv@), views(envp@)),
    ensures
        ({
            let top = stack_top as int;
            let a = views(argv@);
            let e = views(envp@);
            let at = aux_top(top, a, e);
            let pairs = aux_pairs(execfn_addr(top, a) as u64, platform_addr(top, a) as u64,
                random_addr(top, a) as u64, at_entry, at_base, phnum, phent, phdr_addr);
            &&& r.sp == initial_sp(top, a, e)
            &&& r.sp % 16 == 8
            &&& byte_views(r.bytes@) == seq![(execfn_addr(top, a) as u64, execfn(a).push(0u8)),
                    (platform_addr(top, a) as u64, platform_name())]
                + str_writes(e, env_addrs(top, a, e)) + str_writes(a, arg_addrs(top, a, e))
            &&& r.words@ == seq![(random_addr(top, a) as u64, tsc ^ 0xDEAD_BEEF_0102_0304u64),
                    ((random_addr(top, a) + 8) as u64, tsc ^ 0xBEEF_CAFE_0506_0708u64)]
                + Seq::new(38, |w: int| aux_word(at, pairs, w))
                + (if pad_words(argv@.len() as int, envp@.len() as int) == 1 { seq![((at - 312) as u64, 0u64)] }
                    else { Seq::empty() })
                + ptr_words(envp_null(top, a, e), env_addrs(top, a, e))
                + ptr_words(argv_null(top, a, e), arg_addrs(top, a, e))
                + seq![(initial_sp(top, a, e) as u64, argv@.len() as u64)]
        }),
{
    let ghost top = stack_top as int;
    let ghost a = views(argv@);
    let ghost e = views(envp@);
    proof {
        lemma_strs_size_nonneg(a, 0);
        lemma_strs_size_nonneg(e, 0);
    }
    let mut bytes: Vec<(u64, Vec<u8>)> = Vec::new();
    let mut words: Vec<(u64, u64)> = Vec::new();
    let ex: Vec<u8> = if argv.len() > 0 {
        with_nul(argv[0].as_slice())
    } else {
        vec![0x2fu8, 0x69, 0x6e, 0x69, 0x74, 0]
    };
    assert(ex@ =~= execfn(a).push(0u8));
    let mut sp: u64 = stack_top - ex.len() as u64;
    let execfn_at = sp;
    bytes.push((sp, ex));
    sp = sp - 7;
    sp = sp - sp % 16;
    let platform_at = sp;
    bytes.push((sp, vec![0x78u8, 0x38, 0x36, 0x5f, 0x36, 0x34]));
    sp = sp - 16;
    sp = sp - sp % 16;
    let random_at = sp;
    words.push((sp, tsc ^ 0xDEAD_BEEF_0102_0304u64));
    words.push((sp + 8, tsc ^ 0xBEEF_CAFE_0506_0708u64));
    let ghost b2 = byte_views(bytes@);
    assert(b2 =~= seq![(execfn_addr(top, a) as u64, execfn(a).push(0u8)), (platform_addr(top, a) as u64, platform_name())]);
    let (sp1, env_ptrs) = push_strings(envp, sp, &mut bytes);
    let (sp2, arg_ptrs) = push_strings(argv, sp1, &mut bytes);
    assert(Seq::new(envp@.len(), |i: int| random_at - strs_size(e, i)) =~= env_addrs(top, a, e));
    assert(Seq::new(argv@.len(), |i: int| sp1 - strs_size(a, i)) =~= arg_addrs(top, a, e));
    sp = sp2 - sp2 % 16;
    let pairs: Vec<(u64, u64)> = vec![(AT_EXECFN, execfn_at), (AT_PLATFORM, platform_at), (AT_RANDOM, random_at),
        (AT_SECURE, 0u64), (AT_EGID, 0u64), (AT_GID, 0u64), (AT_EUID, 0u64), (AT_UID, 0u64), (AT_ENTRY, at_entry),
        (AT_FLAGS, 0u64), (AT_BASE, at_base), (AT_PHNUM, phnum), (AT_PHENT, phent), (AT_PHDR, phdr_addr),
        (AT_CLKTCK, 100u64), (AT_PAGESZ, 4096u64), (AT_HWCAP, 0x078bfbfdu64), (AT_HWCAP2, 0u64), (AT_NULL, 0u64)];
    assert(pairs@ =~= aux_pairs(execfn_at, platform_at, random_at, at_entry, at_base, phnum, phent, phdr_addr));
    let ghost w_aux = words@;
    sp = push_aux(&mut words, sp, &pairs);
    sp = sp - sp % 16;
    let ghost w_pad = words@;
    if (argv.len() as u64 + envp.len() as u64 + 3) % 2 == 0 {
        sp = sp - 8;
        words.push((sp, 0u64));
    }
    let ghost w_env = words@;
    sp = push_ptr_words(&mut words, sp - 8, &env_ptrs);
    let ghost w_arg = words@;
    sp = push_ptr_words(&mut words, sp - 8, &arg_ptrs);
    sp = sp - 8;
    words.push((sp, argv.len() as u64));
    proof {
        assert(ptr_words(envp_null(top, a, e), env_addrs(top, a, e))
            =~= seq![(envp_null(top, a, e) as u64, 0u64)] + Seq::new(env_ptrs@.len(),
                |k: int| ((envp_null(top, a, e) - 8 * (k + 1)) as u64, env_ptrs@[k])));
        assert(ptr_words(argv_null(top, a, e), arg_addrs(top, a, e))
            =~= seq![(argv_null(top, a, e) as u64, 0u64)] + Seq::new(arg_ptrs@.len(),
                |k: int| ((argv_null(top, a, e) - 8 * (k + 1)) as u64, arg_ptrs@[k])));
    }
    StackImage { sp, words, bytes }
}

// ── Placing the loadable segments ───────────────────────────────────────

/// Where one loadable segment goes: its first page, how many pages, their
/// protection, where in the first page the segment starts, and the file
/// bytes to copy there.
pub struct SegmentMap {
    pub vaddr_page: u64,
    pub num_pages: u64,
    pub prot: Prot,
    pub page_offset: u64,
    pub file_offset: u64,
    pub filesz: u64,
}

/// What loading an image yields: the entry point, the end of the highest
/// segment (the program break), the program headers' user address, the
/// TLS template, the load bias, and the segments to map.
pub struct LoadPlan {
    pub entry: u64,
    pub max_load_end: u64,
    pub phdr_user: u64,
    pub tls_addr: u64,
    pub tls_filesz: u64,
    pub tls_memsz: u64,
    pub tls_align: u64,
    pub load_bias: u64,
    pub segments: Vec<SegmentMap>,
}

/// The error a program header gives, if any: a loadable segment reaching
/// past user space, or whose file bytes lie past the end of the image.
pub open spec fn seg_error(ph: PhSegment, bias: u64, srclen: u64) -> Option<u32> {
    if ph.p_type != PT_LOAD || ph.p_memsz == 0 {
        None
    } else if ph.p_vaddr + ph.p_memsz + bias > USER_SPACE_END {
        Some(EINVAL as u32)
    } else if ph.p_filesz > 0 && ph.p_offset + ph.p_filesz > srclen {
        Some(EINVAL as u32)
    } else {
        None
    }
}

/// The first error among the first `n` headers.
pub open spec fn first_seg_error(phs: Seq<PhSegment>, n: int, bias: u64, srclen: u64) -> Option<u32>
    decreases n,
{
    if n <= 0 {
        None
    } else {
        match first_seg_error(phs, n - 1, bias, srclen) {
            Some(e) => Some(e),
            None => seg_error(phs[n - 1], bias, srclen),
        }
    }
}

proof fn lemma_first_error_stays(phs: Seq<PhSegment>, k: int, n: int, bias: u64, srclen: u64)
    requires
        0 <= k <= n,
        first_seg_error(phs, k, bias, srclen) is Some,
    ensures
        first_seg_error(phs, n, bias, srclen) == first_seg_error(phs, k, bias, srclen),
    decreases n - k,
{
    if k < n {
        lemma_first_error_stays(phs, k, n - 1, bias, srclen);
    }
}

pub open spec fn seg_map(ph: PhSegment, bias: u64) -> SegmentMap {
    let v = ph.p_vaddr + bias;
    let page = v - v % PAGE_SIZE as int;
    let off = v - page;
    SegmentMap {
        vaddr_page: page as u64,
        num_pages: ((off + ph.p_memsz + PAGE_SIZE - 1) / PAGE_SIZE as int) as u64,
        prot: Prot { bits: (if ph.p_flags & PF_R != 0 { PROT_READ } else { 0 }) | (if ph.p_flags & PF_W != 0 {
            PROT_WRITE } else { 0 }) | (if ph.p_flags & PF_X != 0 { PROT_EXEC } else { 0 }) },
        page_offset: off as u64,
        file_offset: ph.p_offset,
        filesz: ph.p_filesz,
    }
}

pub open spec fn seg_end(m: SegmentMap) -> int {
    m.vaddr_page + m.num_pages * PAGE_SIZE
}

/// The plan after the first `n` headers, when none of them is in error:
/// later `PT_PHDR` and `PT_TLS` headers override earlier ones.
pub open spec fn plan_upto(phs: Seq<PhSegment>, n: int, bias: u64) -> (u64, u64, u64, u64, u64, u64, Seq<SegmentMap>)
    decreases n,
{
    if n <= 0 {
        (0, 0, 0, 0, 0, 0, Seq::empty())
    } else {
        let (end, phdr, ta, tf, tm, tal, segs) = plan_upto(phs, n - 1, bias);
        let ph = phs[n - 1];
        if ph.p_type == PT_PHDR {
            (end, (ph.p_vaddr + bias) as u64, ta, tf, tm, tal, segs)
        } else if ph.p_type == PT_TLS {
            (end, phdr, (ph.p_vaddr + bias) as u64, ph.p_filesz, ph.p_memsz, ph.p_align, segs)
        } else if ph.p_type == PT_LOAD && ph.p_memsz != 0 {
            let m = seg_map(ph, bias);
            (if seg_end(m) > end { seg_end(m) as u64 } else { end }, phdr, ta, tf, tm, tal, segs.push(m))
        } else {
            (end, phdr, ta, tf, tm, tal, segs)
        }
    }
}

/// Plans the loading of an image of `srclen` bytes with program headers
/// `phdrs` at `load_bias`: `EINVAL` on the first bad loadable segment, or
/// the plan.
pub fn plan_segments(phdrs: &Vec<PhSegment>, load_bias: u64, e_entry: u64, srclen: u64) -> (r: Result<LoadPlan, u32>)
    requires
        e_entry + load_bias <= u64::MAX,
        load_bias <= USER_SPACE_END,
        forall|i: int| 0 <= i < phdrs@.len() ==> #[trigger] phdrs@[i].p_vaddr + load_bias <= u64::MAX,
    ensures
        ({
            let n = phdrs@.len() as int;
            match r {
                Err(e) => first_seg_error(phdrs@, n, load_bias, srclen) == Some(e),
                Ok(p) => {
                    let (end, phdr, ta, tf, tm, tal, segs) = plan_upto(phdrs@, n, load_bias);
                    &&& first_seg_error(phdrs@, n, load_bias, srclen) is None
                    &&& p.entry == e_entry + load_bias
                    &&& p.load_bias == load_bias
                    &&& p.max_load_end == end && p.phdr_user == phdr
                    &&& p.tls_addr == ta && p.tls_filesz == tf && p.tls_memsz == tm && p.tls_align == tal
                    &&& p.segments@ == segs
                },
            }
        }),
{
    let mut max_end: u64 = 0;
    let mut phdr: u64 = 0;
    let mut ta: u64 = 0;
    let mut tf: u64 = 0;
    let mut tm: u64 = 0;
    let mut tal: u64 = 0;
    let mut segs: Vec<SegmentMap> = Vec::new();
    let mut i: usize = 0;
    while i < phdrs.len()
        invariant
            i <= phdrs@.len(),
            load_bias <= USER_SPACE_END,
            forall|j: int| 0 <= j < phdrs@.len() ==> #[trigger] phdrs@[j].p_vaddr + load_bias <= u64::MAX,
            first_seg_error(phdrs@, i as int, load_bias, srclen) is None,
            plan_upto(phdrs@, i as int, load_bias) == (max_end, phdr, ta, tf, tm, tal, segs@),
        decreases phdrs@.len() - i,
    {
        let ph = &phdrs[i];
        if ph.p_type == PT_PHDR {
            phdr = ph.p_vaddr + load_bias;
        } else if ph.p_type == PT_TLS {
            ta = ph.p_vaddr + load_bias;
            tf = ph.p_filesz;
            tm = ph.p_memsz;
            tal = ph.p_align;
        } else if ph.p_type == PT_LOAD && ph.p_memsz != 0 {
            if ph.p_memsz > USER_SPACE_END || ph.p_vaddr > USER_SPACE_END - ph.p_memsz
                || ph.p_vaddr + ph.p_memsz > USER_SPACE_END - load_bias {
                proof {
                    assert(phdrs@[i as int] == *ph);
                    lemma_first_error_stays(phdrs@, i + 1, phdrs@.len() as int, load_bias, srclen);
                }
                return Err(EINVAL as u32);
            }
            if ph.p_filesz > 0 && (ph.p_filesz > u64::MAX - ph.p_offset || ph.p_offset + ph.p_filesz > srclen) {
                proof {
                    assert(phdrs@[i as int] == *ph);
                    lemma_first_error_stays(phdrs@, i + 1, phdrs@.len() as int, load_bias, srclen);
                }
                return Err(EINVAL as u32);
            }
            let v: u64 = ph.p_vaddr + load_bias;
            let page: u64 = v - v % PAGE_SIZE;
            let off: u64 = v - page;
            let num_pages: u64 = (off + ph.p_memsz + (PAGE_SIZE - 1)) / PAGE_SIZE;
            let m = SegmentMap {
                vaddr_page: page,
                num_pages,
                prot: flags_to_prot(ph.p_flags),
                page_offset: off,
                file_offset: ph.p_offset,
                filesz: ph.p_filesz,
            };
            assert(m == seg_map(*ph, load_bias));
            let end: u64 = page + num_pages * PAGE_SIZE;
            if end > max_end {
                max_end = end;
            }
            segs.push(m);
        }
        i = i + 1;
        assert(phdrs@[i - 1] == *ph);
    }
    Ok(LoadPlan {
        entry: e_entry + load_bias,
        max_load_end: max_end,
        phdr_user: phdr,
        tls_addr: ta,
        tls_filesz: tf,
        tls_memsz: tm,
        tls_align: tal,
        load_bias,
        segments: segs,
    })
}

// ── Decisions of exec ───────────────────────────────────────────────────

/// An image can be executed when it is an executable or a shared object
/// whose program headers are at least 56 bytes long; otherwise `EINVAL`.
pub fn check_exec_header(h: &ElfHeader) -> (r: Result<(), u32>)
    ensures
        r is Ok <==> (h.e_type == ET_EXEC || h.e_type == ET_DYN) && h.e_phentsize >= 56,
        r is Err ==> r->Err_0 == EINVAL as u32,
{
    if h.e_type != ET_EXEC && h.e_type != ET_DYN {
        return Err(EINVAL as u32);
    }
    if h.e_phentsize < 56 {
        return Err(EINVAL as u32);
    }
    Ok(())
}

/// The first `PT_INTERP` header naming more than a NUL, if any.
pub fn find_interp(phdrs: &Vec<PhSegment>) -> (r: Option<usize>)
    ensures
        r is Some ==> r->0 < phdrs@.len() && phdrs@[r->0 as int].p_type == PT_INTERP
            && phdrs@[r->0 as int].p_filesz > 1,
        forall|j: int| 0 <= j < phdrs@.len() && (r is None || j < r->0)
            ==> !(#[trigger] phdrs@[j].p_type == PT_INTERP && phdrs@[j].p_filesz > 1),
{
    let mut i: usize = 0;
    while i < phdrs.len()
        invariant
            i <= phdrs@.len(),
            forall|j: int| 0 <= j < i ==> !(#[trigger] phdrs@[j].p_type == PT_INTERP && phdrs@[j].p_filesz > 1),
        decreases phdrs@.len() - i,
    {
        if phdrs[i].p_type == PT_INTERP && phdrs[i].p_filesz > 1 {
            return Some(i);
        }
        i = i + 1;
    }
    None
}

/// Where the main image is loaded: a shared object at the PIE base, or
/// higher when an interpreter is loaded too; an executable at its own
/// addresses.
pub fn choose_load_bias(e_type: u16, has_interp: bool) -> (r: u64)
    ensures
        r == if e_type == ET_DYN && !has_interp { PIE_BASE } else if e_type == ET_DYN {
            PIE_WITH_INTERP_BASE } else { 0 },
{
    if e_type == ET_DYN && !has_interp {
        PIE_BASE
    } else if e_type == ET_DYN {
        PIE_WITH_INTERP_BASE
    } else {
        0
    }
}

/// The start of the mmap area: one page above the loaded segments, page
/// aligned, and never below `MMAP_BASE`.
pub fn mmap_base_after(max_load_end: u64) -> (r: u64)
    requires
        max_load_end + 2 * PAGE_SIZE - 1 <= u64::MAX,
    ensures
        ({
            let x = max_load_end + 2 * PAGE_SIZE - 1;
            let above = x - x % PAGE_SIZE as int;
            r == if above > MMAP_BASE { above } else { MMAP_BASE as int }
        }),
{
    let x: u64 = max_load_end + (PAGE_SIZE + PAGE_SIZE - 1);
    let above: u64 = x - x % PAGE_SIZE;
    if above > MMAP_BASE { above } else { MMAP_BASE }
}

/// The addresses of the argument and environment vectors for a stack
/// whose argument count is at `sp`.
pub fn vector_pointers(sp: u64, argc: u64) -> (r: (u64, u64))
    requires
        sp + 8 + (argc + 1) * 8 <= u64::MAX,
    ensures
        r.0 == sp + 8,
        r.1 == sp + 8 + (argc + 1) * 8,
{
    let argv_ptr = sp + 8;
    (argv_ptr, argv_ptr + (argc + 1) * 8)
}

/// What exec takes from the main image: its header and program headers,
/// the interpreter's path (without its final NUL) when one is named, and
/// the plan of its segments at the chosen load bias.
pub struct ExecImage {
    pub header: ElfHeader,
    pub phdrs: Vec<PhSegment>,
    pub interp: Option<Vec<u8>>,
    pub plan: LoadPlan,
}

/// The first of the first `n` headers that names an interpreter.
pub open spec fn first_interp(phs: Seq<PhSegment>, n: int) -> Option<int>
    decreases n,
{
    if n <= 0 {
        None
    } else {
        match first_interp(phs, n - 1) {
            Some(j) => Some(j),
            None => if phs[n - 1].p_type == PT_INTERP && phs[n - 1].p_filesz > 1 { Some(n - 1) } else { None },
        }
    }
}

proof fn lemma_seg_error_einval(phs: Seq<PhSegment>, n: int, bias: u64, srclen: u64)
    ensures
        first_seg_error(phs, n, bias, srclen) is Some ==> first_seg_error(phs, n, bias, srclen) == Some(EINVAL as u32),
    decreases n,
{
    if n > 0 {
        lemma_seg_error_einval(phs, n - 1, bias, srclen);
    }
}

proof fn lemma_first_interp(phs: Seq<PhSegment>, n: int, found: Option<int>)
    requires
        0 <= n <= phs.len(),
        found matches Some(i) ==> 0 <= i < n && phs[i].p_type == PT_INTERP && phs[i].p_filesz > 1,
        forall|j: int| 0 <= j < n && (found is None || j < found->0)
            ==> !(#[trigger] phs[j].p_type == PT_INTERP && phs[j].p_filesz > 1),
    ensures
        first_interp(phs, n) == found,
    decreases n,
{
    if n > 0 {
        if found == Some(n - 1) {
            lemma_first_interp(phs, n - 1, None);
        } else {
            lemma_first_interp(phs, n - 1, found);
        }
    }
}

/// The load bias `choose_load_bias` gives.
pub open spec fn spec_load_bias(e_type: u16, has_interp: bool) -> u64 {
    if e_type == ET_DYN && !has_interp { PIE_BASE } else if e_type == ET_DYN { PIE_WITH_INTERP_BASE } else { 0 }
}

/// The program headers the header `h` names in `d`.
pub open spec fn exec_phdrs(d: Seq<u8>, h: ElfHeader) -> Seq<PhSegment> {
    Seq::new(h.e_phnum as nat, |i: int| spec_parse_phdr(d, h.e_phoff + i * h.e_phentsize)->0)
}

/// Whether exec can take the main image `d`: an ELF64 x86-64 executable
/// or shared object with program headers of at least 56 bytes, all inside
/// the image; the interpreter's path, when one is named, inside the image;
/// the entry and every segment address within 64 bits once biased; and
/// no bad loadable segment.
pub open spec fn exec_image_ok(d: Seq<u8>) -> bool {
    match spec_parse_header(d) {
        None => false,
        Some(h) => {
            let phs = exec_phdrs(d, h);
            let it = first_interp(phs, phs.len() as int);
            let bias = spec_load_bias(h.e_type, it is Some);
            &&& h.e_type == ET_EXEC || h.e_type == ET_DYN
            &&& h.e_phentsize >= 56
            &&& h.e_phoff + h.e_phentsize * h.e_phnum <= d.len()
            &&& it matches Some(j) ==> phs[j].p_offset + phs[j].p_filesz <= d.len()
            &&& h.e_entry + bias <= u64::MAX
            &&& forall|j: int| 0 <= j < phs.len() ==> #[trigger] phs[j].p_vaddr + bias <= u64::MAX
            &&& first_seg_error(phs, phs.len() as int, bias, d.len() as u64) is None
        },
    }
}

/// The main image's part of exec: parses and checks the header, reads the
/// program headers, finds the interpreter, picks the load bias and plans
/// the segments. `EINVAL` exactly when `exec_image_ok` fails.
#[verifier::rlimit(40)]
pub fn plan_exec_image(source: &SliceSource) -> (r: Result<ExecImage, u32>)
    ensures
        r is Ok <==> exec_image_ok(source.data@),
        r is Err ==> r->Err_0 == EINVAL as u32,
        r matches Ok(img) ==> ({
            let d = source.data@;
            let h = spec_parse_header(d)->0;
            let phs = exec_phdrs(d, h);
            let it = first_interp(phs, phs.len() as int);
            let bias = spec_load_bias(h.e_type, it is Some);
            let (end, phdr, ta, tf, tm, tal, segs) = plan_upto(phs, phs.len() as int, bias);
            &&& img.header == h
            &&& img.phdrs@ == phs
            &&& it is None ==> img.interp is None
            &&& it matches Some(j) ==> img.interp matches Some(p)
                && p@ == d.subrange(phs[j].p_offset as int, phs[j].p_offset + phs[j].p_filesz - 1)
            &&& img.plan.entry == h.e_entry + bias && img.plan.load_bias == bias
            &&& img.plan.max_load_end == end && img.plan.phdr_user == phdr
            &&& img.plan.tls_addr == ta && img.plan.tls_filesz == tf && img.plan.tls_memsz == tm
                && img.plan.tls_align == tal
            &&& img.plan.segments@ == segs
        }),
{
    let ghost d = source.data@;
    let h = match parse_elf64_header(source.data) {
        Some(h) => h,
        None => {
            return Err(EINVAL as u32);
        },
    };
    match check_exec_header(&h) {
        Ok(()) => {},
        Err(e) => {
            return Err(e);
        },
    }
    let total = source.len();
    proof {
        assert(h.e_phentsize as int * h.e_phnum as int <= 65535 * 65535) by (nonlinear_arith)
            requires h.e_phentsize <= 65535, h.e_phnum <= 65535;
    }
    if h.e_phoff > u64::MAX - h.e_phentsize as u64 * h.e_phnum as u64
        || h.e_phoff + h.e_phentsize as u64 * h.e_phnum as u64 > total {
        return Err(EINVAL as u32);
    }
    let phdrs = match load_phdrs(source, h.e_phoff, h.e_phentsize, h.e_phnum) {
        Ok(v) => v,
        Err(e) => {
            return Err(e);
        },
    };
    let ghost phs = exec_phdrs(d, h);
    assert(phdrs@ =~= phs) by {
        assert forall|i: int| 0 <= i < phs.len() implies phdrs@[i] == phs[i] by {
            assert(Some(phdrs@[i]) == spec_parse_phdr(d, h.e_phoff + i * h.e_phentsize));
        }
    }
    let idx = find_interp(&phdrs);
    proof {
        lemma_first_interp(phs, phs.len() as int, match idx { Some(i) => Some(i as int), None => None });
    }
    let interp: Option<Vec<u8>> = match idx {
        Some(i) => {
            let ph = &phdrs[i];
            if ph.p_offset > total || ph.p_filesz > total - ph.p_offset {
                return Err(EINVAL as u32);
            }
            let raw = match read_small_vec(source, ph.p_offset, ph.p_filesz as usize) {
                Ok(v) => v,
                Err(e) => {
                    return Err(e);
                },
            };
            let mut path: Vec<u8> = Vec::new();
            let n = raw.len() - 1;
            let mut k: usize = 0;
            while k < n
                invariant
                    k <= n,
                    n == raw@.len() - 1,
                    path@ == raw@.take(k as int),
                decreases n - k,
            {
                path.push(raw[k]);
                assert(path@ =~= raw@.take(k + 1));
                k = k + 1;
            }
            assert(path@ =~= d.subrange(ph.p_offset as int, ph.p_offset + ph.p_filesz - 1));
            Some(path)
        },
        None => None,
    };
    let bias = choose_load_bias(h.e_type, idx.is_some());
    if h.e_entry > u64::MAX - bias {
        return Err(EINVAL as u32);
    }
    let mut j: usize = 0;
    let mut fits = true;
    while j < phdrs.len()
        invariant
            j <= phdrs@.len(),
            fits == forall|q: int| 0 <= q < j ==> #[trigger] phdrs@[q].p_vaddr + bias <= u64::MAX,
        decreases phdrs@.len() - j,
    {
        if phdrs[j].p_vaddr > u64::MAX - bias {
            fits = false;
        }
        j = j + 1;
    }
    if !fits {
        return Err(EINVAL as u32);
    }
    let plan = match plan_segments(&phdrs, bias, h.e_entry, total) {
        Ok(p) => p,
        Err(e) => {
            proof {
                lemma_seg_error_einval(phdrs@, phdrs@.len() as int, bias, total);
            }
            return Err(e);
        },
    };
    Ok(ExecImage { header: h, phdrs, interp, plan })
}

/// Whether the interpreter image `d` can be placed at `INTERP_BASE`: an
/// ELF64 x86-64 file whose program headers lie inside it, whose entry and
/// segment addresses stay within 64 bits at that base, and with no bad
/// loadable segment.
pub open spec fn interp_image_ok(d: Seq<u8>) -> bool {
    match spec_parse_header(d) {
        None => false,
        Some(h) => {
            let phs = exec_phdrs(d, h);
            &&& h.e_phoff + h.e_phentsize * h.e_phnum <= d.len()
            &&& h.e_phnum == 0 || h.e_phentsize >= 56
            &&& h.e_entry + INTERP_BASE <= u64::MAX
            &&& forall|j: int| 0 <= j < phs.len() ==> #[trigger] phs[j].p_vaddr + INTERP_BASE <= u64::MAX
            &&& first_seg_error(phs, phs.len() as int, INTERP_BASE, d.len() as u64) is None
        },
    }
}

/// Plans the interpreter image at `INTERP_BASE`. `EINVAL` exactly when
/// `interp_image_ok` fails.
#[verifier::rlimit(40)]
pub fn plan_interp_image(source: &SliceSource) -> (r: Result<LoadPlan, u32>)
    ensures
        r is Ok <==> interp_image_ok(source.data@),
        r is Err ==> r->Err_0 == EINVAL as u32,
        r matches Ok(p) ==> ({
            let d = source.data@;
            let h = spec_parse_header(d)->0;
            let phs = exec_phdrs(d, h);
            let (end, phdr, ta, tf, tm, tal, segs) = plan_upto(phs, phs.len() as int, INTERP_BASE);
            &&& p.entry == h.e_entry + INTERP_BASE && p.load_bias == INTERP_BASE
            &&& p.max_load_end == end && p.phdr_user == phdr
            &&& p.tls_addr == ta && p.tls_filesz == tf && p.tls_memsz == tm && p.tls_align == tal
            &&& p.segments@ == segs
        }),
{
    let ghost d = source.data@;
    let h = match parse_elf64_header(source.data) {
        Some(h) => h,
        None => {
            return Err(EINVAL as u32);
        },
    };
    let total = source.len();
    proof {
        assert(h.e_phentsize as int * h.e_phnum as int <= 65535 * 65535) by (nonlinear_arith)
            requires h.e_phentsize <= 65535, h.e_phnum <= 65535;
    }
    if h.e_phoff > u64::MAX - h.e_phentsize as u64 * h.e_phnum as u64
        || h.e_phoff + h.e_phentsize as u64 * h.e_phnum as u64 > total {
        return Err(EINVAL as u32);
    }
    let phdrs = match load_phdrs(source, h.e_phoff, h.e_phentsize, h.e_phnum) {
        Ok(v) => v,
        Err(e) => {
            return Err(e);
        },
    };
    let ghost phs = exec_phdrs(d, h);
    assert(phdrs@ =~= phs) by {
        assert forall|i: int| 0 <= i < phs.len() implies phdrs@[i] == phs[i] by {
            assert(Some(phdrs@[i]) == spec_parse_phdr(d, h.e_phoff + i * h.e_phentsize));
        }
    }
    if h.e_entry > u64::MAX - INTERP_BASE {
        return Err(EINVAL as u32);
    }
    let mut j: usize = 0;
    let mut fits = true;
    while j < phdrs.len()
        invariant
            j <= phdrs@.len(),
            fits == forall|q: int| 0 <= q < j ==> #[trigger] phdrs@[q].p_vaddr + INTERP_BASE <= u64::MAX,
        decreases phdrs@.len() - j,
    {
        if phdrs[j].p_vaddr > u64::MAX - INTERP_BASE {
            fits = false;
        }
        j = j + 1;
    }
    if !fits {
        return Err(EINVAL as u32);
    }
    match plan_segments(&phdrs, INTERP_BASE, h.e_entry, total) {
        Ok(p) => Ok(p),
        Err(e) => {
            proof {
                lemma_seg_error_einval(phdrs@, phdrs@.len() as int, INTERP_BASE, total);
            }
            Err(e)
        },
    }
}

/// Where the new program starts once its images are placed.
pub struct ExecLayout {
    /// Where execution begins: the interpreter's entry when one is loaded.
    pub entry: u64,
    /// `AT_BASE`: the interpreter's base, or 0.
    pub at_base: u64,
    /// `AT_ENTRY`: the main image's entry.
    pub at_entry: u64,
    /// The program break, at the end of the main image.
    pub brk: u64,
    /// The start of the mmap area (see `mmap_base_after`).
    pub mmap_base: u64,
}

/// The start-up layout for the main image planned as `main`, with the
/// entry of the interpreter (loaded at `INTERP_BASE`) when there is one.
pub fn exec_layout(main: &LoadPlan, interp_entry: Option<u64>) -> (r: ExecLayout)
    requires
        main.max_load_end + 2 * PAGE_SIZE - 1 <= u64::MAX,
    ensures
        r.entry == match interp_entry { Some(e) => e, None => main.entry },
        r.at_base == if interp_entry is Some { INTERP_BASE } else { 0 },
        r.at_entry == main.entry,
        r.brk == main.max_load_end,
        ({
            let x = main.max_load_end + 2 * PAGE_SIZE - 1;
            let above = x - x % PAGE_SIZE as int;
            r.mmap_base == if above > MMAP_BASE { above } else { MMAP_BASE as int }
        }),
{
    let (entry, at_base) = match interp_entry {
        Some(e) => (e, INTERP_BASE),
        None => (main.entry, 0),
    };
    ExecLayout {
        entry,
        at_base,
        at_entry: main.entry,
        brk: main.max_load_end,
        mmap_base: mmap_base_after(main.max_load_end),
    }
}

/// The words of the auxiliary vector pushed downward from `top`, in push
/// order: its terminator, then each key followed by its value. The random
/// bytes are taken to lie 16 bytes below the stack after the terminator.
pub open spec fn auxv_values(top: u64, entry: u64, phdr: u64, phent: u64, phnum: u64, interp_base: u64, execfn: u64,
    platform: u64) -> Seq<u64> {
    seq![AT_NULL, 0, AT_RANDOM, (top - 32) as u64, AT_PLATFORM, platform, AT_EXECFN, execfn, AT_SECURE, 0,
        AT_EGID, 0, AT_GID, 0, AT_EUID, 0, AT_UID, 0, AT_CLKTCK, 100, AT_HWCAP, 0xBFEBFBFF, AT_HWCAP2, 0,
        AT_FLAGS, 0, AT_PAGESZ, 4096, AT_BASE, interp_base, AT_ENTRY, entry, AT_PHNUM, phnum, AT_PHENT, phent,
        AT_PHDR, phdr]
}

/// The auxiliary vector for a stack whose top is `top`, the platform
/// string being at `platform`: each word with the address it goes to (8
/// bytes below the one before, from `top` down), and the stack pointer
/// below the last.
pub fn build_auxv(top: u64, entry: u64, phdr: u64, phent: u64, phnum: u64, interp_base: u64, execfn: u64,
    platform: u64) -> (r: (Vec<(u64, u64)>, u64))
    requires
        top >= 38 * 8,
    ensures
        r.0@.len() == 38,
        forall|k: int| 0 <= k < 38 ==> #[trigger] r.0@[k] == ((top - 8 * (k + 1)) as u64,
            auxv_values(top, entry, phdr, phent, phnum, interp_base, execfn, platform)[k]),
        r.1 == top - 38 * 8,
{
    let vals: Vec<u64> = vec![AT_NULL, 0, AT_RANDOM, top - 32, AT_PLATFORM, platform, AT_EXECFN, execfn, AT_SECURE, 0,
        AT_EGID, 0, AT_GID, 0, AT_EUID, 0, AT_UID, 0, AT_CLKTCK, 100, AT_HWCAP, 0xBFEBFBFF, AT_HWCAP2, 0,
        AT_FLAGS, 0, AT_PAGESZ, 4096, AT_BASE, interp_base, AT_ENTRY, entry, AT_PHNUM, phnum, AT_PHENT, phent,
        AT_PHDR, phdr];
    assert(vals@ =~= auxv_values(top, entry, phdr, phent, phnum, interp_base, execfn, platform));
    let mut out: Vec<(u64, u64)> = Vec::new();
    let mut sp = top;
    let mut k: usize = 0;
    while k < 38
        invariant
            vals@.len() == 38,
            top >= 38 * 8,
            k <= 38,
            sp == top - 8 * k,
            out@.len() == k,
            forall|q: int| 0 <= q < k ==> #[trigger] out@[q] == ((top - 8 * (q + 1)) as u64, vals@[q]),
        decreases 38 - k,
    {
        sp = sp - 8;
        out.push((sp, vals[k]));
        k = k + 1;
    }
    (out, sp)
}


/// A segment's protection is what its header's flags ask for: readable
/// exactly with `PF_R`, writable exactly with `PF_W`, executable exactly
/// with `PF_X`, and nothing else.
pub open spec fn prot_matches_flags(p: Prot, flags: u32) -> bool {
    &&& (p.bits & PROT_READ != 0) == (flags & PF_R != 0)
    &&& (p.bits & PROT_WRITE != 0) == (flags & PF_W != 0)
    &&& (p.bits & PROT_EXEC != 0) == (flags & PF_X != 0)
    &&& p.bits & !7u32 == 0
}

/// The mapping planned for a loadable header has the protection its flags
/// ask for.
pub proof fn law_segment_prot_follows_flags(ph: PhSegment, bias: u64)
    ensures
        prot_matches_flags(seg_map(ph, bias).prot, ph.p_flags),
{
    crate::flag_bits::lemma_flag_bits(0, ph.p_flags, 0, 0);
}

/// Every segment a load plan maps comes from a loadable header among the
/// ones planned, starts at that header's page, and has the protection that
/// header's flags ask for.
pub proof fn law_plan_segment_prots(phs: Seq<PhSegment>, n: int, bias: u64)
    requires
        0 <= n <= phs.len(),
        forall|i: int| 0 <= i < phs.len() ==> #[trigger] phs[i].p_vaddr + bias <= u64::MAX,
    ensures
        forall|k: int| 0 <= k < plan_upto(phs, n, bias).6.len() ==> exists|j: int| 0 <= j < n
            && #[trigger] phs[j].p_type == PT_LOAD
            && prot_matches_flags((#[trigger] plan_upto(phs, n, bias).6[k]).prot, phs[j].p_flags)
            && plan_upto(phs, n, bias).6[k].vaddr_page == (phs[j].p_vaddr + bias) - (phs[j].p_vaddr + bias) % PAGE_SIZE as int,
    decreases n,
{
    if n > 0 {
        law_plan_segment_prots(phs, n - 1, bias);
        let prev = plan_upto(phs, n - 1, bias).6;
        let cur = plan_upto(phs, n, bias).6;
        let ph = phs[n - 1];
        law_segment_prot_follows_flags(ph, bias);
        assert forall|k: int| 0 <= k < cur.len() implies exists|j: int| 0 <= j < n
            && #[trigger] phs[j].p_type == PT_LOAD
            && prot_matches_flags((#[trigger] plan_upto(phs, n, bias).6[k]).prot, phs[j].p_flags)
            && plan_upto(phs, n, bias).6[k].vaddr_page == (phs[j].p_vaddr + bias) - (phs[j].p_vaddr + bias) % PAGE_SIZE as int by {
            if k < prev.len() {
                assert(cur[k] == prev[k]);
                let j = choose|j: int| 0 <= j < n - 1 && #[trigger] phs[j].p_type == PT_LOAD
                    && prot_matches_flags((#[trigger] plan_upto(phs, n - 1, bias).6[k]).prot, phs[j].p_flags)
                    && plan_upto(phs, n - 1, bias).6[k].vaddr_page == (phs[j].p_vaddr + bias) - (phs[j].p_vaddr + bias) % PAGE_SIZE as int;
                assert(phs[j].p_type == PT_LOAD);
            } else {
                assert(ph.p_type == PT_LOAD && ph.p_memsz != 0);
                assert(cur == prev.push(seg_map(ph, bias)));
                assert(cur[k] == seg_map(ph, bias));
                assert(phs[n - 1].p_vaddr + bias <= u64::MAX);
                assert(phs[n - 1].p_type == PT_LOAD);
                assert(prot_matches_flags(plan_upto(phs, n, bias).6[k].prot, phs[n - 1].p_flags));
            }
        }
    }
}

} // verus!
