//! Loadable kernel modules: a registry by name and the load/unload state
//! of each. Running a module's entry point is the caller's part; the
//! registry decides whether it runs and records the outcome.
use vstd::prelude::*;

verus! {

pub struct KernelModule {
    pub name: String,
    pub version: String,
    pub author: String,
    pub desc: String,
    pub loaded: bool,
    pub deps: Vec<String>,
}

impl KernelModule {
    /// A module not yet loaded, by the default author, with no
    /// description or dependencies.
    pub fn new(name: &str, version: &str) -> (r: KernelModule)
        ensures
            r.name@ == name@,
            r.version@ == version@,
            r.author@ == "Qunix"@,
            r.desc@.len() == 0,
            !r.loaded,
            r.deps@.len() == 0,
    {
        KernelModule {
            name: name.to_owned(),
            version: version.to_owned(),
            author: "Qunix".to_owned(),
            desc: String::new(),
            loaded: false,
            deps: Vec::new(),
        }
    }
}

/// The registered modules, in registration order.
pub struct ModuleRegistry {
    pub modules: Vec<KernelModule>,
}

/// The first module named `name` at or after `i`, or -1.
pub open spec fn find_from(ms: Seq<KernelModule>, name: Seq<char>, i: int) -> int
    decreases ms.len() - i,
{
    if i < 0 || i >= ms.len() {
        -1
    } else if ms[i].name@ == name {
        i
    } else {
        find_from(ms, name, i + 1)
    }
}

proof fn lemma_find_from_range(ms: Seq<KernelModule>, name: Seq<char>, i: int)
    requires
        0 <= i,
    ensures
        find_from(ms, name, i) == -1 || (i <= find_from(ms, name, i) < ms.len()
            && ms[find_from(ms, name, i)].name@ == name),
    decreases ms.len() - i,
{
    if i < ms.len() && ms[i].name@ != name {
        lemma_find_from_range(ms, name, i + 1);
    }
}

/// The names of the modules built into the kernel, registered at start.
pub open spec fn builtin_names() -> Seq<Seq<char>> {
    seq!["virtio_net"@, "virtio_blk"@, "ext4"@, "btrfs"@, "xfs"@, "drm_qunix"@, "alsa_qunix"@, "usbhid"@]
}

impl ModuleRegistry {
    pub fn new() -> (r: ModuleRegistry)
        ensures
            r.modules@.len() == 0,
    {
        ModuleRegistry { modules: Vec::new() }
    }

    /// The index of the first module named `name`.
    pub fn find(&self, name: &str) -> (r: Option<usize>)
        ensures
            r is None <==> find_from(self.modules@, name@, 0) == -1,
            r matches Some(i) ==> i as int == find_from(self.modules@, name@, 0),
    {
        let key: String = name.to_owned();
        let mut i: usize = 0;
        while i < self.modules.len()
            invariant
                i <= self.modules@.len(),
                key@ == name@,
                find_from(self.modules@, name@, 0) == find_from(self.modules@, name@, i as int),
            decreases self.modules@.len() - i,
        {
            if self.modules[i].name == key {
                return Some(i);
            }
            i = i + 1;
        }
        None
    }
}

/// Registers the built-in modules, none of them loaded.
pub fn init(reg: &mut ModuleRegistry)
    ensures
        final(reg).modules@.len() == old(reg).modules@.len() + 8,
        forall|i: int| 0 <= i < old(reg).modules@.len() ==> #[trigger] final(reg).modules@[i] == old(reg).modules@[i],
        forall|k: int| 0 <= k < 8 ==> (#[trigger] final(reg).modules@[old(reg).modules@.len() + k]).name@ == builtin_names()[k]
            && !final(reg).modules@[old(reg).modules@.len() + k].loaded,
{
    let names = ["virtio_net", "virtio_blk", "ext4", "btrfs", "xfs", "drm_qunix", "alsa_qunix", "usbhid"];
    proof {
        reveal_strlit("virtio_net");
        reveal_strlit("virtio_blk");
        reveal_strlit("ext4");
        reveal_strlit("btrfs");
        reveal_strlit("xfs");
        reveal_strlit("drm_qunix");
        reveal_strlit("alsa_qunix");
        reveal_strlit("usbhid");
    }
    let ghost n0 = reg.modules@.len();
    let mut k: usize = 0;
    while k < 8
        invariant
            k <= 8,
            reg.modules@.len() == n0 + k,
            n0 == old(reg).modules@.len(),
            forall|i: int| 0 <= i < n0 ==> #[trigger] reg.modules@[i] == old(reg).modules@[i],
            forall|j: int| 0 <= j < 8 ==> #[trigger] names@[j]@ == builtin_names()[j],
            forall|j: int| 0 <= j < k ==> (#[trigger] reg.modules@[n0 + j]).name@ == builtin_names()[j]
                && !reg.modules@[n0 + j].loaded,
        decreases 8 - k,
    {
        register(reg, KernelModule::new(names[k], "0.1"));
        k = k + 1;
    }
}

/// Adds a module at the end of the registry.
pub fn register(reg: &mut ModuleRegistry, m: KernelModule)
    ensures
        final(reg).modules@ == old(reg).modules@.push(m),
{
    reg.modules.push(m);
}

/// The module `load` would start: the index of the first module named
/// `name`, "not found" when there is none, "already loaded" when it is.
fn load_target(reg: &ModuleRegistry, name: &str) -> (r: Result<usize, &'static str>)
    ensures
        find_from(reg.modules@, name@, 0) < 0 ==> r is Err && r->Err_0@ == "not found"@,
        find_from(reg.modules@, name@, 0) >= 0 && reg.modules@[find_from(reg.modules@, name@, 0)].loaded
            ==> r is Err && r->Err_0@ == "already loaded"@,
        find_from(reg.modules@, name@, 0) >= 0 && !reg.modules@[find_from(reg.modules@, name@, 0)].loaded
            ==> (r matches Ok(i) && i as int == find_from(reg.modules@, name@, 0)),
{
    proof {
        lemma_find_from_range(reg.modules@, name@, 0);
        reveal_strlit("not found");
        reveal_strlit("already loaded");
    }
    match reg.find(name) {
        None => Err("not found"),
        Some(i) => {
            if reg.modules[i].loaded {
                Err("already loaded")
            } else {
                Ok(i)
            }
        },
    }
}

/// Loads the first module named `name`, running `run_init` on it: "not
/// found" when there is none, "already loaded" when it is loaded, else the
/// entry point's own result, the module being marked loaded exactly when
/// it succeeded.
pub fn load<F: Fn(&KernelModule) -> Result<(), &'static str>>(reg: &mut ModuleRegistry, name: &str, run_init: F) -> (r: Result<(), &'static str>)
    requires
        forall|m: &KernelModule| call_requires(run_init, (m,)),
    ensures
        find_from(old(reg).modules@, name@, 0) < 0 ==> r is Err && r->Err_0@ == "not found"@
            && final(reg).modules@ == old(reg).modules@,
        find_from(old(reg).modules@, name@, 0) >= 0 && old(reg).modules@[find_from(old(reg).modules@, name@, 0)].loaded
            ==> r is Err && r->Err_0@ == "already loaded"@ && final(reg).modules@ == old(reg).modules@,
        find_from(old(reg).modules@, name@, 0) >= 0 && !old(reg).modules@[find_from(old(reg).modules@, name@, 0)].loaded
            ==> ({
            let ms = old(reg).modules@;
            let i = find_from(ms, name@, 0);
            &&& call_ensures(run_init, (&ms[i],), r)
            &&& final(reg).modules@.len() == ms.len()
            &&& final(reg).modules@[i].loaded == (r is Ok)
            &&& final(reg).modules@[i].name == ms[i].name
            &&& final(reg).modules@[i].version == ms[i].version
            &&& forall|j: int| 0 <= j < ms.len() && j != i ==> #[trigger] final(reg).modules@[j] == ms[j]
        }),
        r is Ok ==> loaded_now(old(reg).modules@, name@, final(reg).modules@),
{
    proof {
        lemma_find_from_range(reg.modules@, name@, 0);
    }
    let i = match load_target(reg, name) {
        Err(e) => {
            return Err(e);
        },
        Ok(i) => i,
    };
    let res = run_init(&reg.modules[i]);
    assert(call_ensures(run_init, (&old(reg).modules@[i as int],), res));
    match res {
        Ok(v) => {
            let ghost before = reg.modules@;
            let mut m = reg.modules.remove(i);
            m.loaded = true;
            reg.modules.insert(i, m);
            proof {
                assert forall|j: int| 0 <= j < before.len() && j != i implies #[trigger] reg.modules@[j] == before[j] by {}
                assert(reg.modules@[i as int].loaded);
                assert(reg.modules@.len() == before.len());
            }
            Ok(v)
        },
        Err(e) => {
            assert(reg.modules@ == old(reg).modules@);
            assert(call_ensures(run_init, (&old(reg).modules@[i as int],), Err(e)));
            Err(e)
        },
    }
}

/// What unloading `name` from the modules `ms` leaves (`fin`) and
/// answers (`r`): "not found" when no module has that name, "not loaded"
/// when the first one is not loaded, else that module marked unloaded.
pub open spec fn unload_post(ms: Seq<KernelModule>, name: Seq<char>, fin: Seq<KernelModule>, r: Result<(), &'static str>) -> bool {
    let i = find_from(ms, name, 0);
    if i < 0 {
        &&& r matches Err(e) && e@ == "not found"@
        &&& fin == ms
    } else if !ms[i].loaded {
        &&& r matches Err(e) && e@ == "not loaded"@
        &&& fin == ms
    } else {
        &&& r is Ok
        &&& fin.len() == ms.len()
        &&& !fin[i].loaded
        &&& fin[i].name == ms[i].name
        &&& fin[i].version == ms[i].version
        &&& forall|j: int| 0 <= j < ms.len() && j != i ==> #[trigger] fin[j] == ms[j]
    }
}

/// `fin` is `ms` with the first module named `name` now loaded.
pub open spec fn loaded_now(ms: Seq<KernelModule>, name: Seq<char>, fin: Seq<KernelModule>) -> bool {
    let i = find_from(ms, name, 0);
    &&& 0 <= i
    &&& fin.len() == ms.len()
    &&& fin[i].loaded
    &&& fin[i].name == ms[i].name
    &&& fin[i].version == ms[i].version
    &&& forall|j: int| 0 <= j < ms.len() && j != i ==> #[trigger] fin[j] == ms[j]
}

/// Unloads the first module named `name`, running `run_exit` on it (see
/// `unload_post`).
pub fn unload<F: Fn(&KernelModule)>(reg: &mut ModuleRegistry, name: &str, run_exit: F) -> (r: Result<(), &'static str>)
    requires
        forall|m: &KernelModule| call_requires(run_exit, (m,)),
    ensures
        unload_post(old(reg).modules@, name@, final(reg).modules@, r),
{
    proof {
        lemma_find_from_range(reg.modules@, name@, 0);
        reveal_strlit("not found");
        reveal_strlit("not loaded");
    }
    match reg.find(name) {
        None => Err("not found"),
        Some(i) => {
            if !reg.modules[i].loaded {
                return Err("not loaded");
            }
            run_exit(&reg.modules[i]);
            let ghost before = reg.modules@;
            let mut m = reg.modules.remove(i);
            m.loaded = false;
            reg.modules.insert(i, m);
            proof {
                assert forall|j: int| 0 <= j < before.len() && j != i implies #[trigger] reg.modules@[j] == before[j] by {}
            }
            Ok(())
        },
    }
}

/// Name, version and load state of every module, in registration order.
pub fn list(reg: &ModuleRegistry) -> (r: Vec<(String, String, bool)>)
    ensures
        r@.len() == reg.modules@.len(),
        forall|i: int| 0 <= i < r@.len() ==> (#[trigger] r@[i]).0@ == reg.modules@[i].name@
            && r@[i].1@ == reg.modules@[i].version@ && r@[i].2 == reg.modules@[i].loaded,
{
    let mut out: Vec<(String, String, bool)> = Vec::new();
    let mut i: usize = 0;
    while i < reg.modules.len()
        invariant
            i <= reg.modules@.len(),
            out@.len() == i,
            forall|k: int| 0 <= k < i ==> (#[trigger] out@[k]).0@ == reg.modules@[k].name@
                && out@[k].1@ == reg.modules@[k].version@ && out@[k].2 == reg.modules@[k].loaded,
        decreases reg.modules@.len() - i,
    {
        let m = &reg.modules[i];
        out.push((m.name.clone(), m.version.clone(), m.loaded));
        i = i + 1;
    }
    out
}

/// Whether some module named `name` is loaded.
pub fn is_loaded(reg: &ModuleRegistry, name: &str) -> (r: bool)
    ensures
        r == exists|i: int| 0 <= i < reg.modules@.len() && (#[trigger] reg.modules@[i]).name@ == name@
            && reg.modules@[i].loaded,
{
    let key: String = name.to_owned();
    let mut i: usize = 0;
    while i < reg.modules.len()
        invariant
            i <= reg.modules@.len(),
            key@ == name@,
            forall|k: int| 0 <= k < i ==> !((#[trigger] reg.modules@[k]).name@ == name@ && reg.modules@[k].loaded),
        decreases reg.modules@.len() - i,
    {
        if reg.modules[i].name == key && reg.modules[i].loaded {
            return true;
        }
        i = i + 1;
    }
    false
}

proof fn lemma_find_same_names(a: Seq<KernelModule>, b: Seq<KernelModule>, name: Seq<char>, i: int)
    requires
        a.len() == b.len(),
        forall|j: int| 0 <= j < a.len() ==> (#[trigger] a[j]).name@ == b[j].name@,
    ensures
        find_from(a, name, i) == find_from(b, name, i),
    decreases a.len() - i,
{
    if 0 <= i < a.len() {
        lemma_find_same_names(a, b, name, i + 1);
    }
}

/// A module that was just loaded unloads: the first unload succeeds and
/// leaves it not loaded, and a second one answers "not loaded" and changes
/// nothing.
pub proof fn law_load_then_unload(ms0: Seq<KernelModule>, ms1: Seq<KernelModule>, ms2: Seq<KernelModule>,
    ms3: Seq<KernelModule>, name: Seq<char>, r2: Result<(), &'static str>, r3: Result<(), &'static str>)
    requires
        loaded_now(ms0, name, ms1),
        unload_post(ms1, name, ms2, r2),
        unload_post(ms2, name, ms3, r3),
    ensures
        r2 is Ok,
        find_from(ms2, name, 0) >= 0 && !ms2[find_from(ms2, name, 0)].loaded,
        r3 matches Err(e) && e@ == "not loaded"@,
        ms3 == ms2,
{
    let i = find_from(ms0, name, 0);
    lemma_find_from_range(ms0, name, 0);
    assert forall|j: int| 0 <= j < ms0.len() implies (#[trigger] ms0[j]).name@ == ms1[j].name@ by {
        if j != i {
            assert(ms1[j] == ms0[j]);
        }
    }
    lemma_find_same_names(ms0, ms1, name, 0);
    assert forall|j: int| 0 <= j < ms1.len() implies (#[trigger] ms1[j]).name@ == ms2[j].name@ by {
        if j != i {
            assert(ms2[j] == ms1[j]);
        }
    }
    lemma_find_same_names(ms1, ms2, name, 0);
}

} // verus!
