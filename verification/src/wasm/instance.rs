//! The instance pool: modules instantiated into a fixed number of slots,
//! each with its own zeroed linear memory and its imports bound to host
//! functions.
use vstd::prelude::*;
use crate::wasm::engine::{
    func_import_count, init_result, instantiate, module_min_pages, prepare_module, RunError, MAX_INSTANCES,
    MAX_MEM_PAGES,
};
use crate::wasm::host::{resolve_imports, resolved_imports, HostFunc};
use crate::wasm::interp::{Interpreter, PAGE_SIZE, InterpError, setup_error};
use crate::wasm::loader::load_spec;

verus! {

/// Longest instance name kept, in bytes.
pub const MAX_INST_NAME: usize = 32;

/// A module instance: its binary and name, the pages of memory it asked
/// for, the host functions its imports are bound to, and its interpreter.
pub struct Instance<'a> {
    pub bytes: &'a [u8],
    pub name: Vec<u8>,
    pub mem_pages: u32,
    pub hosts: Vec<HostFunc>,
    pub interp: Interpreter<'a>,
}

/// The name kept for an instance: its first `MAX_INST_NAME` bytes.
pub open spec fn inst_name(n: Seq<u8>) -> Seq<u8> {
    if n.len() <= MAX_INST_NAME {
        n
    } else {
        n.take(MAX_INST_NAME as int)
    }
}

/// The first empty slot at or after `i`.
pub open spec fn first_empty_from<T>(s: Seq<Option<T>>, i: int) -> Option<int>
    decreases s.len() - i,
{
    if i < 0 || i >= s.len() {
        None
    } else if s[i] is None {
        Some(i)
    } else {
        first_empty_from(s, i + 1)
    }
}

/// `n` zero bytes.
pub open spec fn zeros(n: nat) -> Seq<u8> {
    Seq::new(n, |i: int| 0u8)
}

/// The linear memory every instance gets: `MAX_MEM_PAGES` zeroed pages.
pub open spec fn fresh_memory() -> Seq<u8> {
    zeros((MAX_MEM_PAGES as nat) * (PAGE_SIZE as nat))
}

/// `MAX_INSTANCES` slots of module instances.
pub struct InstancePool<'a> {
    slots: Vec<Option<Instance<'a>>>,
}

impl<'a> InstancePool<'a> {
    /// The slots, in order.
    pub closed spec fn slots(&self) -> Seq<Option<Instance<'a>>> {
        self.slots@
    }

    /// There are `MAX_INSTANCES` slots.
    pub open spec fn wf(&self) -> bool {
        self.slots().len() == MAX_INSTANCES
    }

    /// A pool with every slot empty.
    pub fn new() -> (p: Self)
        ensures
            p.wf(),
            forall|i: int| 0 <= i < MAX_INSTANCES ==> #[trigger] p.slots()[i] is None,
    {
        let mut slots: Vec<Option<Instance<'a>>> = Vec::new();
        let mut k: usize = 0;
        while k < MAX_INSTANCES
            invariant
                k <= MAX_INSTANCES,
                slots@.len() == k,
                forall|i: int| 0 <= i < k ==> #[trigger] slots@[i] is None,
            decreases MAX_INSTANCES - k,
        {
            slots.push(None);
            k = k + 1;
        }
        InstancePool { slots }
    }

    /// Instantiate `bytes` as `name` into the first free slot, which is
    /// returned: with no slot free `Err(PoolFull)`; then the module is
    /// parsed (`Load`), its memory checked (`MemoryTooLarge`), its imports
    /// bound (`ImportNotFound`) and the interpreter built over fresh
    /// zeroed memory with the data segments laid in (`Interp`). On an error
    /// the pool is unchanged.
    pub fn spawn(&mut self, name: &[u8], bytes: &'a [u8]) -> (r: Result<usize, RunError>)
        requires
            old(self).wf(),
        ensures
            final(self).wf(),
            r is Err ==> final(self).slots() == old(self).slots(),
            first_empty_from(old(self).slots(), 0) is None ==> r == Err::<usize, RunError>(RunError::PoolFull),
            first_empty_from(old(self).slots(), 0) is Some ==> match load_spec(bytes@) {
                Err(e) => r == Err::<usize, RunError>(RunError::Load(e)),
                Ok(s) => if module_min_pages(s) > MAX_MEM_PAGES {
                    r == Err::<usize, RunError>(RunError::MemoryTooLarge)
                } else if s.import_section is Some && resolved_imports(s.import_section.unwrap()) is None {
                    r == Err::<usize, RunError>(RunError::ImportNotFound)
                } else {
                    match setup_error(s) {
                        Some(e) => r == Err::<usize, RunError>(RunError::Interp(e)),
                        None => match s.data_section {
                            Some(d) => if init_result(d, fresh_memory()).0 {
                                r is Ok
                            } else {
                                r == Err::<usize, RunError>(RunError::Interp(InterpError::MalformedCode))
                            },
                            None => r is Ok,
                        },
                    }
                },
            },
            r is Ok ==> {
                let h = r.unwrap() as int;
                let s = load_spec(bytes@)->Ok_0;
                let inst = final(self).slots()[h].unwrap();
                &&& Some(h) == first_empty_from(old(self).slots(), 0)
                &&& final(self).slots() == old(self).slots().update(h, Some(inst))
                &&& load_spec(bytes@) is Ok
                &&& inst.bytes@ == bytes@
                &&& inst.name@ == inst_name(name@)
                &&& inst.mem_pages == module_min_pages(s)
                &&& inst.hosts@ == match s.import_section {
                    Some(b) => resolved_imports(b).unwrap(),
                    None => Seq::<HostFunc>::empty(),
                }
                &&& inst.interp.wf()
                &&& inst.interp.stack().len() == 0
                &&& inst.interp.call_frames().len() == 0
                &&& inst.interp.pages() == module_min_pages(s)
                &&& inst.interp.imports() == func_import_count(s.import_section)
                &&& inst.interp.memory() == match s.data_section {
                    Some(d) => init_result(d, fresh_memory()).1,
                    None => fresh_memory(),
                }
            },
    {
        let mut slot: usize = 0;
        while slot < self.slots.len() && self.slots[slot].is_some()
            invariant
                slot <= self.slots@.len(),
                self.slots@.len() == MAX_INSTANCES,
                first_empty_from(self.slots@, 0) == first_empty_from(self.slots@, slot as int),
            decreases self.slots@.len() - slot,
        {
            slot = slot + 1;
        }
        if slot >= self.slots.len() {
            return Err(RunError::PoolFull);
        }
        let (module, min_pages, import_count) = prepare_module(bytes)?;
        let hosts = resolve_imports(module.import_section)?;
        let n: usize = MAX_MEM_PAGES as usize * PAGE_SIZE;
        let mem: Vec<u8> = vec![0u8; n];
        assert(mem@ =~= fresh_memory());
        let interp = instantiate(&module, import_count, mem, min_pages)?;
        let mut kept: Vec<u8> = Vec::new();
        let keep = if name.len() <= MAX_INST_NAME { name.len() } else { MAX_INST_NAME };
        let mut k: usize = 0;
        while k < keep
            invariant
                k <= keep,
                keep <= name@.len(),
                keep == inst_name(name@).len(),
                kept@ == name@.take(k as int),
            decreases keep - k,
        {
            kept.push(name[k]);
            k = k + 1;
            assert(kept@ =~= name@.take(k as int));
        }
        assert(kept@ =~= inst_name(name@));
        let inst = Instance { bytes, name: kept, mem_pages: min_pages, hosts, interp };
        self.slots.set(slot, Some(inst));
        Ok(slot)
    }

    /// Free slot `handle`, dropping its instance (nothing happens out of
    /// range).
    pub fn destroy(&mut self, handle: usize)
        requires
            old(self).wf(),
        ensures
            final(self).wf(),
            handle < MAX_INSTANCES ==> final(self).slots() == old(self).slots().update(handle as int, None),
            handle >= MAX_INSTANCES ==> final(self).slots() == old(self).slots(),
    {
        if handle < self.slots.len() {
            self.slots.set(handle, None);
        }
    }

    /// Take the instance out of slot `handle` to run it, leaving the slot
    /// empty until it is put back; `None` out of range.
    pub fn take(&mut self, handle: usize) -> (r: Option<Instance<'a>>)
        requires
            old(self).wf(),
        ensures
            final(self).wf(),
            handle < MAX_INSTANCES ==> r == old(self).slots()[handle as int] && final(self).slots() == old(
                self,
            ).slots().update(handle as int, None),
            handle >= MAX_INSTANCES ==> r is None && final(self).slots() == old(self).slots(),
    {
        if handle >= self.slots.len() {
            return None;
        }
        let mut out: Option<Instance<'a>> = None;
        std::mem::swap(&mut out, &mut self.slots[handle]);
        out
    }

    /// Put an instance back into slot `handle` (nothing happens out of
    /// range).
    pub fn put_back(&mut self, handle: usize, inst: Instance<'a>)
        requires
            old(self).wf(),
        ensures
            final(self).wf(),
            handle < MAX_INSTANCES ==> final(self).slots() == old(self).slots().update(handle as int, Some(inst)),
            handle >= MAX_INSTANCES ==> final(self).slots() == old(self).slots(),
    {
        if handle < self.slots.len() {
            self.slots.set(handle, Some(inst));
        }
    }

    /// `(handle, name, pages)` of each instance, by handle.
    pub fn list(&self) -> (r: Vec<(usize, Vec<u8>, u32)>)
        requires
            self.wf(),
        ensures
            r@.len() == self.slots().filter(|s: Option<Instance<'a>>| s is Some).len(),
            forall|k: int| 0 <= k < r@.len() ==> {
                let (h, n, p) = #[trigger] r@[k];
                &&& h < MAX_INSTANCES
                &&& self.slots()[h as int] is Some
                &&& n@ == self.slots()[h as int].unwrap().name@
                &&& p == self.slots()[h as int].unwrap().mem_pages
            },
            forall|k: int, j: int| 0 <= k < j < r@.len() ==> (#[trigger] r@[k]).0 < (#[trigger] r@[j]).0,
    {
        let mut out: Vec<(usize, Vec<u8>, u32)> = Vec::new();
        let mut i: usize = 0;
        while i < self.slots.len()
            invariant
                i <= self.slots@.len(),
                self.slots@.len() == MAX_INSTANCES,
                out@.len() == self.slots@.take(i as int).filter(|s: Option<Instance<'a>>| s is Some).len(),
                forall|k: int| 0 <= k < out@.len() ==> {
                    let (h, n, p) = #[trigger] out@[k];
                    &&& h < i
                    &&& self.slots@[h as int] is Some
                    &&& n@ == self.slots@[h as int].unwrap().name@
                    &&& p == self.slots@[h as int].unwrap().mem_pages
                },
                forall|k: int, j: int| 0 <= k < j < out@.len() ==> (#[trigger] out@[k]).0 < (#[trigger] out@[j]).0,
            decreases self.slots@.len() - i,
        {
            assert(self.slots@.take(i + 1).drop_last() =~= self.slots@.take(i as int));
            proof {
                reveal_with_fuel(Seq::filter, 1);
            }
            match &self.slots[i] {
                Some(inst) => {
                    let mut n: Vec<u8> = Vec::new();
                    crate::bytes::push_all(&mut n, inst.name.as_slice());
                    out.push((i, n, inst.mem_pages));
                },
                None => {},
            }
            i = i + 1;
        }
        assert(self.slots@.take(MAX_INSTANCES as int) =~= self.slots@);
        out
    }
}

} // verus!
