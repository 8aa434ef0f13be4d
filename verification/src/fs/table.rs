//! The table of named files: what the shell lists and the engine loads.
//! Entries are kept in registration order; removing one leaves a hole.
use vstd::prelude::*;
use vstd::string::StringSliceAdditionalSpecFns;
use crate::bytes::bytes_eq;
use crate::text::{str_or_empty, text_or_empty};

verus! {

/// Capacity of the file table.
pub const MAX_FILES: usize = 64;

/// Longest name kept, in bytes.
pub const MAX_NAME: usize = 64;

/// A registered file: its name (up to 64 bytes) and its data.
#[derive(Clone, Copy)]
pub struct File<'a> {
    name: [u8; 64],
    name_len: usize,
    pub data: &'a [u8],
}

/// A file as values: the stored name bytes and the data.
pub struct FileView {
    pub name: Seq<u8>,
    pub data: Seq<u8>,
}

impl<'a> File<'a> {
    /// The stored name bytes.
    pub closed spec fn name_bytes(&self) -> Seq<u8> {
        self.name@.take(if self.name_len <= 64 { self.name_len as int } else { 64 })
    }

    /// The file as values.
    pub closed spec fn view(&self) -> FileView {
        FileView { name: self.name_bytes(), data: self.data@ }
    }

    /// The name as text (`""` when the stored bytes are not valid UTF-8).
    pub fn name_str(&self) -> (s: &str)
        ensures
            s.spec_bytes() == text_or_empty(self.name_bytes()),
    {
        let n = if self.name_len <= 64 { self.name_len } else { 64 };
        let b = vstd::slice::slice_subrange(self.name.as_slice(), 0, n);
        assert(b@ =~= self.name_bytes());
        str_or_empty(b)
    }
}

/// Whether slot `s` holds a file whose name reads as `want`.
pub open spec fn slot_named(s: Option<FileView>, want: Seq<u8>) -> bool {
    s matches Some(f) && text_or_empty(f.name) == want
}

/// The first slot from `i` on holding a file named `want`.
pub open spec fn find_slot_from(v: Seq<Option<FileView>>, want: Seq<u8>, i: int) -> Option<int>
    decreases v.len() - i,
{
    if i < 0 || i >= v.len() {
        None
    } else if slot_named(v[i], want) {
        Some(i)
    } else {
        find_slot_from(v, want, i + 1)
    }
}

/// The files present, in order.
pub open spec fn present(v: Seq<Option<FileView>>) -> Seq<FileView>
    decreases v.len(),
{
    if v.len() == 0 {
        Seq::empty()
    } else {
        let rest = present(v.drop_last());
        match v.last() {
            Some(f) => rest.push(f),
            None => rest,
        }
    }
}

/// The name bytes kept for `name`: its first 64 bytes.
pub open spec fn kept_name(name: Seq<u8>) -> Seq<u8> {
    name.take(if name.len() <= 64 { name.len() as int } else { 64 })
}

/// The file table.
pub struct FileTable<'a> {
    slots: Vec<Option<File<'a>>>,
}

/// The view of a slot.
pub open spec fn slot_view<'a>(s: Option<File<'a>>) -> Option<FileView> {
    match s {
        Some(f) => Some(f.view()),
        None => None,
    }
}

impl<'a> FileTable<'a> {
    /// The slots in registration order (`None` for a removed file).
    pub closed spec fn slots(&self) -> Seq<Option<FileView>> {
        self.slots@.map_values(|s: Option<File<'a>>| slot_view(s))
    }

    /// An empty table.
    pub fn new() -> (t: Self)
        ensures
            t.slots() == Seq::<Option<FileView>>::empty(),
    {
        let t = FileTable { slots: Vec::new() };
        assert(t.slots() =~= Seq::<Option<FileView>>::empty());
        t
    }

    /// Empty the table.
    pub fn init(&mut self)
        ensures
            final(self).slots() == Seq::<Option<FileView>>::empty(),
    {
        self.slots.clear();
        assert(self.slots() =~= Seq::<Option<FileView>>::empty());
    }

    /// Register `data` under `name` (its first 64 bytes); nothing happens
    /// when the table already has 64 slots.
    pub fn register_file(&mut self, name: &str, data: &'a [u8])
        ensures
            old(self).slots().len() < MAX_FILES ==> final(self).slots() == old(self).slots().push(
                Some(FileView { name: kept_name(name.spec_bytes()), data: data@ }),
            ),
            old(self).slots().len() >= MAX_FILES ==> final(self).slots() == old(self).slots(),
    {
        if self.slots.len() < MAX_FILES {
            let src = name.as_bytes();
            let mut name_bytes = [0u8; 64];
            let mut len = src.len();
            if len > 64 {
                len = 64;
            }
            let mut j: usize = 0;
            while j < len
                invariant
                    j <= len,
                    len <= 64,
                    len <= src@.len(),
                    name_bytes@.len() == 64,
                    forall|k: int| 0 <= k < j ==> name_bytes@[k] == src@[k],
                decreases len - j,
            {
                name_bytes[j] = src[j];
                j = j + 1;
            }
            let f = File { name: name_bytes, name_len: len, data };
            assert(f.name_bytes() =~= kept_name(name.spec_bytes()));
            let ghost before = self.slots@;
            self.slots.push(Some(f));
            assert(self.slots() =~= old(self).slots().push(Some(f.view())));
        }
    }

    /// The data of the first file named `name`.
    pub fn find_file(&self, name: &str) -> (r: Option<&'a [u8]>)
        ensures
            match find_slot_from(self.slots(), name.spec_bytes(), 0) {
                Some(i) => r is Some && r.unwrap()@ == self.slots()[i].unwrap().data,
                None => r is None,
            },
    {
        let want = name.as_bytes();
        let mut i: usize = 0;
        while i < self.slots.len()
            invariant
                i <= self.slots@.len(),
                want@ == name.spec_bytes(),
                find_slot_from(self.slots(), want@, 0) == find_slot_from(self.slots(), want@, i as int),
            decreases self.slots@.len() - i,
        {
            match self.slots[i] {
                Some(f) => {
                    if bytes_eq(f.name_str().as_bytes(), want) {
                        assert(slot_named(self.slots()[i as int], want@));
                        return Some(f.data);
                    }
                },
                None => {},
            }
            i = i + 1;
        }
        None
    }

    /// The files present, in registration order.
    pub fn files(&self) -> (r: Vec<File<'a>>)
        ensures
            r@.map_values(|f: File<'a>| f.view()) == present(self.slots()),
    {
        let mut out: Vec<File<'a>> = Vec::new();
        let mut i: usize = 0;
        while i < self.slots.len()
            invariant
                i <= self.slots@.len(),
                out@.map_values(|f: File<'a>| f.view()) == present(self.slots().take(i as int)),
            decreases self.slots@.len() - i,
        {
            assert(self.slots().take(i + 1).drop_last() =~= self.slots().take(i as int));
            let ghost before = out@;
            match self.slots[i] {
                Some(f) => {
                    out.push(f);
                    assert(out@.map_values(|f: File<'a>| f.view()) =~= before.map_values(
                        |f: File<'a>| f.view(),
                    ).push(f.view()));
                },
                None => {},
            }
            i = i + 1;
        }
        assert(self.slots().take(self.slots@.len() as int) =~= self.slots());
        out
    }

    /// Remove the first file named `name`, leaving a hole; `false` when
    /// there is none.
    pub fn remove_file(&mut self, name: &str) -> (r: bool)
        ensures
            match find_slot_from(old(self).slots(), name.spec_bytes(), 0) {
                Some(i) => r && final(self).slots() == old(self).slots().update(i, None),
                None => !r && final(self).slots() == old(self).slots(),
            },
    {
        let want = name.as_bytes();
        let mut i: usize = 0;
        while i < self.slots.len()
            invariant
                i <= self.slots@.len(),
                want@ == name.spec_bytes(),
                *self == *old(self),
                find_slot_from(self.slots(), want@, 0) == find_slot_from(self.slots(), want@, i as int),
            decreases self.slots@.len() - i,
        {
            let hit = match self.slots[i] {
                Some(f) => bytes_eq(f.name_str().as_bytes(), want),
                None => false,
            };
            if hit {
                assert(slot_named(self.slots()[i as int], want@));
                self.slots.set(i, None);
                assert(self.slots() =~= old(self).slots().update(i as int, None));
                return true;
            }
            i = i + 1;
        }
        false
    }
}

/// `find_slot_from` is unchanged by slots after the ones it looks at
/// before a hit, and by slots before `i`.
proof fn lemma_find_slot_push(v: Seq<Option<FileView>>, s: Option<FileView>, want: Seq<u8>, i: int)
    requires
        0 <= i <= v.len(),
        find_slot_from(v, want, i) is None,
    ensures
        find_slot_from(v.push(s), want, i) == if slot_named(s, want) { Some(v.len() as int) } else { None },
    decreases v.len() - i,
{
    if i < v.len() {
        assert(v.push(s)[i] == v[i]);
        lemma_find_slot_push(v, s, want, i + 1);
    } else {
        assert(v.push(s)[v.len() as int] == s);
        assert(find_slot_from(v.push(s), want, v.len() + 1int) is None);
    }
}

/// A file registered under a name no file has yet is the one found by that
/// name, with the data registered.
pub proof fn lemma_register_then_find(v: Seq<Option<FileView>>, name: Seq<u8>, data: Seq<u8>)
    requires
        name.len() <= MAX_NAME,
        vstd::utf8::valid_utf8(name),
        find_slot_from(v, name, 0) is None,
    ensures
        ({
            let v2 = v.push(Some(FileView { name: kept_name(name), data }));
            &&& find_slot_from(v2, name, 0) == Some(v.len() as int)
            &&& v2[v.len() as int].unwrap().data == data
        }),
{
    assert(kept_name(name) =~= name);
    lemma_find_slot_push(v, Some(FileView { name: kept_name(name), data }), name, 0);
}

/// Past the first hit, `find_slot_from` from an earlier start agrees with
/// a search that starts after that hit, when the hit is emptied.
proof fn lemma_find_slot_hole(v: Seq<Option<FileView>>, want: Seq<u8>, i: int, k: int)
    requires
        0 <= i <= k < v.len(),
        find_slot_from(v, want, i) == Some(k),
    ensures
        find_slot_from(v.update(k, None), want, i) == find_slot_from(v, want, k + 1),
    decreases k - i,
{
    let w = v.update(k, None);
    if i < k {
        assert(w[i] == v[i]);
        lemma_find_slot_hole(v, want, i + 1, k);
    } else {
        assert(!slot_named(w[k], want));
        lemma_find_slot_same(v, w, want, k + 1);
    }
}

/// Two tables that agree from `i` on search alike from `i` on.
proof fn lemma_find_slot_same(v: Seq<Option<FileView>>, w: Seq<Option<FileView>>, want: Seq<u8>, i: int)
    requires
        0 <= i,
        v.len() == w.len(),
        forall|j: int| i <= j < v.len() ==> v[j] == w[j],
    ensures
        find_slot_from(w, want, i) == find_slot_from(v, want, i),
    decreases v.len() - i,
{
    if i < v.len() {
        lemma_find_slot_same(v, w, want, i + 1);
    }
}

/// Removing the file found by a name leaves the next file of that name
/// (if any) to be found.
pub proof fn lemma_remove_then_find(v: Seq<Option<FileView>>, name: Seq<u8>)
    requires
        find_slot_from(v, name, 0) is Some,
    ensures
        ({
            let k = find_slot_from(v, name, 0).unwrap();
            find_slot_from(v.update(k, None), name, 0) == find_slot_from(v, name, k + 1)
        }),
{
    let k = find_slot_from(v, name, 0).unwrap();
    lemma_find_slot_range(v, name, 0);
    lemma_find_slot_hole(v, name, 0, k);
}

/// A hit of `find_slot_from` lies in range.
proof fn lemma_find_slot_range(v: Seq<Option<FileView>>, want: Seq<u8>, i: int)
    requires
        0 <= i,
    ensures
        find_slot_from(v, want, i) matches Some(k) ==> i <= k < v.len(),
    decreases v.len() - i,
{
    if i < v.len() {
        lemma_find_slot_range(v, want, i + 1);
    }
}

} // verus!
