//! Open files of segments: each has a handle that counts its users.
use vstd::prelude::*;
use crate::ordmap::OrdMap;
use crate::text::{all_distinct, lemma_distinct_push, lists_text, text_copy};

verus! {

/// A file that is open.
#[derive(Debug)]
pub struct FileHandle {
    pub path: String,
    pub ref_count: usize,
    pub size: u64,
    /// Whether the file is mapped into memory.
    pub is_mmap: bool,
}

impl FileHandle {
    /// A file that is read the usual way, with one user.
    pub fn new(path: String, size: u64) -> (r: Self)
        ensures
            r == (FileHandle { path, ref_count: 1, size, is_mmap: false }),
    {
        FileHandle { path, ref_count: 1, size, is_mmap: false }
    }

    /// A file that is mapped into memory, with one user.
    pub fn new_mmap(path: String, size: u64) -> (r: Self)
        ensures
            r == (FileHandle { path, ref_count: 1, size, is_mmap: true }),
    {
        FileHandle { path, ref_count: 1, size, is_mmap: true }
    }

    /// Counts a user.
    pub fn acquire(&mut self)
        requires
            old(self).ref_count < usize::MAX,
        ensures
            *final(self) == (FileHandle {
                ref_count: (old(self).ref_count + 1) as usize,
                ..*old(self)
            }),
    {
        self.ref_count = self.ref_count + 1;
    }

    /// Takes a user off, and tells how many are left.
    pub fn release(&mut self) -> (r: usize)
        requires
            old(self).ref_count > 0,
        ensures
            *final(self) == (FileHandle {
                ref_count: (old(self).ref_count - 1) as usize,
                ..*old(self)
            }),
            r == old(self).ref_count - 1,
    {
        self.ref_count = self.ref_count - 1;
        self.ref_count
    }

    /// How many users there are.
    pub fn ref_count(&self) -> (r: usize)
        ensures
            r == self.ref_count,
    {
        self.ref_count
    }
}

/// The open files below a directory.
#[derive(Debug)]
pub struct FileManager {
    pub data_dir: String,
    pub handles: OrdMap<String, FileHandle>,
    pub readers: OrdMap<String, ()>,
}

/// How many bytes the first `n` open files have.
pub open spec fn size_of_first(handles: OrdMap<String, FileHandle>, n: int) -> nat
    decreases n,
{
    if n <= 0 {
        0
    } else {
        size_of_first(handles, n - 1) + handles.value_of(n - 1).size as nat
    }
}

proof fn lemma_size_grows(handles: OrdMap<String, FileHandle>, n: int, m: int)
    requires
        n <= m,
    ensures
        size_of_first(handles, n) <= size_of_first(handles, m),
    decreases m - n,
{
    if n < m && m > 0 {
        lemma_size_grows(handles, n, m - 1);
    }
}

impl FileManager {
    /// Every handle that is kept has a user and bears the path it is kept under.
    pub open spec fn wf(&self) -> bool {
        &&& self.handles.wf()
        &&& self.readers.wf()
        &&& forall|p: Seq<char>| #[trigger]
            self.handles@.dom().contains(p) ==> self.handles@[p].ref_count > 0
                && self.handles@[p].path@ == p
    }

    /// A directory without open files.
    pub fn new(data_dir: String) -> (r: Self)
        ensures
            r.wf(),
            r.data_dir == data_dir,
            r.handles@ == Map::<Seq<char>, FileHandle>::empty(),
            r.readers@ == Map::<Seq<char>, ()>::empty(),
    {
        FileManager { data_dir, handles: OrdMap::new(), readers: OrdMap::new() }
    }

    /// The directory.
    pub fn data_dir(&self) -> (r: &str)
        ensures
            r@ == self.data_dir@,
    {
        self.data_dir.as_str()
    }

    /// The handle of a file that is open already.
    pub fn cached(&self, path: &str) -> (r: Option<&FileHandle>)
        requires
            self.wf(),
        ensures
            match r {
                Some(h) => self.handles@.dom().contains(path@) && *h == self.handles@[path@],
                None => !self.handles@.dom().contains(path@),
            },
    {
        let key = text_copy(path);
        self.handles.get(&key)
    }

    /// Keeps a handle for a file of some size that was just opened, with two
    /// users: the manager, and the one who opened it. If there is a handle
    /// already, it gets one user more.
    pub fn open(&mut self, path: &str, size: u64)
        requires
            old(self).wf(),
            old(self).handles@.dom().contains(path@) ==> old(self).handles@[path@].ref_count
                < usize::MAX,
        ensures
            final(self).wf(),
            final(self).data_dir == old(self).data_dir,
            final(self).readers == old(self).readers,
            final(self).handles@.dom() == old(self).handles@.dom().insert(path@),
            forall|p: Seq<char>|
                #![trigger final(self).handles@[p]]
                p != path@ && old(self).handles@.dom().contains(p) ==> final(self).handles@[p]
                    == old(self).handles@[p],
            if old(self).handles@.dom().contains(path@) {
                final(self).handles@[path@] == (FileHandle {
                    ref_count: (old(self).handles@[path@].ref_count + 1) as usize,
                    ..old(self).handles@[path@]
                })
            } else {
                let h = final(self).handles@[path@];
                h.path@ == path@ && h.ref_count == 2 && h.size == size && !h.is_mmap
            },
    {
        let key = text_copy(path);
        let mut handle = match self.handles.remove(&key) {
            Some(h) => h,
            None => FileHandle::new(text_copy(path), size),
        };
        handle.acquire();
        let _ = self.handles.insert(key, handle);
        assert(self.handles@.dom() =~= old(self).handles@.dom().insert(path@));
    }

    /// Keeps a handle for a file of some size that was just mapped, with two
    /// users, unless there is a handle already.
    pub fn open_mmap(&mut self, path: &str, size: u64)
        requires
            old(self).wf(),
        ensures
            final(self).wf(),
            final(self).data_dir == old(self).data_dir,
            final(self).readers == old(self).readers,
            if old(self).handles@.dom().contains(path@) {
                final(self).handles == old(self).handles
            } else {
                let h = final(self).handles@[path@];
                &&& final(self).handles@ == old(self).handles@.insert(path@, h)
                &&& h.path@ == path@ && h.ref_count == 2 && h.size == size && h.is_mmap
            },
    {
        let key = text_copy(path);
        if self.handles.contains_key(&key) {
            return;
        }
        let mut handle = FileHandle::new_mmap(text_copy(path), size);
        handle.acquire();
        let ghost kept = handle;
        let _ = self.handles.insert(key, handle);
        assert(self.handles@ =~= old(self).handles@.insert(path@, kept));
    }

    /// Keeps a reader for a file that was just opened; one reader is shared by
    /// all who read the file. Tells whether it is a new one.
    pub fn open_reader(&mut self, path: &str) -> (r: bool)
        requires
            old(self).wf(),
        ensures
            final(self).wf(),
            final(self).data_dir == old(self).data_dir,
            final(self).handles == old(self).handles,
            final(self).readers@ == old(self).readers@.insert(path@, ()),
            r == !old(self).readers@.dom().contains(path@),
    {
        match self.readers.insert(text_copy(path), ()) {
            Some(_) => false,
            None => true,
        }
    }

    /// Takes a user off the handle of a file; without users it is dropped.
    pub fn close(&mut self, path: &str)
        requires
            old(self).wf(),
        ensures
            final(self).wf(),
            final(self).data_dir == old(self).data_dir,
            final(self).readers == old(self).readers,
            if !old(self).handles@.dom().contains(path@) {
                final(self).handles@ == old(self).handles@
            } else {
                let h = old(self).handles@[path@];
                if h.ref_count == 1 {
                    final(self).handles@ == old(self).handles@.remove(path@)
                } else {
                    final(self).handles@ == old(self).handles@.insert(
                        path@,
                        (FileHandle { ref_count: (h.ref_count - 1) as usize, ..h }),
                    )
                }
            },
    {
        let key = text_copy(path);
        let ghost before = self.handles@;
        match self.handles.remove(&key) {
            Some(handle) => {
                let mut h = handle;
                assert(before.dom().contains(path@));
                let left: usize = h.release();
                if left > 0 {
                    let ghost kept = h;
                    let _ = self.handles.insert(key, h);
                    assert(self.handles@ =~= before.insert(path@, kept));
                }
            },
            None => {
                assert(self.handles@ =~= before);
            },
        }
    }

    /// Drops the reader of a file.
    pub fn close_reader(&mut self, path: &str)
        requires
            old(self).wf(),
        ensures
            final(self).wf(),
            final(self).data_dir == old(self).data_dir,
            final(self).handles == old(self).handles,
            final(self).readers@ == old(self).readers@.remove(path@),
    {
        let key = text_copy(path);
        let _ = self.readers.remove(&key);
    }

    /// The paths of the open files, in order.
    pub fn open_files(&self) -> (r: Vec<String>)
        requires
            self.wf(),
        ensures
            r@.map_values(|s: String| s@) == self.handles.keys(),
    {
        let mut r: Vec<String> = Vec::new();
        let n: usize = self.handles.len();
        let mut i: usize = 0;
        while i < n
            invariant
                n == self.handles.keys().len(),
                i <= n,
                r@.len() == i,
                forall|k: int| #![trigger r@[k]] 0 <= k < i ==> r@[k]@ == self.handles.keys()[k],
            decreases n - i,
        {
            r.push(self.handles.key_at(i).clone());
            i = i + 1;
        }
        assert(r@.map_values(|s: String| s@) =~= self.handles.keys());
        r
    }

    /// How many bytes the open files have.
    pub fn total_open_size(&self) -> (r: u64)
        requires
            self.wf(),
            size_of_first(self.handles, self.handles.keys().len() as int) <= u64::MAX,
        ensures
            r == size_of_first(self.handles, self.handles.keys().len() as int),
    {
        let n: usize = self.handles.len();
        let mut total: u64 = 0;
        let mut i: usize = 0;
        while i < n
            invariant
                n == self.handles.keys().len(),
                i <= n,
                total == size_of_first(self.handles, i as int),
                size_of_first(self.handles, n as int) <= u64::MAX,
            decreases n - i,
        {
            proof {
                lemma_size_grows(self.handles, i + 1, n as int);
            }
            total = total + self.handles.value_at(i).size;
            i = i + 1;
        }
        total
    }

    /// How many files are open.
    pub fn handle_count(&self) -> (r: usize)
        requires
            self.wf(),
        ensures
            r == self.handles@.dom().len(),
    {
        proof {
            self.handles.lemma_dom();
        }
        self.handles.len()
    }

    /// How many readers are kept.
    pub fn reader_count(&self) -> (r: usize)
        requires
            self.wf(),
        ensures
            r == self.readers@.dom().len(),
    {
        proof {
            self.readers.lemma_dom();
        }
        self.readers.len()
    }

    /// The mapped files, which are the ones that are written back.
    pub fn mapped_files(&self) -> (r: Vec<String>)
        requires
            self.wf(),
        ensures
            forall|p: Seq<char>|
                #![trigger self.handles@.dom().contains(p)]
                self.handles@.dom().contains(p) && self.handles@[p].is_mmap <==> lists(r@, p),
            all_distinct(r@),
    {
        let mut r: Vec<String> = Vec::new();
        let n: usize = self.handles.len();
        proof {
            self.handles.lemma_dom();
        }
        let mut i: usize = 0;
        while i < n
            invariant
                self.wf(),
                n == self.handles.keys().len(),
                i <= n,
                forall|k: int|
                    #![trigger r@[k]]
                    0 <= k < r@.len() ==> self.handles@.dom().contains(r@[k]@)
                        && self.handles@[r@[k]@].is_mmap && self.handles.keys().take(i as int).contains(
                        r@[k]@,
                    ),
                self.handles.keys().no_duplicates(),
                all_distinct(r@),
                forall|j: int|
                    #![trigger self.handles.value_of(j)]
                    0 <= j < i && self.handles.value_of(j).is_mmap ==> lists(
                        r@,
                        self.handles.keys()[j],
                    ),
            decreases n - i,
        {
            proof {
                self.handles.lemma_index(i as int);
            }
            let ghost before = r@;
            proof {
                let keys = self.handles.keys();
                let now = keys.take(i as int);
                let next = keys.take(i + 1);
                assert(next =~= now.push(keys[i as int]));
                assert forall|s: Seq<char>| #[trigger] now.contains(s) implies next.contains(s) by {
                    let j = choose|j: int| 0 <= j < now.len() && now[j] == s;
                    assert(next[j] == s);
                }
                assert(next[i as int] == keys[i as int]);
                assert(next.contains(keys[i as int]));
                if now.contains(keys[i as int]) {
                    let j = choose|j: int| 0 <= j < now.len() && now[j] == keys[i as int];
                    assert(keys[j] == keys[i as int]);
                }
            }
            if self.handles.value_at(i).is_mmap {
                r.push(self.handles.key_at(i).clone());
                proof {
                    assert(!lists_text(before, self.handles.keys()[i as int]));
                    lemma_distinct_push(before, r@[before.len() as int]);
                    assert(r@[r@.len() - 1]@ == self.handles.keys()[i as int]);
                    assert forall|j: int|
                        #![trigger self.handles.value_of(j)]
                        0 <= j <= i && self.handles.value_of(j).is_mmap implies lists(
                        r@,
                        self.handles.keys()[j],
                    ) by {
                        if j < i {
                            let k = choose|k: int|
                                #![trigger before[k]]
                                0 <= k < before.len() && before[k]@ == self.handles.keys()[j];
                            assert(r@[k]@ == self.handles.keys()[j]);
                        }
                    }
                }
            }
            i = i + 1;
        }
        proof {
            assert forall|p: Seq<char>|
                #![trigger self.handles@.dom().contains(p)]
                self.handles@.dom().contains(p) && self.handles@[p].is_mmap implies lists(r@, p) by {
                let j = self.handles.lemma_key(p);
                assert(self.handles.value_of(j).is_mmap);
            }
        }
        r
    }
}

/// Whether a list holds a text.
pub open spec fn lists(list: Seq<String>, p: Seq<char>) -> bool {
    exists|i: int| #![trigger list[i]] 0 <= i < list.len() && list[i]@ == p
}

} // verus!
