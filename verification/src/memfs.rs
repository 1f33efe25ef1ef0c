//! An in-memory filesystem.
//!
//! It answers the same questions a real filesystem would — read, write,
//! mkdir, list, delete — over segment paths, and is the substrate on which
//! the tree mounter and loader are verified. The real-disk counterpart
//! lives outside the library.

use crate::tree::is_prefix_of;
use crate::tree::Path;
use vstd::prelude::*;

verus! {

broadcast use vstd::std_specs::vec::group_vec_axioms;

/// A filesystem held in memory: files as path-keyed byte blobs with an
/// executable bit, and an explicit set of directories.
#[derive(Debug)]
pub struct OnMemoryFsHandler {
    files: Vec<(Path, Vec<u8>, bool)>,
    dirs: Vec<Path>,
}

impl OnMemoryFsHandler {
    /// Each file path is recorded at most once.
    pub closed spec fn wf(&self) -> bool {
        forall|a: int, b: int|
            0 <= a < b < self.files@.len() ==> (#[trigger] self.files@[a]).0@ != (
            #[trigger] self.files@[b]).0@
    }

    /// The bytes and executable bit of the file at `p`, if one exists.
    pub closed spec fn file_at(&self, p: Seq<Seq<char>>) -> Option<(Seq<u8>, bool)> {
        if exists|k: int| 0 <= k < self.files@.len() && (#[trigger] self.files@[k]).0@ == p {
            let k = choose|k: int|
                0 <= k < self.files@.len() && (#[trigger] self.files@[k]).0@ == p;
            Some((self.files@[k].1@, self.files@[k].2))
        } else {
            None
        }
    }

    /// Whether `p` is a recorded directory.
    pub closed spec fn dir_at(&self, p: Seq<Seq<char>>) -> bool {
        exists|k: int| 0 <= k < self.dirs@.len() && (#[trigger] self.dirs@[k])@ == p
    }

    /// An empty filesystem.
    pub fn new() -> (r: OnMemoryFsHandler)
        ensures
            r.wf(),
            forall|p: Seq<Seq<char>>| #[trigger] r.file_at(p) is None,
            forall|p: Seq<Seq<char>>| !#[trigger] r.dir_at(p),
    {
        OnMemoryFsHandler { files: Vec::new(), dirs: Vec::new() }
    }

    proof fn lemma_file_at_index(&self, k: int)
        requires
            self.wf(),
            0 <= k < self.files@.len(),
        ensures
            self.file_at(self.files@[k].0@) == Some((self.files@[k].1@, self.files@[k].2)),
    {
        let p = self.files@[k].0@;
        assert(exists|a: int| 0 <= a < self.files@.len() && (#[trigger] self.files@[a]).0@ == p);
        let a = choose|a: int| 0 <= a < self.files@.len() && (#[trigger] self.files@[a]).0@ == p;
        assert(a == k);
    }

    /// Reads the bytes of the file at `path`; fails exactly when no file
    /// is recorded there.
    pub fn read(&self, path: &Path) -> (r: Result<Vec<u8>, String>)
        requires
            self.wf(),
        ensures
            match r {
                Ok(d) => self.file_at(path@) matches Some(f) && f.0 == d@,
                Err(_) => self.file_at(path@) is None,
            },
    {
        let mut k: usize = 0;
        while k < self.files.len()
            invariant
                self.wf(),
                0 <= k <= self.files@.len(),
                forall|a: int| 0 <= a < k ==> (#[trigger] self.files@[a]).0@ != path@,
            decreases self.files@.len() - k,
        {
            if self.files[k].0.path_eq(path) {
                let d = self.files[k].1.clone();
                proof {
                    self.lemma_file_at_index(k as int);
                    assert(d@ =~= self.files@[k as int].1@);
                }
                return Ok(d);
            }
            k = k + 1;
        }
        Err(String::from_str("File not found"))
    }

    /// Whether a file is recorded at `path`.
    pub fn is_file(&self, path: &Path) -> (r: bool)
        requires
            self.wf(),
        ensures
            r == (self.file_at(path@) is Some),
    {
        let mut k: usize = 0;
        while k < self.files.len()
            invariant
                self.wf(),
                0 <= k <= self.files@.len(),
                forall|a: int| 0 <= a < k ==> (#[trigger] self.files@[a]).0@ != path@,
            decreases self.files@.len() - k,
        {
            if self.files[k].0.path_eq(path) {
                proof {
                    self.lemma_file_at_index(k as int);
                }
                return true;
            }
            k = k + 1;
        }
        false
    }

    /// Whether a directory is recorded at `path`.
    pub fn is_dir(&self, path: &Path) -> (r: bool)
        ensures
            r == self.dir_at(path@),
    {
        let mut k: usize = 0;
        while k < self.dirs.len()
            invariant
                0 <= k <= self.dirs@.len(),
                forall|a: int| 0 <= a < k ==> (#[trigger] self.dirs@[a])@ != path@,
            decreases self.dirs@.len() - k,
        {
            if self.dirs[k].path_eq(path) {
                return true;
            }
            k = k + 1;
        }
        false
    }

    /// Records `path` and every non-empty prefix of it as directories.
    pub fn mkdir(&mut self, path: &Path) -> (r: Result<(), String>)
        requires
            old(self).wf(),
        ensures
            final(self).wf(),
            r is Ok,
            forall|q: Seq<Seq<char>>|
                #[trigger] final(self).file_at(q) == old(self).file_at(q),
            forall|q: Seq<Seq<char>>|
                #[trigger] final(self).dir_at(q) == (old(self).dir_at(q) || (is_prefix_of(
                    q,
                    path@,
                ) && q.len() >= 1)),
    {
        let comps = path.components();
        let mut prefix = Path::new();
        let mut i: usize = 0;
        proof {
            assert(comps.deep_view() =~= path@);
            assert(prefix@ =~= path@.take(0));
        }
        while i < comps.len()
            invariant
                old(self).wf(),
                self.files@ == old(self).files@,
                comps.deep_view() == path@,
                0 <= i <= path@.len(),
                prefix@ == path@.take(i as int),
                forall|q: Seq<Seq<char>>|
                    #[trigger] self.dir_at(q) == (old(self).dir_at(q) || (is_prefix_of(q, path@)
                        && 1 <= q.len() <= i)),
            decreases path@.len() - i,
        {
            let name = comps[i].clone();
            prefix.push(name);
            proof {
                assert(prefix@ =~= path@.take(i + 1));
            }
            let ghost f0 = *self;
            let listed = self.is_dir(&prefix);
            if !listed {
                let p2 = prefix.clone_path();
                self.dirs.push(p2);
                proof {
                    assert(self.dirs@ == f0.dirs@.push(self.dirs@.last()));
                    lemma_dir_at_push(f0, *self, prefix@);
                }
            }
            proof {
                assert forall|q: Seq<Seq<char>>| #[trigger]
                    self.dir_at(q) == (old(self).dir_at(q) || (is_prefix_of(q, path@) && 1
                        <= q.len() <= i + 1)) by {
                    if q == prefix@ {
                        assert(self.dir_at(q));
                        assert(is_prefix_of(q, path@)) by {
                            assert(path@.take(q.len() as int) =~= q);
                        }
                    } else {
                        assert(self.dir_at(q) == f0.dir_at(q));
                        if is_prefix_of(q, path@) && q.len() == i + 1 {
                            assert(q =~= prefix@);
                            assert(false);
                        }
                    }
                }
            }
            i = i + 1;
        }
        proof {
            assert forall|q: Seq<Seq<char>>| #[trigger]
                self.dir_at(q) == (old(self).dir_at(q) || (is_prefix_of(q, path@) && q.len()
                    >= 1)) by {
                if is_prefix_of(q, path@) && q.len() >= 1 {
                    assert(q.len() <= path@.len());
                }
            }
            lemma_file_at_same(old(self), self);
        }
        Ok(())
    }

    /// Writes `data` to the file at `path`, replacing any previous file
    /// there, creating every parent directory, and applying the
    /// executable bit.
    pub fn write(&mut self, path: &Path, data: &[u8], executable: bool) -> (r: Result<
        (),
        String,
    >)
        requires
            old(self).wf(),
            path@.len() >= 1,
        ensures
            final(self).wf(),
            r is Ok,
            final(self).file_at(path@) == Some((data@, executable)),
            forall|q: Seq<Seq<char>>|
                q != path@ ==> #[trigger] final(self).file_at(q) == old(self).file_at(q),
            forall|q: Seq<Seq<char>>|
                #[trigger] final(self).dir_at(q) == (old(self).dir_at(q) || (is_prefix_of(
                    q,
                    path@,
                ) && 1 <= q.len() < path@.len())),
    {
        let parent = match path.split_last() {
            Some(pr) => pr.0,
            None => Path::new(),
        };
        proof {
            assert(parent@ == path@.drop_last());
        }
        let mk = self.mkdir(&parent);
        proof {
            assert forall|q: Seq<Seq<char>>| #[trigger]
                self.dir_at(q) == (old(self).dir_at(q) || (is_prefix_of(q, path@) && 1 <= q.len()
                    < path@.len())) by {
                if is_prefix_of(q, parent@) && q.len() >= 1 {
                    assert(is_prefix_of(q, path@)) by {
                        assert(parent@.take(q.len() as int) =~= q);
                        assert forall|m: int| 0 <= m < q.len() implies path@.take(
                            q.len() as int,
                        )[m] == q[m] by {
                            assert(parent@[m] == path@[m]);
                        }
                        assert(path@.take(q.len() as int) =~= q);
                    }
                    assert(q.len() < path@.len());
                }
                if is_prefix_of(q, path@) && 1 <= q.len() < path@.len() {
                    assert(is_prefix_of(q, parent@)) by {
                        assert(path@.take(q.len() as int) =~= q);
                        assert forall|m: int| 0 <= m < q.len() implies parent@.take(
                            q.len() as int,
                        )[m] == q[m] by {
                            assert(parent@[m] == path@[m]);
                        }
                        assert(parent@.take(q.len() as int) =~= q);
                    }
                }
            }
        }
        let ghost mid = *self;
        let mut k: usize = 0;
        let mut found = false;
        while k < self.files.len() && !found
            invariant
                mid.wf(),
                self.files@ == mid.files@,
                0 <= k <= self.files@.len(),
                !found ==> forall|a: int| 0 <= a < k ==> (#[trigger] self.files@[a]).0@ != path@,
                found ==> k < self.files@.len() && self.files@[k as int].0@ == path@,
            decreases self.files@.len() - k + (if found {
                0int
            } else {
                1int
            }),
        {
            if self.files[k].0.path_eq(path) {
                found = true;
            } else {
                k = k + 1;
            }
        }
        let ghost files0 = mid.files@;
        if found {
            self.files.remove(k);
            proof {
                assert(self.files@ =~= files0.remove(k as int));
            }
        }
        let ghost files1 = self.files@;
        proof {
            assert(forall|a: int| 0 <= a < files1.len() ==> (#[trigger] files1[a]).0@ != path@)
                by {
                if found {
                    assert forall|a: int| 0 <= a < files1.len() implies (
                    #[trigger] files1[a]).0@ != path@ by {
                        if a < k {
                            assert(files1[a] == files0[a]);
                        } else {
                            assert(files1[a] == files0[a + 1]);
                        }
                    }
                }
            }
            assert(forall|a: int, b: int|
                0 <= a < b < files1.len() ==> (#[trigger] files1[a]).0@ != (
                #[trigger] files1[b]).0@) by {
                if found {
                    assert forall|a: int, b: int|
                        0 <= a < b < files1.len() implies (#[trigger] files1[a]).0@ != (
                    #[trigger] files1[b]).0@ by {
                        let a0: int = if a < k {
                            a
                        } else {
                            a + 1
                        };
                        let b0: int = if b < k {
                            b
                        } else {
                            b + 1
                        };
                        assert(files1[a] == files0[a0] && files1[b] == files0[b0]);
                    }
                }
            }
        }
        let p2 = path.clone_path();
        let d = crate::memfs::copy_bytes(data);
        self.files.push((p2, d, executable));
        proof {
            let fin = self.files@;
            assert(fin == files1.push((p2, d, executable)));
            assert(self.wf()) by {
                assert forall|a: int, b: int|
                    0 <= a < b < fin.len() implies (#[trigger] fin[a]).0@ != (
                #[trigger] fin[b]).0@ by {
                    if b < fin.len() - 1 {
                        assert(fin[a] == files1[a] && fin[b] == files1[b]);
                    } else {
                        assert(fin[a] == files1[a]);
                        assert(fin[b].0@ == path@);
                    }
                }
            }
            assert(self.file_at(path@) == Some((data@, executable))) by {
                self.lemma_file_at_index(fin.len() - 1);
            }
            assert forall|q: Seq<Seq<char>>| q != path@ implies #[trigger] self.file_at(q)
                == mid.file_at(q) by {
                if exists|a: int| 0 <= a < fin.len() && (#[trigger] fin[a]).0@ == q {
                    let a = choose|a: int| 0 <= a < fin.len() && (#[trigger] fin[a]).0@ == q;
                    assert(a < fin.len() - 1);
                    assert(fin[a] == files1[a]);
                    let a0: int = if found && a >= k {
                        a + 1
                    } else {
                        a
                    };
                    assert(files0[a0] == fin[a]);
                    self.lemma_file_at_index(a);
                    mid.lemma_file_at_index(a0);
                } else {
                    assert(self.file_at(q) is None);
                    assert(mid.file_at(q) is None) by {
                        if exists|a: int|
                            0 <= a < files0.len() && (#[trigger] files0[a]).0@ == q {
                            let a = choose|a: int|
                                0 <= a < files0.len() && (#[trigger] files0[a]).0@ == q;
                            let a1: int = if found && a > k {
                                a - 1
                            } else {
                                a
                            };
                            assert(a != k || !found);
                            assert(files1[a1] == files0[a]);
                            assert(fin[a1] == files0[a]);
                        }
                    }
                }
            }
            assert(self.dirs@ == mid.dirs@);
            assert forall|q: Seq<Seq<char>>| #[trigger]
                self.dir_at(q) == mid.dir_at(q) by {
            }
        }
        Ok(())
    }
}

/// Two filesystems with the same file records answer every file query
/// alike.
proof fn lemma_file_at_same(f0: &OnMemoryFsHandler, f1: &OnMemoryFsHandler)
    requires
        f0.wf(),
        f0.files@ == f1.files@,
    ensures
        forall|q: Seq<Seq<char>>| #[trigger] f1.file_at(q) == f0.file_at(q),
{
    assert forall|q: Seq<Seq<char>>| #[trigger] f1.file_at(q) == f0.file_at(q) by {
        if exists|k: int| 0 <= k < f1.files@.len() && (#[trigger] f1.files@[k]).0@ == q {
            let k = choose|k: int|
                0 <= k < f1.files@.len() && (#[trigger] f1.files@[k]).0@ == q;
            f1.lemma_file_at_index(k);
            f0.lemma_file_at_index(k);
        } else {
            assert(f1.file_at(q) is None);
            assert(!exists|k: int|
                0 <= k < f0.files@.len() && (#[trigger] f0.files@[k]).0@ == q);
        }
    }
}

/// Appending one directory record adds exactly that directory.
proof fn lemma_dir_at_push(f0: OnMemoryFsHandler, f1: OnMemoryFsHandler, pv: Seq<Seq<char>>)
    requires
        f1.dirs@ == f0.dirs@.push(f1.dirs@.last()),
        f1.dirs@.len() == f0.dirs@.len() + 1,
        f1.dirs@.last()@ == pv,
    ensures
        forall|q: Seq<Seq<char>>| #[trigger] f1.dir_at(q) == (f0.dir_at(q) || q == pv),
{
    assert forall|q: Seq<Seq<char>>| #[trigger] f1.dir_at(q) == (f0.dir_at(q) || q == pv) by {
        if f1.dir_at(q) {
            let k = choose|k: int| 0 <= k < f1.dirs@.len() && (#[trigger] f1.dirs@[k])@ == q;
            if k < f0.dirs@.len() {
                assert(f0.dirs@[k]@ == q);
            }
        }
        if f0.dir_at(q) {
            let k = choose|k: int| 0 <= k < f0.dirs@.len() && (#[trigger] f0.dirs@[k])@ == q;
            assert(f1.dirs@[k]@ == q);
        }
        if q == pv {
            assert(f1.dirs@[f1.dirs@.len() - 1]@ == q);
        }
    }
}

/// Copies a byte slice into a fresh vector.
pub fn copy_bytes(data: &[u8]) -> (d: Vec<u8>)
    ensures
        d@ == data@,
{
    let mut d: Vec<u8> = Vec::new();
    let mut i: usize = 0;
    while i < data.len()
        invariant
            0 <= i <= data@.len(),
            d@ =~= data@.take(i as int),
        decreases data@.len() - i,
    {
        d.push(data[i]);
        proof {
            assert(d@ =~= data@.take(i + 1));
        }
        i = i + 1;
    }
    proof {
        assert(d@ =~= data@);
    }
    d
}

/// Whether segment `n` names a file or directory directly below `base`.
pub open spec fn is_child_entry(
    fs: OnMemoryFsHandler,
    base: Seq<Seq<char>>,
    n: Seq<char>,
) -> bool {
    fs.file_at(base.push(n)) is Some || fs.dir_at(base.push(n))
}

impl OnMemoryFsHandler {
    /// The names of the direct children of `base`: every segment `n` such
    /// that `base/n` is a recorded file or directory, each once.
    pub fn list_entries(&self, base: &Path) -> (r: Vec<String>)
        requires
            self.wf(),
        ensures
            forall|a: int, b: int| 0 <= a < b < r@.len() ==> (#[trigger] r@[a])@ != (#[trigger] r@[b])@,
            forall|a: int|
                0 <= a < r@.len() ==> #[trigger] is_child_entry(*self, base@, (r@[a])@),
            forall|n: Seq<char>|
                #[trigger] is_child_entry(*self, base@, n) ==> exists|a: int|
                    0 <= a < r@.len() && (#[trigger] r@[a])@ == n,
    {
        let mut out: Vec<String> = Vec::new();
        let blen = base.components().len();
        let mut k: usize = 0;
        while k < self.files.len()
            invariant
                self.wf(),
                blen == base@.len(),
                0 <= k <= self.files@.len(),
                forall|a: int, b: int|
                    0 <= a < b < out@.len() ==> (#[trigger] out@[a])@ != (#[trigger] out@[b])@,
                forall|a: int|
                    0 <= a < out@.len() ==> #[trigger] is_child_entry(*self, base@, (out@[a])@),
                forall|m: int|
                    0 <= m < k && (#[trigger] self.files@[m]).0@.len() == base@.len() + 1
                        && is_prefix_of(base@, self.files@[m].0@) ==> exists|a: int|
                        0 <= a < out@.len() && (#[trigger] out@[a])@ == self.files@[m].0@.last(),
            decreases self.files@.len() - k,
        {
            let fp = &self.files[k].0;
            let flen = fp.components().len();
            if flen >= 1 && flen - 1 == blen && fp.starts_with(base) {
                match fp.split_last() {
                    Some(pr) => {
                        let name = pr.1.clone();
                        proof {
                            self.lemma_file_at_index(k as int);
                            let q = self.files@[k as int].0@;
                            assert(base@.push(q.last()) =~= q);
                            assert(is_child_entry(*self, base@, q.last()));
                            assert(name@ == q.last());
                        }
                        let ghost out0 = out@;
                        push_unique(&mut out, name);
                        proof {
                            assert forall|m: int|
                                0 <= m < k + 1 && (#[trigger] self.files@[m]).0@.len()
                                    == base@.len() + 1 && is_prefix_of(
                                    base@,
                                    self.files@[m].0@,
                                ) implies exists|a: int|
                                0 <= a < out@.len() && (#[trigger] out@[a])@
                                    == self.files@[m].0@.last() by {
                                if m == k {
                                    let a = choose|a: int|
                                        0 <= a < out@.len() && (#[trigger] out@[a])@ == name@;
                                } else {
                                    let a = choose|a: int|
                                        0 <= a < out0.len() && (#[trigger] out0[a])@
                                            == self.files@[m].0@.last();
                                    assert(out@[a] == out0[a]);
                                }
                            }
                        }
                    },
                    None => {},
                }
            }
            k = k + 1;
        }
        let mut k2: usize = 0;
        while k2 < self.dirs.len()
            invariant
                self.wf(),
                blen == base@.len(),
                0 <= k2 <= self.dirs@.len(),
                forall|a: int, b: int|
                    0 <= a < b < out@.len() ==> (#[trigger] out@[a])@ != (#[trigger] out@[b])@,
                forall|a: int|
                    0 <= a < out@.len() ==> #[trigger] is_child_entry(*self, base@, (out@[a])@),
                forall|m: int|
                    0 <= m < self.files@.len() && (#[trigger] self.files@[m]).0@.len() == base@.len()
                        + 1 && is_prefix_of(base@, self.files@[m].0@) ==> exists|a: int|
                        0 <= a < out@.len() && (#[trigger] out@[a])@ == self.files@[m].0@.last(),
                forall|m: int|
                    0 <= m < k2 && (#[trigger] self.dirs@[m])@.len() == base@.len() + 1
                        && is_prefix_of(base@, self.dirs@[m]@) ==> exists|a: int|
                        0 <= a < out@.len() && (#[trigger] out@[a])@ == self.dirs@[m]@.last(),
            decreases self.dirs@.len() - k2,
        {
            let dp = &self.dirs[k2];
            let dlen = dp.components().len();
            if dlen >= 1 && dlen - 1 == blen && dp.starts_with(base) {
                match dp.split_last() {
                    Some(pr) => {
                        let name = pr.1.clone();
                        proof {
                            let q = self.dirs@[k2 as int]@;
                            assert(base@.push(q.last()) =~= q);
                            assert(is_child_entry(*self, base@, q.last()));
                            assert(name@ == q.last());
                        }
                        let ghost out0 = out@;
                        push_unique(&mut out, name);
                        proof {
                            assert forall|m: int|
                                0 <= m < self.files@.len() && (#[trigger] self.files@[m]).0@.len()
                                    == base@.len() + 1 && is_prefix_of(
                                    base@,
                                    self.files@[m].0@,
                                ) implies exists|a: int|
                                0 <= a < out@.len() && (#[trigger] out@[a])@
                                    == self.files@[m].0@.last() by {
                                let a = choose|a: int|
                                    0 <= a < out0.len() && (#[trigger] out0[a])@
                                        == self.files@[m].0@.last();
                                assert(out@[a] == out0[a]);
                            }
                            assert forall|m: int|
                                0 <= m < k2 + 1 && (#[trigger] self.dirs@[m])@.len() == base@.len()
                                    + 1 && is_prefix_of(base@, self.dirs@[m]@) implies exists|
                                a: int|
                                0 <= a < out@.len() && (#[trigger] out@[a])@
                                    == self.dirs@[m]@.last() by {
                                if m == k2 {
                                    let a = choose|a: int|
                                        0 <= a < out@.len() && (#[trigger] out@[a])@ == name@;
                                } else {
                                    let a = choose|a: int|
                                        0 <= a < out0.len() && (#[trigger] out0[a])@
                                            == self.dirs@[m]@.last();
                                    assert(out@[a] == out0[a]);
                                }
                            }
                        }
                    },
                    None => {},
                }
            }
            k2 = k2 + 1;
        }
        proof {
            assert forall|n: Seq<char>|
                #[trigger] is_child_entry(*self, base@, n) implies exists|a: int|
                0 <= a < out@.len() && (#[trigger] out@[a])@ == n by {
                let q = base@.push(n);
                assert(q.last() == n);
                assert(q.len() == base@.len() + 1);
                assert(is_prefix_of(base@, q)) by {
                    assert(q.take(base@.len() as int) =~= base@);
                }
                if self.file_at(q) is Some {
                    let m = choose|m: int|
                        0 <= m < self.files@.len() && (#[trigger] self.files@[m]).0@ == q;
                } else {
                    let m = choose|m: int|
                        0 <= m < self.dirs@.len() && (#[trigger] self.dirs@[m])@ == q;
                }
            }
        }
        out
    }
}

/// Appends `name` unless an equal string is already present.
fn push_unique(out: &mut Vec<String>, name: String)
    ensures
        final(out)@.len() >= old(out)@.len(),
        forall|a: int|
            0 <= a < final(out)@.len() ==> (exists|b: int|
                0 <= b < old(out)@.len() && (#[trigger] final(out)@[a]) == old(out)@[b]) || (
            final(out)@[a])@ == name@,
        forall|b: int|
            0 <= b < old(out)@.len() ==> (#[trigger] final(out)@[b]) == old(out)@[b],
        exists|a: int| 0 <= a < final(out)@.len() && (#[trigger] final(out)@[a])@ == name@,
        (forall|a: int, b: int|
            0 <= a < b < old(out)@.len() ==> (#[trigger] old(out)@[a])@ != (
            #[trigger] old(out)@[b])@) ==> (forall|a: int, b: int|
            0 <= a < b < final(out)@.len() ==> (#[trigger] final(out)@[a])@ != (
            #[trigger] final(out)@[b])@),
{
    let mut a: usize = 0;
    while a < out.len()
        invariant
            0 <= a <= out@.len(),
            out@ == old(out)@,
            forall|b: int| 0 <= b < a ==> (#[trigger] out@[b])@ != name@,
        decreases out@.len() - a,
    {
        if crate::text::str_eq(out[a].as_str(), name.as_str()) {
            proof {
                assert(out@[a as int]@ == name@);
            }
            return ;
        }
        a = a + 1;
    }
    out.push(name);
    proof {
        assert(out@[out@.len() - 1]@ == name@);
    }
}

/// The longest recorded path length among a sequence of file records.
spec fn files_depth(s: Seq<(Path, Vec<u8>, bool)>) -> nat
    decreases s.len(),
{
    if s.len() == 0 {
        0
    } else if s[0].0@.len() > files_depth(s.drop_first()) {
        s[0].0@.len()
    } else {
        files_depth(s.drop_first())
    }
}

/// The longest recorded path length among a sequence of directory records.
spec fn dirs_depth(s: Seq<Path>) -> nat
    decreases s.len(),
{
    if s.len() == 0 {
        0
    } else if s[0]@.len() > dirs_depth(s.drop_first()) {
        s[0]@.len()
    } else {
        dirs_depth(s.drop_first())
    }
}

proof fn lemma_files_depth(s: Seq<(Path, Vec<u8>, bool)>, k: int)
    requires
        0 <= k < s.len(),
    ensures
        s[k].0@.len() <= files_depth(s),
    decreases s.len(),
{
    if k > 0 {
        lemma_files_depth(s.drop_first(), k - 1);
        assert(s.drop_first()[k - 1] == s[k]);
    }
}

proof fn lemma_dirs_depth(s: Seq<Path>, k: int)
    requires
        0 <= k < s.len(),
    ensures
        s[k]@.len() <= dirs_depth(s),
    decreases s.len(),
{
    if k > 0 {
        lemma_dirs_depth(s.drop_first(), k - 1);
        assert(s.drop_first()[k - 1] == s[k]);
    }
}

impl OnMemoryFsHandler {
    /// An upper bound on the length of every recorded path.
    pub closed spec fn depth_bound(&self) -> nat {
        if files_depth(self.files@) > dirs_depth(self.dirs@) {
            files_depth(self.files@)
        } else {
            dirs_depth(self.dirs@)
        }
    }

    /// A recorded child pushes the parent's length below the depth bound.
    pub proof fn lemma_child_depth(&self, base: Seq<Seq<char>>, n: Seq<char>)
        requires
            is_child_entry(*self, base, n),
        ensures
            base.len() + 1 <= self.depth_bound(),
    {
        let q = base.push(n);
        if self.file_at(q) is Some {
            let k = choose|k: int|
                0 <= k < self.files@.len() && (#[trigger] self.files@[k]).0@ == q;
            lemma_files_depth(self.files@, k);
        } else {
            let k = choose|k: int| 0 <= k < self.dirs@.len() && (#[trigger] self.dirs@[k])@ == q;
            lemma_dirs_depth(self.dirs@, k);
        }
    }

    /// Reads the bytes and the executable bit of the file at `path`.
    pub fn read_with_mode(&self, path: &Path) -> (r: Result<(Vec<u8>, bool), String>)
        requires
            self.wf(),
        ensures
            match r {
                Ok(d) => self.file_at(path@) == Some((d.0@, d.1)),
                Err(_) => self.file_at(path@) is None,
            },
    {
        let mut k: usize = 0;
        while k < self.files.len()
            invariant
                self.wf(),
                0 <= k <= self.files@.len(),
                forall|a: int| 0 <= a < k ==> (#[trigger] self.files@[a]).0@ != path@,
            decreases self.files@.len() - k,
        {
            if self.files[k].0.path_eq(path) {
                let d = self.files[k].1.clone();
                let e = self.files[k].2;
                proof {
                    self.lemma_file_at_index(k as int);
                    assert(d@ =~= self.files@[k as int].1@);
                }
                return Ok((d, e));
            }
            k = k + 1;
        }
        Err(String::from_str("File not found"))
    }
}

} // verus!
