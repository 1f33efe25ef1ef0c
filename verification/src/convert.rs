//! Between trees and filesystems: loading a directory of the in-memory
//! filesystem back into a tree, and the round trip with the mounter.
//!
//! Mounting a tree and loading the directory back yields a tree with the
//! same path-to-bytes mapping; the lemma at the end states that round
//! trip.

use crate::memfs::is_child_entry;
use crate::memfs::OnMemoryFsHandler;
use crate::tree::dir_get_path;
use crate::tree::dir_wf;
use crate::tree::file_at;
use crate::tree::file_exec_bit;
use crate::tree::file_under;
use crate::tree::inline_bytes;
use crate::tree::is_prefix_of;
use crate::tree::mounted_file_ok;
use crate::tree::Dir;
use crate::tree::Entry;
use crate::tree::File;
use crate::tree::Path;
use crate::tree::Permission;
use vstd::prelude::*;

verus! {

/// What loading guarantees for one leaf: the tree holds, inline, exactly
/// the bytes and executable bit the filesystem holds at the stripped path.
pub open spec fn loaded_file_ok(
    fs: OnMemoryFsHandler,
    base: Seq<Seq<char>>,
    q: Seq<Seq<char>>,
    f: File,
) -> bool {
    match fs.file_at(base + q) {
        Some(v) => inline_bytes(f) == Some(v.0) && file_exec_bit(f) == v.1,
        None => false,
    }
}

/// A filesystem path, relative to `base`, that the loader can reach: a
/// file lies at its end and every step on the way is a directory and not
/// a file.
pub open spec fn fs_file_reachable(
    fs: OnMemoryFsHandler,
    base: Seq<Seq<char>>,
    q: Seq<Seq<char>>,
) -> bool {
    &&& q.len() >= 1
    &&& fs.file_at(base + q) is Some
    &&& (forall|k: int|
        1 <= k < q.len() ==> #[trigger] fs.dir_at(base + q.take(k)) && fs.file_at(
            base + q.take(k),
        ) is None)
}

/// Whether one of the first `i` names equals `seg`.
pub open spec fn name_listed(names: Seq<String>, i: int, seg: Seq<char>) -> bool {
    exists|a: int| 0 <= a < i && (#[trigger] names[a])@ == seg
}

/// Loads the directory at `base` back into a tree: every reachable file
/// becomes an inline leaf carrying the filesystem's bytes and mode, and
/// nothing else becomes a leaf.
pub fn load_directory(fs: &OnMemoryFsHandler, base: &Path) -> (r: Result<Dir, String>)
    requires
        fs.wf(),
    ensures
        r is Ok,
        ({
            let t = r->Ok_0;
            &&& dir_wf(t)
            &&& (forall|q: Seq<Seq<char>>|
                (#[trigger] file_at(t, q)) is Some ==> q.len() >= 1 && loaded_file_ok(
                    *fs,
                    base@,
                    q,
                    file_at(t, q)->Some_0,
                ))
            &&& (forall|q: Seq<Seq<char>>|
                #[trigger] fs_file_reachable(*fs, base@, q) ==> file_at(t, q) is Some)
        }),
{
    load_at(fs, base)
}

fn load_at(fs: &OnMemoryFsHandler, base: &Path) -> (r: Result<Dir, String>)
    requires
        fs.wf(),
    ensures
        r is Ok,
        ({
            let t = r->Ok_0;
            &&& dir_wf(t)
            &&& (forall|q: Seq<Seq<char>>|
                (#[trigger] file_at(t, q)) is Some ==> q.len() >= 1 && loaded_file_ok(
                    *fs,
                    base@,
                    q,
                    file_at(t, q)->Some_0,
                ))
            &&& (forall|q: Seq<Seq<char>>|
                #[trigger] fs_file_reachable(*fs, base@, q) ==> file_at(t, q) is Some)
        }),
    decreases (if base@.len() <= fs.depth_bound() {
        fs.depth_bound() + 1 - base@.len()
    } else {
        0
    }),
{
    let names = fs.list_entries(base);
    let mut t = Dir::new();
    let mut i: usize = 0;
    while i < names.len()
        invariant
            fs.wf(),
            0 <= i <= names@.len(),
            dir_wf(t),
            forall|a: int, b: int|
                0 <= a < b < names@.len() ==> (#[trigger] names@[a])@ != (#[trigger] names@[b])@,
            forall|a: int|
                0 <= a < names@.len() ==> #[trigger] is_child_entry(*fs, base@, (names@[a])@),
            forall|n: Seq<char>|
                #[trigger] is_child_entry(*fs, base@, n) ==> exists|a: int|
                    0 <= a < names@.len() && (#[trigger] names@[a])@ == n,
            forall|q: Seq<Seq<char>>|
                (#[trigger] file_at(t, q)) is Some ==> q.len() >= 1 && name_listed(
                    names@,
                    i as int,
                    q[0],
                ) && loaded_file_ok(*fs, base@, q, file_at(t, q)->Some_0),
            forall|q: Seq<Seq<char>>|
                #[trigger] fs_file_reachable(*fs, base@, q) && name_listed(
                    names@,
                    i as int,
                    q[0],
                ) ==> file_at(t, q) is Some,
        decreases names@.len() - i,
    {
        let name = names[i].clone();
        let child = base.child(&name);
        let single = Path::new().child(&name);
        let ghost t0 = t;
        let ghost nv = name@;
        proof {
            assert(child@ == base@.push(nv));
            assert(single@ =~= seq![nv]);
        }
        if fs.is_file(&child) {
            let bm = match fs.read_with_mode(&child) {
                Ok(v) => v,
                Err(e) => {
                    // `is_file` has established that the file is recorded,
                    // so the read cannot miss.
                    proof {
                        assert(false);
                    }
                    return Err(e);
                },
            };
            let perm = if bm.1 {
                Permission::executable()
            } else {
                Permission::read_write()
            };
            proof {
                assert(0o755u32 & 0o111u32 != 0) by (bit_vector);
                assert(0o644u32 & 0o111u32 == 0) by (bit_vector);
            }
            let leaf = File::Inline(bm.0, perm);
            let ghost leafv = leaf;
            let pr = t.put_file(&single, leaf);
            proof {
                assert(pr is Ok) by {
                    assert(single@.len() == 1);
                    assert(crate::tree::put_ok(t0, single@));
                }
                lemma_load_file_step(*fs, base@, t0, t, names@, i as int, nv, leafv);
            }
        } else if fs.is_dir(&child) {
            proof {
                assert(is_child_entry(*fs, base@, nv));
                fs.lemma_child_depth(base@, nv);
            }
            let sub = match load_at(fs, &child) {
                Ok(s) => s,
                Err(e) => {
                    proof {
                        assert(false);
                    }
                    return Err(e);
                },
            };
            let ghost subv = sub;
            let pr = t.put_dir(&single, sub);
            proof {
                assert(pr is Ok) by {
                    assert(single@.len() == 1);
                    assert(crate::tree::put_ok(t0, single@));
                }
                lemma_load_dir_step(*fs, base@, t0, t, names@, i as int, nv, subv);
            }
        } else {
            proof {
                assert(is_child_entry(*fs, base@, nv));
                assert(false);
            }
        }
        i = i + 1;
    }
    proof {
        assert forall|q: Seq<Seq<char>>|
            #[trigger] fs_file_reachable(*fs, base@, q) implies file_at(t, q) is Some by {
            assert(is_child_entry(*fs, base@, q[0])) by {
                if q.len() == 1 {
                    assert(base@ + q =~= base@.push(q[0]));
                } else {
                    assert(fs.dir_at(base@ + q.take(1)));
                    assert(base@ + q.take(1) =~= base@.push(q[0]));
                }
            }
            let a = choose|a: int| 0 <= a < names@.len() && (#[trigger] names@[a])@ == q[0];
            assert(name_listed(names@, names@.len() as int, q[0]));
        }
    }
    Ok(t)
}

/// After loading one file child, exactly the single-segment path of its
/// name is a new leaf, carrying the filesystem's bytes.
proof fn lemma_load_file_step(
    fs: OnMemoryFsHandler,
    base: Seq<Seq<char>>,
    t0: Dir,
    t1: Dir,
    names: Seq<String>,
    i: int,
    nv: Seq<char>,
    leaf: File,
)
    requires
        fs.wf(),
        0 <= i < names.len(),
        (names[i])@ == nv,
        forall|a: int, b: int| 0 <= a < b < names.len() ==> (#[trigger] names[a])@ != (#[trigger] names[b])@,
        fs.file_at(base.push(nv)) is Some,
        inline_bytes(leaf) == Some(fs.file_at(base.push(nv))->Some_0.0),
        file_exec_bit(leaf) == fs.file_at(base.push(nv))->Some_0.1,
        // what put_file did:
        dir_wf(t1),
        dir_get_path(t1, seq![nv]) == Some(Entry::File(leaf)),
        forall|q: Seq<Seq<char>>|
            !is_prefix_of(q, seq![nv]) && !is_prefix_of(seq![nv], q)
                ==> #[trigger] dir_get_path(t1, q) == dir_get_path(t0, q),
        forall|q: Seq<Seq<char>>|
            is_prefix_of(seq![nv], q) && q.len() > 1 ==> #[trigger] dir_get_path(t1, q) is None,
        // the invariant before this child:
        forall|q: Seq<Seq<char>>|
            (#[trigger] file_at(t0, q)) is Some ==> q.len() >= 1 && name_listed(names, i, q[0])
                && loaded_file_ok(fs, base, q, file_at(t0, q)->Some_0),
        forall|q: Seq<Seq<char>>|
            #[trigger] fs_file_reachable(fs, base, q) && name_listed(names, i, q[0])
                ==> file_at(t0, q) is Some,
    ensures
        forall|q: Seq<Seq<char>>|
            (#[trigger] file_at(t1, q)) is Some ==> q.len() >= 1 && name_listed(
                names,
                i + 1,
                q[0],
            ) && loaded_file_ok(fs, base, q, file_at(t1, q)->Some_0),
        forall|q: Seq<Seq<char>>|
            #[trigger] fs_file_reachable(fs, base, q) && name_listed(names, i + 1, q[0])
                ==> file_at(t1, q) is Some,
{
    let single = seq![nv];
    assert forall|q: Seq<Seq<char>>|
        (#[trigger] file_at(t1, q)) is Some implies q.len() >= 1 && name_listed(
        names,
        i + 1,
        q[0],
    ) && loaded_file_ok(fs, base, q, file_at(t1, q)->Some_0) by {
        {
        assert(q.len() >= 1) by {
            if q.len() == 0 {
                crate::tree::lemma_dir_get_empty(t1, q);
            }
        }
        if q[0] == nv {
            if q.len() == 1 {
                assert(q =~= single);
                assert(file_at(t1, q) == Some(leaf));
                assert(base + q =~= base.push(nv));
                assert((names[i])@ == q[0]);
            } else {
                assert(is_prefix_of(single, q)) by {
                    assert(q.take(1) =~= single);
                }
                assert(dir_get_path(t1, q) is None);
                assert(false);
            }
        } else {
            assert(!is_prefix_of(q, single) && !is_prefix_of(single, q)) by {
                if is_prefix_of(q, single) {
                    assert(single.take(q.len() as int)[0] == single[0]);
                }
                if is_prefix_of(single, q) {
                    assert(q.take(1)[0] == q[0]);
                }
            }
            assert(dir_get_path(t1, q) == dir_get_path(t0, q));
            assert(file_at(t0, q) is Some);
            assert(loaded_file_ok(fs, base, q, file_at(t0, q)->Some_0));
        }
        }
    }
    assert forall|q: Seq<Seq<char>>|
        #[trigger] fs_file_reachable(fs, base, q) && name_listed(names, i + 1, q[0]) implies
        file_at(t1, q) is Some by {
        if q[0] == nv {
            if q.len() == 1 {
                assert(q =~= single);
                assert(file_at(t1, q) == Some(leaf));
            } else {
                assert(fs.dir_at(base + q.take(1)) && fs.file_at(base + q.take(1)) is None);
                assert(base + q.take(1) =~= base.push(nv));
                assert(false);
            }
        } else {
            let a = choose|a: int| 0 <= a < i + 1 && (#[trigger] names[a])@ == q[0];
            assert(a < i);
            assert(name_listed(names, i, q[0]));
            assert(file_at(t0, q) is Some);
            assert(!is_prefix_of(q, single) && !is_prefix_of(single, q)) by {
                if is_prefix_of(q, single) {
                    assert(single.take(q.len() as int)[0] == single[0]);
                }
                if is_prefix_of(single, q) {
                    assert(q.take(1)[0] == q[0]);
                }
            }
            assert(dir_get_path(t1, q) == dir_get_path(t0, q));
        }
    }
}

/// After loading one directory child, the paths through its name hold
/// exactly what the recursively loaded subtree holds.
proof fn lemma_load_dir_step(
    fs: OnMemoryFsHandler,
    base: Seq<Seq<char>>,
    t0: Dir,
    t1: Dir,
    names: Seq<String>,
    i: int,
    nv: Seq<char>,
    sub: Dir,
)
    requires
        fs.wf(),
        0 <= i < names.len(),
        (names[i])@ == nv,
        forall|a: int, b: int| 0 <= a < b < names.len() ==> (#[trigger] names[a])@ != (#[trigger] names[b])@,
        fs.file_at(base.push(nv)) is None,
        // what the recursive load guarantees:
        dir_wf(sub),
        forall|q2: Seq<Seq<char>>|
            (#[trigger] file_at(sub, q2)) is Some ==> q2.len() >= 1 && loaded_file_ok(
                fs,
                base.push(nv),
                q2,
                file_at(sub, q2)->Some_0,
            ),
        forall|q2: Seq<Seq<char>>|
            #[trigger] fs_file_reachable(fs, base.push(nv), q2) ==> file_at(sub, q2) is Some,
        // what put_dir did:
        dir_wf(t1),
        dir_get_path(t1, seq![nv]) == Some(Entry::Dir(sub)),
        forall|q: Seq<Seq<char>>|
            !is_prefix_of(q, seq![nv]) && !is_prefix_of(seq![nv], q)
                ==> #[trigger] dir_get_path(t1, q) == dir_get_path(t0, q),
        forall|q: Seq<Seq<char>>|
            is_prefix_of(seq![nv], q) && q.len() > 1 ==> #[trigger] dir_get_path(t1, q)
                == dir_get_path(sub, q.skip(1)),
        // the invariant before this child:
        forall|q: Seq<Seq<char>>|
            (#[trigger] file_at(t0, q)) is Some ==> q.len() >= 1 && name_listed(names, i, q[0])
                && loaded_file_ok(fs, base, q, file_at(t0, q)->Some_0),
        forall|q: Seq<Seq<char>>|
            #[trigger] fs_file_reachable(fs, base, q) && name_listed(names, i, q[0])
                ==> file_at(t0, q) is Some,
    ensures
        forall|q: Seq<Seq<char>>|
            (#[trigger] file_at(t1, q)) is Some ==> q.len() >= 1 && name_listed(
                names,
                i + 1,
                q[0],
            ) && loaded_file_ok(fs, base, q, file_at(t1, q)->Some_0),
        forall|q: Seq<Seq<char>>|
            #[trigger] fs_file_reachable(fs, base, q) && name_listed(names, i + 1, q[0])
                ==> file_at(t1, q) is Some,
{
    let single = seq![nv];
    let child = base.push(nv);
    assert forall|q: Seq<Seq<char>>|
        (#[trigger] file_at(t1, q)) is Some implies q.len() >= 1 && name_listed(
        names,
        i + 1,
        q[0],
    ) && loaded_file_ok(fs, base, q, file_at(t1, q)->Some_0) by {
        {
        assert(q.len() >= 1) by {
            if q.len() == 0 {
                crate::tree::lemma_dir_get_empty(t1, q);
            }
        }
        if q[0] == nv {
            assert((names[i])@ == q[0]);
            if q.len() == 1 {
                assert(q =~= single);
                assert(dir_get_path(t1, q) == Some(Entry::Dir(sub)));
                assert(file_at(t1, q) is None);
                assert(false);
            } else {
                assert(is_prefix_of(single, q)) by {
                    assert(q.take(1) =~= single);
                }
                let q2 = q.skip(1);
                assert(dir_get_path(t1, q) == dir_get_path(sub, q2));
                assert(file_at(t1, q) == file_at(sub, q2));
                assert(loaded_file_ok(fs, child, q2, file_at(sub, q2)->Some_0));
                assert(child + q2 =~= base + q);
            }
        } else {
            assert(!is_prefix_of(q, single) && !is_prefix_of(single, q)) by {
                if is_prefix_of(q, single) {
                    assert(single.take(q.len() as int)[0] == single[0]);
                }
                if is_prefix_of(single, q) {
                    assert(q.take(1)[0] == q[0]);
                }
            }
            assert(dir_get_path(t1, q) == dir_get_path(t0, q));
            assert(file_at(t0, q) is Some);
            assert(loaded_file_ok(fs, base, q, file_at(t0, q)->Some_0));
        }
        }
    }
    assert forall|q: Seq<Seq<char>>|
        #[trigger] fs_file_reachable(fs, base, q) && name_listed(names, i + 1, q[0]) implies
        file_at(t1, q) is Some by {
        if q[0] == nv {
            if q.len() == 1 {
                assert(base + q =~= child);
                assert(fs.file_at(base + q) is Some);
                assert(false);
            } else {
                let q2 = q.skip(1);
                assert(fs_file_reachable(fs, child, q2)) by {
                    assert(child + q2 =~= base + q);
                    assert(q2.len() >= 1);
                    assert forall|k: int|
                        1 <= k < q2.len() implies #[trigger] fs.dir_at(child + q2.take(k))
                        && fs.file_at(child + q2.take(k)) is None by {
                        assert(child + q2.take(k) =~= base + q.take(k + 1));
                        assert(fs.dir_at(base + q.take(k + 1)) && fs.file_at(
                            base + q.take(k + 1),
                        ) is None);
                    }
                }
                assert(file_at(sub, q2) is Some);
                assert(is_prefix_of(single, q)) by {
                    assert(q.take(1) =~= single);
                }
                assert(dir_get_path(t1, q) == dir_get_path(sub, q2));
            }
        } else {
            let a = choose|a: int| 0 <= a < i + 1 && (#[trigger] names[a])@ == q[0];
            assert(a < i);
            assert(name_listed(names, i, q[0]));
            assert(file_at(t0, q) is Some);
            assert(!is_prefix_of(q, single) && !is_prefix_of(single, q)) by {
                if is_prefix_of(q, single) {
                    assert(single.take(q.len() as int)[0] == single[0]);
                }
                if is_prefix_of(single, q) {
                    assert(q.take(1)[0] == q[0]);
                }
            }
            assert(dir_get_path(t1, q) == dir_get_path(t0, q));
        }
    }
}

/// The mount round trip: mounting a well-formed all-inline tree onto an
/// empty region of the filesystem and loading it back yields a tree with
/// the same path-to-bytes mapping.
///
/// The hypotheses are exactly what `Dir::mount_to` ensures on an initially
/// file-empty filesystem and what `load_directory` ensures for the loaded
/// tree; the conclusion equates the inline bytes of the two trees at every
/// path.
pub proof fn lemma_mount_roundtrip(
    d: Dir,
    t2: Dir,
    fs: OnMemoryFsHandler,
    base: Seq<Seq<char>>,
)
    requires
        dir_wf(d),
        // every leaf of the mounted tree holds its bytes inline
        forall|q: Seq<Seq<char>>|
            file_at(d, q) is Some ==> #[trigger] inline_bytes(file_at(d, q)->Some_0) is Some,
        // what mounting onto a file-empty filesystem guarantees
        forall|p: Seq<Seq<char>>|
            file_under(d, base, p) is None ==> #[trigger] fs.file_at(p) is None,
        forall|p: Seq<Seq<char>>|
            file_under(d, base, p) is Some ==> #[trigger] mounted_file_ok(
                file_under(d, base, p)->Some_0,
                fs,
                p,
            ),
        forall|p: Seq<Seq<char>>|
            crate::tree::dir_under(d, base, p) ==> #[trigger] fs.dir_at(p),
        // what loading back guarantees
        forall|q: Seq<Seq<char>>|
            (#[trigger] file_at(t2, q)) is Some ==> q.len() >= 1 && loaded_file_ok(
                fs,
                base,
                q,
                file_at(t2, q)->Some_0,
            ),
        forall|q: Seq<Seq<char>>|
            #[trigger] fs_file_reachable(fs, base, q) ==> file_at(t2, q) is Some,
    ensures
        forall|q: Seq<Seq<char>>|
            #[trigger] tree_bytes_at(t2, q) == tree_bytes_at(d, q),
{
    assert forall|q: Seq<Seq<char>>|
        #[trigger] tree_bytes_at(t2, q) == tree_bytes_at(d, q) by {
        lemma_roundtrip_at(d, t2, fs, base, q);
    }
}

/// The inline bytes of the leaf at `q`, if `q` addresses a leaf with
/// inline bytes.
pub open spec fn tree_bytes_at(d: Dir, q: Seq<Seq<char>>) -> Option<Seq<u8>> {
    match file_at(d, q) {
        Some(f) => inline_bytes(f),
        None => None,
    }
}

proof fn lemma_roundtrip_at(
    d: Dir,
    t2: Dir,
    fs: OnMemoryFsHandler,
    base: Seq<Seq<char>>,
    q: Seq<Seq<char>>,
)
    requires
        dir_wf(d),
        forall|q2: Seq<Seq<char>>|
            file_at(d, q2) is Some ==> #[trigger] inline_bytes(file_at(d, q2)->Some_0) is Some,
        forall|p: Seq<Seq<char>>|
            file_under(d, base, p) is None ==> #[trigger] fs.file_at(p) is None,
        forall|p: Seq<Seq<char>>|
            file_under(d, base, p) is Some ==> #[trigger] mounted_file_ok(
                file_under(d, base, p)->Some_0,
                fs,
                p,
            ),
        forall|p: Seq<Seq<char>>|
            crate::tree::dir_under(d, base, p) ==> #[trigger] fs.dir_at(p),
        forall|q2: Seq<Seq<char>>|
            (#[trigger] file_at(t2, q2)) is Some ==> q2.len() >= 1 && loaded_file_ok(
                fs,
                base,
                q2,
                file_at(t2, q2)->Some_0,
            ),
        forall|q2: Seq<Seq<char>>|
            #[trigger] fs_file_reachable(fs, base, q2) ==> file_at(t2, q2) is Some,
    ensures
        tree_bytes_at(t2, q) == tree_bytes_at(d, q),
{
    if file_at(d, q) is Some {
        let f = file_at(d, q)->Some_0;
        let p = base + q;
        assert(q.len() >= 1) by {
            if q.len() == 0 {
                crate::tree::lemma_dir_get_empty(d, q);
            }
        }
        assert(file_under(d, base, p) == Some(f)) by {
            assert(is_prefix_of(base, p)) by {
                assert(p.take(base.len() as int) =~= base);
            }
            assert(p.skip(base.len() as int) =~= q);
        }
        assert(mounted_file_ok(f, fs, p));
        assert(inline_bytes(f) is Some);
        let b = inline_bytes(f)->Some_0;
        assert(fs.file_at(p) == Some((b, file_exec_bit(f))));
        assert(fs_file_reachable(fs, base, q)) by {
            assert forall|k: int|
                1 <= k < q.len() implies #[trigger] fs.dir_at(base + q.take(k)) && fs.file_at(
                base + q.take(k),
            ) is None by {
                let pk = base + q.take(k);
                assert(crate::tree::dir_under(d, base, pk)) by {
                    assert(is_prefix_of(base, pk)) by {
                        assert(pk.take(base.len() as int) =~= base);
                    }
                    assert(pk.skip(base.len() as int) =~= q.take(k));
                    crate::tree::lemma_path_to_file_has_dirs(d, q, k);
                }
                assert(file_under(d, base, pk) is None) by {
                    assert(pk.skip(base.len() as int) =~= q.take(k));
                    crate::tree::lemma_path_to_file_has_dirs(d, q, k);
                }
            }
        }
        assert(file_at(t2, q) is Some);
        let f2 = file_at(t2, q)->Some_0;
        assert(loaded_file_ok(fs, base, q, f2));
        assert(inline_bytes(f2) == Some(b));
    } else {
        assert(tree_bytes_at(d, q) is None);
        if file_at(t2, q) is Some {
            let f2 = file_at(t2, q)->Some_0;
            assert(loaded_file_ok(fs, base, q, f2));
            assert(fs.file_at(base + q) is Some);
            assert(file_under(d, base, base + q) is None) by {
                assert((base + q).skip(base.len() as int) =~= q);
            }
            assert(false);
        }
    }
}


} // verus!
