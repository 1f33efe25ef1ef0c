//! The in-memory file tree used to stage server inputs.
//!
//! A `Dir` is a trie: a mapping from segment names to entries, where an
//! entry is either a leaf `File` or a nested `Dir`. Files are addressing
//! leaves only: their bytes may be held inline, or referenced by a local
//! path or a URL and resolved at mount time.

use vstd::prelude::*;

verus! {

broadcast use {vstd::seq::axiom_seq_index_decreases, vstd::std_specs::vec::group_vec_axioms};

/// A POSIX permission mode; the executable bit is the only semantic
/// differentiator.
#[derive(Debug, Clone, Copy, PartialEq, Eq, Structural)]
pub struct Permission(pub u32);

impl Permission {
    /// Mode 0o644: readable and writable, not executable.
    pub fn read_write() -> (r: Permission)
        ensures
            r.0 == 0o644,
    {
        Permission(0o644)
    }

    /// Mode 0o755: readable, writable and executable.
    pub fn executable() -> (r: Permission)
        ensures
            r.0 == 0o755,
    {
        Permission(0o755)
    }

    /// Whether any executable bit is set.
    pub fn is_executable(&self) -> (r: bool)
        ensures
            r == (self.0 & 0o111 != 0),
    {
        self.0 & 0o111 != 0
    }
}

/// A file leaf: bytes held inline, or a reference to a local path or a URL,
/// together with the permission to apply when the file is materialised.
#[derive(Debug, Clone)]
pub enum File {
    Inline(Vec<u8>, Permission),
    Path(String, Permission),
    Url(String, Permission),
}

impl File {
    /// An inline file with the given bytes and permission.
    pub fn inline(data: Vec<u8>, perm: Permission) -> (r: File)
        ensures
            r == File::Inline(data, perm),
    {
        File::Inline(data, perm)
    }

    pub open spec fn perm(&self) -> Permission {
        match self {
            File::Inline(_, p) => *p,
            File::Path(_, p) => *p,
            File::Url(_, p) => *p,
        }
    }
}

/// An entry of a directory: a file leaf or a nested directory.
#[derive(Debug)]
pub enum Entry {
    File(File),
    Dir(Dir),
}

/// A directory: a mapping from segment names to entries. The association
/// list holds each name at most once; no meaning attaches to its order.
#[derive(Debug)]
pub struct Dir {
    entries: Vec<(String, Entry)>,
}

impl Entry {
    pub fn is_file(&self) -> (r: bool)
        ensures
            r == (self is File),
    {
        match self {
            Entry::File(_) => true,
            Entry::Dir(_) => false,
        }
    }

    pub fn is_dir(&self) -> (r: bool)
        ensures
            r == (self is Dir),
    {
        match self {
            Entry::File(_) => false,
            Entry::Dir(_) => true,
        }
    }
}

/// Well-formedness of a directory: each segment name occurs at most once,
/// and every nested directory is itself well-formed.
pub closed spec fn dir_wf(d: Dir) -> bool
    decreases d,
{
    &&& (forall|i: int, j: int|
        0 <= i < j < d.entries@.len() ==> (#[trigger] d.entries@[i]).0@ != (
        #[trigger] d.entries@[j]).0@)
    &&& (forall|i: int|
        0 <= i < d.entries@.len() ==> match (#[trigger] d.entries@[i]).1 {
            Entry::Dir(sub) => dir_wf(sub),
            Entry::File(_) => true,
        })
}

/// A relative path: a sequence of segment names.
#[derive(Debug, Clone, PartialEq, Eq)]
pub struct Path(Vec<String>);

impl View for Path {
    type V = Seq<Seq<char>>;

    closed spec fn view(&self) -> Seq<Seq<char>> {
        self.0.deep_view()
    }
}

impl Path {
    /// The empty path.
    pub fn new() -> (r: Path)
        ensures
            r@ =~= Seq::<Seq<char>>::empty(),
    {
        Path(Vec::new())
    }

    /// Parses a path from a string: segments between `'/'`, with empty
    /// segments dropped, so leading, trailing and doubled slashes carry no
    /// meaning.
    pub fn from_str(path: &str) -> (r: Path)
        ensures
            r@ == nonempty_parts(crate::text::split_on(path@, '/')),
    {
        let parts = crate::text::split_chars(path, '/');
        let mut out: Vec<String> = Vec::new();
        let mut i: usize = 0;
        proof {
            assert(out.deep_view() =~= nonempty_parts(parts.deep_view().take(0)));
        }
        while i < parts.len()
            invariant
                0 <= i <= parts.len(),
                out.deep_view() == nonempty_parts(parts.deep_view().take(i as int)),
            decreases parts.len() - i,
        {
            proof {
                lemma_nonempty_parts_snoc(parts.deep_view(), i as int);
            }
            if parts[i].as_str().unicode_len() > 0 {
                let s = parts[i].clone();
                out.push(s);
                proof {
                    assert(out.deep_view() =~~= nonempty_parts(
                        parts.deep_view().take(i + 1),
                    ));
                }
            } else {
                proof {
                    assert(out.deep_view() =~~= nonempty_parts(
                        parts.deep_view().take(i + 1),
                    ));
                }
            }
            i = i + 1;
        }
        proof {
            assert(parts.deep_view().take(parts.len() as int) =~= parts.deep_view());
        }
        Path(out)
    }

    /// The path as a string: its segments joined with `'/'`.
    pub fn to_string(&self) -> (s: String)
        ensures
            s@ == crate::text::join_with(self@, '/'),
    {
        crate::text::join_strings(&self.0, '/')
    }

    /// The segment names of this path.
    pub fn components(&self) -> (r: &Vec<String>)
        ensures
            r.deep_view() == self@,
    {
        &self.0
    }

    pub fn is_empty(&self) -> (r: bool)
        ensures
            r == (self@.len() == 0),
    {
        self.0.len() == 0
    }

    /// Removes and returns the last segment, if any.
    pub fn pop(&mut self) -> (r: Option<String>)
        ensures
            match r {
                Some(s) => old(self)@.len() > 0 && s@ == old(self)@.last() && final(self)@
                    == old(self)@.drop_last(),
                None => old(self)@.len() == 0 && final(self)@ == old(self)@,
            },
    {
        let r = self.0.pop();
        proof {
            if old(self)@.len() > 0 {
                assert(self@ =~= old(self)@.drop_last());
            } else {
                assert(self@ =~= old(self)@);
            }
        }
        r
    }

    /// Appends one segment.
    pub fn push(&mut self, component: String)
        ensures
            final(self)@ =~= old(self)@.push(component@),
    {
        self.0.push(component);
        proof {
            assert(self@ =~= old(self)@.push(component@));
        }
    }

    /// This path followed by all segments of `other`.
    pub fn join(&self, other: &Path) -> (r: Path)
        ensures
            r@ =~= self@ + other@,
    {
        let mut out = self.0.clone();
        let mut i: usize = 0;
        while i < other.0.len()
            invariant
                0 <= i <= other.0.len(),
                out.deep_view() =~= self@ + other@.take(i as int),
            decreases other.0.len() - i,
        {
            let ghost pre = out.deep_view();
            let c = other.0[i].clone();
            proof {
                assert(c@ == other.0@[i as int]@);
                assert(other@[i as int] == other.0@[i as int].deep_view());
            }
            out.push(c);
            proof {
                assert(out@ == out@.subrange(0, out@.len() - 1).push(c));
                assert(out.deep_view().len() == pre.len() + 1);
                assert(forall|j: int|
                    0 <= j < pre.len() ==> out.deep_view()[j] == pre[j]);
                assert(out.deep_view()[pre.len() as int] == c.deep_view());
                let rhs = self@ + other@.take(i + 1);
                assert(pre.len() == self@.len() + i);
                assert(rhs.len() == pre.len() + 1);
                assert forall|j: int| 0 <= j < out.deep_view().len() implies out.deep_view()[j]
                    == rhs[j] by {
                    if j < self@.len() {
                        assert(pre[j] == (self@ + other@.take(i as int))[j]);
                        assert(rhs[j] == self@[j]);
                    } else if j < pre.len() {
                        assert(pre[j] == (self@ + other@.take(i as int))[j]);
                        assert((self@ + other@.take(i as int))[j] == other@[j - self@.len()]);
                        assert(rhs[j] == other@[j - self@.len()]);
                    } else {
                        assert(rhs[j] == other@[i as int]);
                    }
                }
                assert(out.deep_view() =~= rhs);
            }
            i = i + 1;
        }
        proof {
            assert(other@.take(other.0.len() as int) =~= other@);
        }
        Path(out)
    }
}

/// The parts of `parts` that are non-empty, in order.
pub open spec fn nonempty_parts(parts: Seq<Seq<char>>) -> Seq<Seq<char>>
    decreases parts.len(),
{
    if parts.len() == 0 {
        Seq::<Seq<char>>::empty()
    } else if parts.last().len() == 0 {
        nonempty_parts(parts.drop_last())
    } else {
        nonempty_parts(parts.drop_last()).push(parts.last())
    }
}

proof fn lemma_nonempty_parts_snoc(parts: Seq<Seq<char>>, i: int)
    requires
        0 <= i < parts.len(),
    ensures
        parts[i].len() == 0 ==> nonempty_parts(parts.take(i + 1)) == nonempty_parts(
            parts.take(i),
        ),
        parts[i].len() > 0 ==> nonempty_parts(parts.take(i + 1)) == nonempty_parts(
            parts.take(i),
        ).push(parts[i]),
{
    assert(parts.take(i + 1).drop_last() =~= parts.take(i));
    assert(parts.take(i + 1).last() == parts[i]);
}

/// The tree's one failure mode: a path step runs through an existing file.
#[derive(Debug, PartialEq, Eq, Structural)]
pub enum Error {
    PathConflict,
}

/// Looking a name up in an association list: the first pair with that name.
pub closed spec fn assoc_get(s: Seq<(String, Entry)>, name: Seq<char>) -> Option<Entry>
    decreases s.len(),
{
    if s.len() == 0 {
        None::<Entry>
    } else if s[0].0@ == name {
        Some(s[0].1)
    } else {
        assoc_get(s.drop_first(), name)
    }
}

/// The entry at `path` below `d`: each segment steps into a nested
/// directory; the empty path addresses nothing.
pub closed spec fn dir_get_path(d: Dir, path: Seq<Seq<char>>) -> Option<Entry>
    decreases path.len(),
{
    if path.len() == 0 {
        None::<Entry>
    } else {
        match assoc_get(d.entries@, path[0]) {
            None => None,
            Some(e) => if path.len() == 1 {
                Some(e)
            } else {
                match e {
                    Entry::Dir(sub) => dir_get_path(sub, path.drop_first()),
                    Entry::File(_) => None,
                }
            },
        }
    }
}

/// The entry at `path` at or below entry `e`: the empty path addresses `e`
/// itself.
pub open spec fn entry_get(e: Entry, path: Seq<Seq<char>>) -> Option<Entry> {
    if path.len() == 0 {
        Some(e)
    } else {
        match e {
            Entry::Dir(sub) => dir_get_path(sub, path),
            Entry::File(_) => None,
        }
    }
}

/// Well-formedness of whatever lies below an entry.
pub open spec fn entry_wf(e: Entry) -> bool {
    match e {
        Entry::Dir(sub) => dir_wf(sub),
        Entry::File(_) => true,
    }
}

/// Whether `p` is a (not necessarily strict) prefix of `q`.
pub open spec fn is_prefix_of(p: Seq<Seq<char>>, q: Seq<Seq<char>>) -> bool {
    p.len() <= q.len() && p =~= q.take(p.len() as int)
}

/// Insertion at `path` succeeds exactly when no strict prefix of `path`
/// addresses an existing file.
pub open spec fn put_ok(d: Dir, path: Seq<Seq<char>>) -> bool {
    forall|k: int|
        1 <= k < path.len() ==> !(#[trigger] dir_get_path(d, path.take(k)) matches Some(
            Entry::File(_),
        ))
}

impl Dir {
    /// An empty directory.
    pub fn new() -> (r: Dir)
        ensures
            dir_wf(r),
            forall|q: Seq<Seq<char>>| dir_get_path(r, q) is None,
    {
        let d = Dir { entries: Vec::new() };
        proof {
            assert forall|q: Seq<Seq<char>>| dir_get_path(d, q) is None by {
                if q.len() > 0 {
                    assert(assoc_get(d.entries@, q[0]) is None);
                }
            }
        }
        d
    }

    /// The entries of this directory, as name-entry pairs. Every pair is
    /// addressable below this directory by its own name, the names are
    /// distinct, and every single-segment path that resolves is listed.
    pub fn iter(&self) -> (r: &Vec<(String, Entry)>)
        requires
            dir_wf(*self),
        ensures
            forall|j: int|
                0 <= j < r@.len() ==> #[trigger] dir_get_path(*self, seq![r@[j].0@]) == Some(
                    r@[j].1,
                ),
            forall|i: int, j: int| 0 <= i < j < r@.len() ==> r@[i].0@ != r@[j].0@,
            forall|name: Seq<char>|
                #[trigger] dir_get_path(*self, seq![name]) is Some ==> exists|j: int|
                    0 <= j < r@.len() && r@[j].0@ == name,
    {
        proof {
            lemma_entries_vs_get(*self);
        }
        &self.entries
    }

    /// The entries of this directory, by value, with the same guarantees as
    /// `iter`.
    pub fn into_iter(self) -> (r: Vec<(String, Entry)>)
        requires
            dir_wf(self),
        ensures
            forall|j: int|
                0 <= j < r@.len() ==> #[trigger] dir_get_path(self, seq![r@[j].0@]) == Some(
                    r@[j].1,
                ),
            forall|i: int, j: int| 0 <= i < j < r@.len() ==> r@[i].0@ != r@[j].0@,
            forall|name: Seq<char>|
                #[trigger] dir_get_path(self, seq![name]) is Some ==> exists|j: int|
                    0 <= j < r@.len() && r@[j].0@ == name,
    {
        proof {
            lemma_entries_vs_get(self);
        }
        self.entries
    }
}

/// In a well-formed directory, the association list and single-segment path
/// lookup agree.
proof fn lemma_entries_vs_get(d: Dir)
    requires
        dir_wf(d),
    ensures
        forall|j: int|
            0 <= j < d.entries@.len() ==> #[trigger] dir_get_path(d, seq![d.entries@[j].0@])
                == Some(d.entries@[j].1),
        forall|i: int, j: int| 0 <= i < j < d.entries@.len() ==> d.entries@[i].0@ != d.entries@[j].0@,
        forall|name: Seq<char>|
            #[trigger] dir_get_path(d, seq![name]) is Some ==> exists|j: int|
                0 <= j < d.entries@.len() && d.entries@[j].0@ == name,
{
    assert forall|j: int|
        0 <= j < d.entries@.len() implies #[trigger] dir_get_path(d, seq![d.entries@[j].0@])
        == Some(d.entries@[j].1) by {
        lemma_assoc_index(d.entries@, j);
        let q = seq![d.entries@[j].0@];
        assert(q.len() == 1 && q[0] == d.entries@[j].0@);
    }
    assert forall|name: Seq<char>|
        #[trigger] dir_get_path(d, seq![name]) is Some implies exists|j: int|
        0 <= j < d.entries@.len() && d.entries@[j].0@ == name by {
        let q = seq![name];
        assert(q.len() == 1 && q[0] == name);
        assert(assoc_get(d.entries@, name) is Some);
        lemma_assoc_some_key(d.entries@, name);
    }
}

/// With distinct names, the pair at index `j` is what lookup of its name
/// finds.
proof fn lemma_assoc_index(s: Seq<(String, Entry)>, j: int)
    requires
        forall|a: int, b: int| 0 <= a < b < s.len() ==> (#[trigger] s[a]).0@ != (#[trigger] s[b]).0@,
        0 <= j < s.len(),
    ensures
        assoc_get(s, s[j].0@) == Some(s[j].1),
    decreases s.len(),
{
    if j == 0 {
    } else {
        assert(s[0].0@ != s[j].0@);
        lemma_assoc_index(s.drop_first(), j - 1);
        assert(s.drop_first()[j - 1] == s[j]);
    }
}

/// A successful lookup names some listed pair.
proof fn lemma_assoc_some_key(s: Seq<(String, Entry)>, name: Seq<char>)
    requires
        assoc_get(s, name) is Some,
    ensures
        exists|j: int| 0 <= j < s.len() && (#[trigger] s[j]).0@ == name,
    decreases s.len(),
{
    if s.len() > 0 {
        if s[0].0@ == name {
            assert(s[0].0@ == name);
        } else {
            lemma_assoc_some_key(s.drop_first(), name);
            let j = choose|j: int| 0 <= j < s.drop_first().len() && (#[trigger] s.drop_first()[j]).0@ == name;
            assert(s[j + 1].0@ == name);
        }
    }
}

/// The file at `q` below `d`, if the path resolves to a file leaf.
pub open spec fn file_at(d: Dir, q: Seq<Seq<char>>) -> Option<File> {
    match dir_get_path(d, q) {
        Some(e) => match e {
            Entry::File(f) => Some(f),
            Entry::Dir(_) => None,
        },
        None => None,
    }
}

/// Lookup after replacing the entry at index `j`, the names being distinct:
/// the name at `j` now finds the new entry; all other names are unaffected.
proof fn lemma_assoc_update(s: Seq<(String, Entry)>, j: int, p: (String, Entry), name: Seq<char>)
    requires
        forall|a: int, b: int| 0 <= a < b < s.len() ==> (#[trigger] s[a]).0@ != (#[trigger] s[b]).0@,
        0 <= j < s.len(),
        p.0@ == s[j].0@,
    ensures
        assoc_get(s.update(j, p), name) == if name == s[j].0@ {
            Some(p.1)
        } else {
            assoc_get(s, name)
        },
    decreases s.len(),
{
    let s2 = s.update(j, p);
    assert(s2.len() == s.len());
    if j == 0 {
        assert(s2[0] == p);
        if name == s[0].0@ {
        } else {
            assert(s2.drop_first() =~= s.drop_first());
        }
    } else {
        assert(s2[0] == s[0]);
        if name == s[0].0@ {
            assert(s[j].0@ != s[0].0@);
        } else {
            assert(s2.drop_first() =~= s.drop_first().update(j - 1, p));
            assert(s.drop_first()[j - 1] == s[j]);
            lemma_assoc_update(s.drop_first(), j - 1, p, name);
        }
    }
}

/// Lookup after appending a pair with a fresh name: the fresh name finds the
/// new entry; all other names are unaffected.
proof fn lemma_assoc_push(s: Seq<(String, Entry)>, p: (String, Entry), name: Seq<char>)
    requires
        forall|a: int| 0 <= a < s.len() ==> (#[trigger] s[a]).0@ != p.0@,
    ensures
        assoc_get(s.push(p), name) == if name == p.0@ {
            Some(p.1)
        } else {
            assoc_get(s, name)
        },
    decreases s.len(),
{
    let s2 = s.push(p);
    if s.len() == 0 {
        assert(s2[0] == p);
        if name == p.0@ {
        } else {
            assert(s2.drop_first() =~= Seq::<(String, Entry)>::empty().push(p).drop_first());
            assert(s2.drop_first() =~= Seq::<(String, Entry)>::empty());
            assert(assoc_get(s2.drop_first(), name) is None);
        }
    } else {
        assert(s2[0] == s[0]);
        assert(s2.drop_first() =~= s.drop_first().push(p));
        if name == s[0].0@ {
            assert(s[0].0@ != p.0@);
        } else {
            lemma_assoc_push(s.drop_first(), p, name);
        }
    }
}

/// Lookup after removing the entry at index `j`, the names being distinct:
/// the removed name no longer resolves; all other names are unaffected.
proof fn lemma_assoc_remove(s: Seq<(String, Entry)>, j: int, name: Seq<char>)
    requires
        forall|a: int, b: int| 0 <= a < b < s.len() ==> (#[trigger] s[a]).0@ != (#[trigger] s[b]).0@,
        0 <= j < s.len(),
    ensures
        assoc_get(s.remove(j), name) == if name == s[j].0@ {
            None::<Entry>
        } else {
            assoc_get(s, name)
        },
    decreases s.len(),
{
    let s2 = s.remove(j);
    if j == 0 {
        assert(s2 =~= s.drop_first());
        if name == s[0].0@ {
            lemma_assoc_absent(s.drop_first(), name);
        }
    } else {
        assert(s2[0] == s[0]);
        assert(s2.drop_first() =~= s.drop_first().remove(j - 1));
        assert(s.drop_first()[j - 1] == s[j]);
        if name == s[0].0@ {
            assert(s[j].0@ != s[0].0@);
        } else {
            lemma_assoc_remove(s.drop_first(), j - 1, name);
        }
    }
}

/// A name carried by no pair resolves to nothing.
proof fn lemma_assoc_absent(s: Seq<(String, Entry)>, name: Seq<char>)
    requires
        forall|a: int| 0 <= a < s.len() ==> (#[trigger] s[a]).0@ != name,
    ensures
        assoc_get(s, name) is None,
    decreases s.len(),
{
    if s.len() > 0 {
        lemma_assoc_absent(s.drop_first(), name);
    }
}

/// The first pair carrying `name`, when every earlier pair carries another
/// name, is what lookup finds.
proof fn lemma_assoc_first(s: Seq<(String, Entry)>, j: int, name: Seq<char>)
    requires
        0 <= j < s.len(),
        s[j].0@ == name,
        forall|a: int| 0 <= a < j ==> (#[trigger] s[a]).0@ != name,
    ensures
        assoc_get(s, name) == Some(s[j].1),
    decreases s.len(),
{
    if j > 0 {
        lemma_assoc_first(s.drop_first(), j - 1, name);
        assert(s.drop_first()[j - 1] == s[j]);
    }
}

/// One unfolding of path lookup, phrased over `entry_get`.
proof fn lemma_dir_get_unfold(d: Dir, q: Seq<Seq<char>>)
    requires
        q.len() >= 1,
    ensures
        dir_get_path(d, q) == match assoc_get(d.entries@, q[0]) {
            Some(e) => if q.len() == 1 {
                Some(e)
            } else {
                entry_get(e, q.drop_first())
            },
            None => None::<Entry>,
        },
{
}

/// Path lookup decomposes into lookup of the first segment followed by
/// lookup of the remainder below the entry found there.
pub proof fn lemma_dir_get_step(d: Dir, q: Seq<Seq<char>>)
    requires
        q.len() >= 1,
    ensures
        dir_get_path(d, q) == match dir_get_path(d, seq![q[0]]) {
            Some(e) => if q.len() == 1 {
                Some(e)
            } else {
                entry_get(e, q.drop_first())
            },
            None => None::<Entry>,
        },
{
    let single = seq![q[0]];
    assert(single.len() == 1 && single[0] == q[0]);
    lemma_dir_get_unfold(d, q);
    lemma_dir_get_unfold(d, single);
}

fn find_index(entries: &Vec<(String, Entry)>, name: &str) -> (r: Option<usize>)
    ensures
        match r {
            Some(j) => j < entries@.len() && entries@[j as int].0@ == name@ && (forall|a: int|
                0 <= a < j ==> (#[trigger] entries@[a]).0@ != name@) && assoc_get(
                entries@,
                name@,
            ) == Some(entries@[j as int].1),
            None => (forall|a: int|
                0 <= a < entries@.len() ==> (#[trigger] entries@[a]).0@ != name@) && assoc_get(
                entries@,
                name@,
            ) is None,
        },
{
    let mut j: usize = 0;
    while j < entries.len()
        invariant
            0 <= j <= entries@.len(),
            forall|a: int| 0 <= a < j ==> (#[trigger] entries@[a]).0@ != name@,
        decreases entries@.len() - j,
    {
        if crate::text::str_eq(entries[j].0.as_str(), name) {
            proof {
                lemma_assoc_first(entries@, j as int, name@);
            }
            return Some(j);
        }
        j = j + 1;
    }
    proof {
        lemma_assoc_absent(entries@, name@);
    }
    None
}

impl Dir {
    /// The entry at `path`, if the path resolves; the empty path addresses
    /// nothing.
    pub fn get(&self, path: &Path) -> (r: Option<&Entry>)
        ensures
            match r {
                Some(e) => dir_get_path(*self, path@) == Some(*e),
                None => dir_get_path(*self, path@) is None,
            },
    {
        let comps = path.components();
        proof {
            assert(comps.deep_view().skip(0) =~= path@);
        }
        self.get_at(comps, 0)
    }

    fn get_at(&self, comps: &Vec<String>, i: usize) -> (r: Option<&Entry>)
        requires
            i <= comps@.len(),
        ensures
            match r {
                Some(e) => dir_get_path(*self, comps.deep_view().skip(i as int)) == Some(*e),
                None => dir_get_path(*self, comps.deep_view().skip(i as int)) is None,
            },
        decreases comps@.len() - i,
    {
        let ghost rest = comps.deep_view().skip(i as int);
        if i == comps.len() {
            return None;
        }
        proof {
            assert(rest[0] == comps@[i as int]@);
        }
        match find_index(&self.entries, comps[i].as_str()) {
            None => None,
            Some(j) => {
                let e = &self.entries[j].1;
                if i + 1 == comps.len() {
                    proof {
                        assert(rest.len() == 1);
                    }
                    Some(e)
                } else {
                    proof {
                        assert(rest.len() >= 2);
                        assert(rest.drop_first() =~= comps.deep_view().skip(i + 1));
                    }
                    match e {
                        Entry::Dir(sub) => sub.get_at(comps, i + 1),
                        Entry::File(_) => None,
                    }
                }
            },
        }
    }

    /// The file at `path`, if the path resolves to a file leaf.
    pub fn get_file(&self, path: &Path) -> (r: Option<&File>)
        ensures
            match r {
                Some(f) => file_at(*self, path@) == Some(*f),
                None => file_at(*self, path@) is None,
            },
    {
        match self.get(path) {
            Some(e) => match e {
                Entry::File(f) => Some(f),
                Entry::Dir(_) => None,
            },
            None => None,
        }
    }

    /// The directory at `path`, if the path resolves to a directory.
    pub fn get_dir(&self, path: &Path) -> (r: Option<&Dir>)
        ensures
            match r {
                Some(d) => dir_get_path(*self, path@) == Some(Entry::Dir(*d)),
                None => !(dir_get_path(*self, path@) matches Some(Entry::Dir(_))),
            },
    {
        match self.get(path) {
            Some(e) => match e {
                Entry::Dir(d) => Some(d),
                Entry::File(_) => None,
            },
            None => None,
        }
    }
}

impl Dir {
    /// Inserts `entry` at `path`, creating intermediate directories along
    /// the way and replacing whatever the full path already addressed.
    /// Fails with `PathConflict`, leaving the tree untouched, exactly when
    /// the path is empty or some strict prefix addresses an existing file.
    pub fn put(&mut self, path: &Path, entry: Entry) -> (r: Result<(), Error>)
        requires
            dir_wf(*old(self)),
            entry_wf(entry),
        ensures
            dir_wf(*final(self)),
            match r {
                Ok(_) => {
                    &&& path@.len() >= 1
                    &&& put_ok(*old(self), path@)
                    &&& dir_get_path(*final(self), path@) == Some(entry)
                    &&& (forall|q: Seq<Seq<char>>|
                        !is_prefix_of(q, path@) && !is_prefix_of(path@, q)
                            ==> #[trigger] dir_get_path(*final(self), q) == dir_get_path(
                            *old(self),
                            q,
                        ))
                    &&& (forall|q: Seq<Seq<char>>|
                        is_prefix_of(q, path@) && 0 < q.len() < path@.len()
                            ==> (#[trigger] dir_get_path(*final(self), q) matches Some(
                            Entry::Dir(_),
                        )))
                    &&& (forall|q: Seq<Seq<char>>|
                        is_prefix_of(path@, q) && q.len() > path@.len()
                            ==> #[trigger] dir_get_path(*final(self), q) == entry_get(
                            entry,
                            q.skip(path@.len() as int),
                        ))
                },
                Err(e) => {
                    &&& e == Error::PathConflict
                    &&& !(path@.len() >= 1 && put_ok(*old(self), path@))
                    &&& *final(self) == *old(self)
                },
            },
    {
        if path.is_empty() {
            return Err(Error::PathConflict);
        }
        let comps = path.components();
        proof {
            assert(comps.deep_view().skip(0) =~= path@);
        }
        if self.has_conflict(comps, 0) {
            return Err(Error::PathConflict);
        }
        self.put_at(comps, 0, entry);
        Ok(())
    }

    /// Whether some strict prefix of `comps[i..]` addresses a file, which
    /// would make insertion at that path fail.
    fn has_conflict(&self, comps: &Vec<String>, i: usize) -> (r: bool)
        requires
            i < comps@.len(),
        ensures
            r == !put_ok(*self, comps.deep_view().skip(i as int)),
        decreases comps@.len() - i,
    {
        let ghost rest = comps.deep_view().skip(i as int);
        proof {
            assert(rest[0] == comps@[i as int]@);
        }
        if comps.len() - i == 1 {
            proof {
                assert(rest.len() == 1);
            }
            return false;
        }
        match find_index(&self.entries, comps[i].as_str()) {
            None => {
                proof {
                    assert forall|k: int|
                        1 <= k < rest.len() implies !(#[trigger] dir_get_path(
                        *self,
                        rest.take(k),
                    ) matches Some(Entry::File(_))) by {
                        assert(rest.take(k)[0] == rest[0]);
                        lemma_dir_get_unfold(*self, rest.take(k));
                    }
                }
                false
            },
            Some(j) => {
                let e = &self.entries[j].1;
                match e {
                    Entry::File(_) => {
                        proof {
                            assert(rest.take(1) =~= seq![rest[0]]);
                            lemma_dir_get_unfold(*self, rest.take(1));
                            assert(dir_get_path(*self, rest.take(1)) matches Some(
                                Entry::File(_),
                            ));
                        }
                        true
                    },
                    Entry::Dir(sub) => {
                        let r = sub.has_conflict(comps, i + 1);
                        proof {
                            let rest1 = comps.deep_view().skip(i + 1);
                            assert(rest1 =~= rest.drop_first());
                            lemma_conflict_lift(*self, *sub, j as int, rest, rest1);
                        }
                        r
                    },
                }
            },
        }
    }

    fn put_at(&mut self, comps: &Vec<String>, i: usize, entry: Entry)
        requires
            dir_wf(*old(self)),
            entry_wf(entry),
            i < comps@.len(),
            put_ok(*old(self), comps.deep_view().skip(i as int)),
        ensures
            dir_wf(*final(self)),
            dir_get_path(*final(self), comps.deep_view().skip(i as int)) == Some(entry),
            forall|q: Seq<Seq<char>>|
                !is_prefix_of(q, comps.deep_view().skip(i as int)) && !is_prefix_of(
                    comps.deep_view().skip(i as int),
                    q,
                ) ==> #[trigger] dir_get_path(*final(self), q) == dir_get_path(*old(self), q),
            forall|q: Seq<Seq<char>>|
                is_prefix_of(q, comps.deep_view().skip(i as int)) && 0 < q.len()
                    < comps.deep_view().skip(i as int).len() ==> (#[trigger] dir_get_path(
                    *final(self),
                    q,
                ) matches Some(Entry::Dir(_))),
            forall|q: Seq<Seq<char>>|
                is_prefix_of(comps.deep_view().skip(i as int), q) && q.len() > comps.deep_view(
                ).skip(i as int).len() ==> #[trigger] dir_get_path(*final(self), q) == entry_get(
                    entry,
                    q.skip(comps.deep_view().skip(i as int).len() as int),
                ),
        decreases comps@.len() - i,
    {
        let ghost rest = comps.deep_view().skip(i as int);
        let ghost d0 = *self;
        proof {
            assert(rest[0] == comps@[i as int]@);
            assert(rest.len() == comps@.len() - i);
        }
        let last = comps.len() - i == 1;
        match find_index(&self.entries, comps[i].as_str()) {
            Some(j) => {
                let pair = self.entries.remove(j);
                if last {
                    self.entries.insert(j, (pair.0, entry));
                    proof {
                        assert(self.entries@ =~= d0.entries@.update(j as int, (pair.0, entry)));
                        lemma_put_replace_post(d0, *self, j as int, entry, rest);
                    }
                } else {
                    match pair.1 {
                        Entry::File(f) => {
                            proof {
                                assert(rest.take(1) =~= seq![rest[0]]);
                                lemma_dir_get_unfold(d0, rest.take(1));
                                assert(dir_get_path(d0, rest.take(1)) matches Some(
                                    Entry::File(_),
                                ));
                                assert(false);
                            }
                            self.entries.insert(j, (pair.0, Entry::File(f)));
                        },
                        Entry::Dir(mut sub) => {
                            let ghost sub0 = sub;
                            proof {
                                let rest1 = comps.deep_view().skip(i + 1);
                                assert(rest1 =~= rest.drop_first());
                                lemma_put_ok_lower(d0, sub0, j as int, rest, rest1);
                            }
                            sub.put_at(comps, i + 1, entry);
                            self.entries.insert(j, (pair.0, Entry::Dir(sub)));
                            proof {
                                let rest1 = comps.deep_view().skip(i + 1);
                                assert(rest1 =~= rest.drop_first());
                                assert(self.entries@ =~= d0.entries@.update(
                                    j as int,
                                    (pair.0, Entry::Dir(sub)),
                                ));
                                lemma_put_child_post(d0, *self, j as int, sub0, sub, entry, rest);
                            }
                        },
                    }
                }
            },
            None => {
                let chain = make_chain(comps, i + 1, entry);
                let name = comps[i].clone();
                self.entries.push((name, chain));
                proof {
                    let rest1 = comps.deep_view().skip(i + 1);
                    assert(rest1 =~= rest.drop_first());
                    assert(self.entries@ =~= d0.entries@.push((name, chain)));
                    lemma_put_push_post(d0, *self, name, chain, entry, rest, rest1);
                }
            },
        }
    }
}

/// When the first segment of `rest` leads from `d` to the subdirectory
/// `sub`, conflicts below `rest` are exactly conflicts below its tail.
proof fn lemma_conflict_lift(d: Dir, sub: Dir, j: int, rest: Seq<Seq<char>>, rest1: Seq<
    Seq<char>,
>)
    requires
        0 <= j < d.entries@.len(),
        assoc_get(d.entries@, rest[0]) == Some(d.entries@[j].1),
        d.entries@[j].1 == Entry::Dir(sub),
        rest.len() >= 2,
        rest1 == rest.drop_first(),
    ensures
        put_ok(d, rest) == put_ok(sub, rest1),
{
    assert forall|k: int|
        1 <= k < rest.len() implies #[trigger] dir_get_path(d, rest.take(k)) == (if k == 1 {
        Some(d.entries@[j].1)
    } else {
        dir_get_path(sub, rest1.take(k - 1))
    }) by {
        assert(rest.take(k)[0] == rest[0]);
        lemma_dir_get_unfold(d, rest.take(k));
        if k > 1 {
            assert(rest.take(k).drop_first() =~= rest1.take(k - 1));
        }
    }
    if put_ok(d, rest) {
        assert forall|k1: int|
            1 <= k1 < rest1.len() implies !(#[trigger] dir_get_path(sub, rest1.take(k1))
            matches Some(Entry::File(_))) by {
            assert(dir_get_path(d, rest.take(k1 + 1)) == dir_get_path(sub, rest1.take(k1)));
        }
    }
    if put_ok(sub, rest1) {
        assert forall|k: int|
            1 <= k < rest.len() implies !(#[trigger] dir_get_path(d, rest.take(k)) matches Some(
            Entry::File(_))) by {
            if k > 1 {
                assert(dir_get_path(d, rest.take(k)) == dir_get_path(sub, rest1.take(k - 1)));
            }
        }
    }
}

/// `put_ok` passes from a directory to the subdirectory its first segment
/// names.
proof fn lemma_put_ok_lower(d: Dir, sub: Dir, j: int, rest: Seq<Seq<char>>, rest1: Seq<
    Seq<char>,
>)
    requires
        0 <= j < d.entries@.len(),
        assoc_get(d.entries@, rest[0]) == Some(d.entries@[j].1),
        d.entries@[j].1 == Entry::Dir(sub),
        rest.len() >= 2,
        rest1 == rest.drop_first(),
        put_ok(d, rest),
    ensures
        put_ok(sub, rest1),
{
    lemma_conflict_lift(d, sub, j, rest, rest1);
}

/// Builds the chain of single-entry directories that nests `entry` below
/// the segments `comps[i..]`.
fn make_chain(comps: &Vec<String>, i: usize, entry: Entry) -> (e: Entry)
    requires
        i <= comps@.len(),
        entry_wf(entry),
    ensures
        entry_wf(e),
        i < comps@.len() ==> e is Dir,
        i == comps@.len() ==> e == entry,
        forall|q: Seq<Seq<char>>|
            is_prefix_of(comps.deep_view().skip(i as int), q) ==> #[trigger] entry_get(e, q)
                == entry_get(entry, q.skip(comps.deep_view().skip(i as int).len() as int)),
        forall|q: Seq<Seq<char>>|
            is_prefix_of(q, comps.deep_view().skip(i as int)) && q.len() < comps.deep_view().skip(
                i as int,
            ).len() ==> (#[trigger] entry_get(e, q) matches Some(Entry::Dir(dd)) && dir_wf(dd)),
        forall|q: Seq<Seq<char>>|
            !is_prefix_of(comps.deep_view().skip(i as int), q) && !is_prefix_of(
                q,
                comps.deep_view().skip(i as int),
            ) ==> #[trigger] entry_get(e, q) is None,
    decreases comps@.len() - i,
{
    let ghost rest = comps.deep_view().skip(i as int);
    if i == comps.len() {
        proof {
            assert(rest.len() == 0);
            assert forall|q: Seq<Seq<char>>|
                is_prefix_of(rest, q) implies #[trigger] entry_get(entry, q) == entry_get(
                entry,
                q.skip(rest.len() as int),
            ) by {
                assert(q.skip(0) =~= q);
            }
            assert forall|q: Seq<Seq<char>>| is_prefix_of(rest, q) by {
                assert(q.take(0) =~= rest);
            }
        }
        entry
    } else {
        let sub_entry = make_chain(comps, i + 1, entry);
        let ghost rest1 = comps.deep_view().skip(i + 1);
        let name = comps[i].clone();
        let mut v: Vec<(String, Entry)> = Vec::new();
        v.push((name, sub_entry));
        let d = Dir { entries: v };
        let e = Entry::Dir(d);
        proof {
            assert(rest1 =~= rest.drop_first());
            assert(rest[0] == comps@[i as int]@);
            assert(name@ == rest[0]);
            assert(d.entries@.len() == 1);
            assert(d.entries@[0] == (name, sub_entry));
            assert(dir_wf(d)) by {
                assert(forall|a: int|
                    0 <= a < d.entries@.len() ==> match (#[trigger] d.entries@[a]).1 {
                        Entry::Dir(sub) => dir_wf(sub),
                        Entry::File(_) => true,
                    });
            }
            assert forall|q: Seq<Seq<char>>|
                is_prefix_of(rest, q) implies #[trigger] entry_get(e, q) == entry_get(
                entry,
                q.skip(rest.len() as int),
            ) by {
                lemma_chain_step(d, e, name, sub_entry, rest, rest1, entry, q);
            }
            assert forall|q: Seq<Seq<char>>|
                is_prefix_of(q, rest) && q.len() < rest.len() implies (#[trigger] entry_get(e, q)
                matches Some(Entry::Dir(dd)) && dir_wf(dd)) by {
                lemma_chain_step(d, e, name, sub_entry, rest, rest1, entry, q);
            }
            assert forall|q: Seq<Seq<char>>|
                !is_prefix_of(rest, q) && !is_prefix_of(q, rest) implies #[trigger] entry_get(
                e,
                q,
            ) is None by {
                lemma_chain_step(d, e, name, sub_entry, rest, rest1, entry, q);
            }
        }
        e
    }
}

/// One nesting step of `make_chain`: how lookup below the one-entry
/// directory relates to lookup below the nested entry.
proof fn lemma_chain_step(
    d: Dir,
    e: Entry,
    name: String,
    sub_entry: Entry,
    rest: Seq<Seq<char>>,
    rest1: Seq<Seq<char>>,
    entry: Entry,
    q: Seq<Seq<char>>,
)
    requires
        e == Entry::Dir(d),
        d.entries@.len() == 1,
        d.entries@[0] == (name, sub_entry),
        dir_wf(d),
        entry_wf(sub_entry),
        rest.len() >= 1,
        rest1 == rest.drop_first(),
        name@ == rest[0],
        rest1.len() == 0 ==> sub_entry == entry,
        forall|q2: Seq<Seq<char>>|
            is_prefix_of(rest1, q2) ==> #[trigger] entry_get(sub_entry, q2) == entry_get(
                entry,
                q2.skip(rest1.len() as int),
            ),
        forall|q2: Seq<Seq<char>>|
            is_prefix_of(q2, rest1) && q2.len() < rest1.len() ==> (#[trigger] entry_get(
                sub_entry,
                q2,
            ) matches Some(Entry::Dir(dd)) && dir_wf(dd)),
        forall|q2: Seq<Seq<char>>|
            !is_prefix_of(rest1, q2) && !is_prefix_of(q2, rest1) ==> #[trigger] entry_get(
                sub_entry,
                q2,
            ) is None,
    ensures
        is_prefix_of(rest, q) ==> entry_get(e, q) == entry_get(entry, q.skip(rest.len() as int)),
        is_prefix_of(q, rest) && q.len() < rest.len() ==> (entry_get(e, q) matches Some(
            Entry::Dir(dd),
        ) && dir_wf(dd)),
        !is_prefix_of(rest, q) && !is_prefix_of(q, rest) ==> entry_get(e, q) is None,
{
    if q.len() == 0 {
        assert(entry_get(e, q) == Some(e));
        assert(is_prefix_of(q, rest)) by {
            assert(rest.take(0) =~= q);
        }
        assert(!is_prefix_of(rest, q));
    } else {
        lemma_dir_get_unfold(d, q);
        let q1 = q.drop_first();
        if q[0] == name@ {
            assert(assoc_get(d.entries@, q[0]) == Some(sub_entry)) by {
                lemma_assoc_first(d.entries@, 0, q[0]);
            }
            // Relate prefix relations at this level to those one level down.
            assert(is_prefix_of(rest, q) == is_prefix_of(rest1, q1)) by {
                lemma_prefix_shift(rest, q, rest1, q1);
            }
            assert(is_prefix_of(q, rest) == is_prefix_of(q1, rest1)) by {
                lemma_prefix_shift(q, rest, q1, rest1);
            }
            if q.len() == 1 {
                assert(q1 =~= Seq::<Seq<char>>::empty());
                assert(entry_get(e, q) == Some(sub_entry));
                if rest.len() == 1 {
                    assert(is_prefix_of(rest1, q1));
                    assert(entry_get(sub_entry, q1) == Some(sub_entry));
                    assert(q1.skip(0) =~= q1);
                    assert(entry_get(entry, q1) == Some(entry));
                    assert(sub_entry == entry);
                    assert(q.skip(1) =~= q1);
                } else {
                    assert(q1.len() < rest1.len());
                    assert(is_prefix_of(q1, rest1)) by {
                        assert(rest1.take(0) =~= q1);
                    }
                    assert(entry_get(sub_entry, q1) == Some(sub_entry));
                    assert(sub_entry is Dir);
                }
            } else {
                assert(entry_get(e, q) == entry_get(sub_entry, q1));
                if is_prefix_of(rest, q) {
                    assert(q1.skip(rest1.len() as int) =~= q.skip(rest.len() as int));
                } else if is_prefix_of(q, rest) {
                    assert(q.len() < rest.len());
                    assert(q1.len() < rest1.len());
                }
            }
        } else {
            assert(assoc_get(d.entries@, q[0]) is None) by {
                lemma_assoc_absent(d.entries@, q[0]);
            }
            assert(entry_get(e, q) is None);
            assert(!is_prefix_of(rest, q)) by {
                if is_prefix_of(rest, q) {
                    assert(q.take(rest.len() as int)[0] == q[0]);
                }
            }
            if is_prefix_of(q, rest) {
                assert(rest.take(q.len() as int)[0] == rest[0]);
                assert(false);
            }
        }
    }
}

/// For non-empty sequences with equal heads, the prefix relation holds
/// exactly when it holds of the tails.
proof fn lemma_prefix_shift(a: Seq<Seq<char>>, b: Seq<Seq<char>>, a1: Seq<Seq<char>>, b1: Seq<
    Seq<char>,
>)
    requires
        a.len() >= 1,
        b.len() >= 1,
        a[0] == b[0],
        a1 == a.drop_first(),
        b1 == b.drop_first(),
    ensures
        is_prefix_of(a, b) == is_prefix_of(a1, b1),
{
    if is_prefix_of(a, b) {
        assert(b1.take(a1.len() as int) =~= a1) by {
            assert forall|k: int| 0 <= k < a1.len() implies b1.take(a1.len() as int)[k]
                == a1[k] by {
                assert(b1[k] == b[k + 1]);
                assert(b.take(a.len() as int)[k + 1] == b[k + 1]);
                assert(a[k + 1] == a1[k]);
            }
        }
        assert(is_prefix_of(a1, b1));
    }
    if is_prefix_of(a1, b1) {
        assert(b.take(a.len() as int) =~= a) by {
            assert forall|k: int| 0 <= k < a.len() implies b.take(a.len() as int)[k] == a[k] by {
                if k == 0 {
                } else {
                    assert(b[k] == b1[k - 1]);
                    assert(b1.take(a1.len() as int)[k - 1] == b1[k - 1]);
                    assert(a1[k - 1] == a[k]);
                }
            }
        }
        assert(is_prefix_of(a, b));
    }
}

/// After replacing the entry at index `j` with `entry`, the one-segment
/// path of its name addresses `entry` and every other path is as before.
proof fn lemma_put_replace_post(d0: Dir, d1: Dir, j: int, entry: Entry, rest: Seq<Seq<char>>)
    requires
        dir_wf(d0),
        entry_wf(entry),
        0 <= j < d0.entries@.len(),
        d1.entries@ == d0.entries@.update(j, (d0.entries@[j].0, entry)),
        rest.len() == 1,
        rest[0] == d0.entries@[j].0@,
    ensures
        dir_wf(d1),
        dir_get_path(d1, rest) == Some(entry),
        forall|q: Seq<Seq<char>>|
            !is_prefix_of(q, rest) && !is_prefix_of(rest, q) ==> #[trigger] dir_get_path(d1, q)
                == dir_get_path(d0, q),
        forall|q: Seq<Seq<char>>|
            is_prefix_of(q, rest) && 0 < q.len() < rest.len() ==> (#[trigger] dir_get_path(
                d1,
                q,
            ) matches Some(Entry::Dir(_))),
        forall|q: Seq<Seq<char>>|
            is_prefix_of(rest, q) && q.len() > rest.len() ==> #[trigger] dir_get_path(d1, q)
                == entry_get(entry, q.skip(rest.len() as int)),
{
    let nm = d0.entries@[j].0@;
    assert(dir_wf(d1)) by {
        assert(forall|a: int|
            0 <= a < d1.entries@.len() ==> (#[trigger] d1.entries@[a]).0@ == d0.entries@[a].0@);
        assert(forall|a: int|
            0 <= a < d1.entries@.len() && a != j ==> #[trigger] d1.entries@[a]
                == d0.entries@[a]);
        assert(d1.entries@[j].1 == entry);
    }
    assert(dir_get_path(d1, rest) == Some(entry)) by {
        lemma_dir_get_unfold(d1, rest);
        lemma_assoc_update(d0.entries@, j, (d0.entries@[j].0, entry), rest[0]);
    }
    assert forall|q: Seq<Seq<char>>|
        !is_prefix_of(q, rest) && !is_prefix_of(rest, q) implies #[trigger] dir_get_path(d1, q)
        == dir_get_path(d0, q) by {
        lemma_put_level_misc(d0, d1, j, entry, rest, q);
    }
    assert forall|q: Seq<Seq<char>>|
        is_prefix_of(rest, q) && q.len() > rest.len() implies #[trigger] dir_get_path(d1, q)
        == entry_get(entry, q.skip(rest.len() as int)) by {
        assert(q.take(1)[0] == q[0]);
        assert(q[0] == nm);
        lemma_dir_get_unfold(d1, q);
        lemma_assoc_update(d0.entries@, j, (d0.entries@[j].0, entry), q[0]);
        assert(q.drop_first() =~= q.skip(rest.len() as int));
    }
}

/// Paths that do not start with the updated name are untouched by an
/// update at index `j`.
proof fn lemma_put_level_misc(d0: Dir, d1: Dir, j: int, entry: Entry, rest: Seq<Seq<char>>, q: Seq<
    Seq<char>,
>)
    requires
        dir_wf(d0),
        0 <= j < d0.entries@.len(),
        d1.entries@ == d0.entries@.update(j, (d0.entries@[j].0, entry)),
        rest.len() >= 1,
        rest[0] == d0.entries@[j].0@,
        !is_prefix_of(q, rest) && !is_prefix_of(rest, q),
        q.len() >= 1 ==> q[0] != rest[0],
    ensures
        dir_get_path(d1, q) == dir_get_path(d0, q),
{
    if q.len() == 0 {
    } else {
        lemma_dir_get_unfold(d1, q);
        lemma_dir_get_unfold(d0, q);
        lemma_assoc_update(d0.entries@, j, (d0.entries@[j].0, entry), q[0]);
    }
}

/// After replacing the subdirectory at index `j` by one whose contents
/// answer every path as required, the whole directory does too.
proof fn lemma_put_child_post(
    d0: Dir,
    d1: Dir,
    j: int,
    sub0: Dir,
    sub1: Dir,
    entry: Entry,
    rest: Seq<Seq<char>>,
)
    requires
        dir_wf(d0),
        entry_wf(entry),
        dir_wf(sub1),
        0 <= j < d0.entries@.len(),
        d0.entries@[j].1 == Entry::Dir(sub0),
        d1.entries@ == d0.entries@.update(j, (d0.entries@[j].0, Entry::Dir(sub1))),
        rest.len() >= 2,
        rest[0] == d0.entries@[j].0@,
        dir_get_path(sub1, rest.drop_first()) == Some(entry),
        forall|q2: Seq<Seq<char>>|
            !is_prefix_of(q2, rest.drop_first()) && !is_prefix_of(rest.drop_first(), q2)
                ==> #[trigger] dir_get_path(sub1, q2) == dir_get_path(sub0, q2),
        forall|q2: Seq<Seq<char>>|
            is_prefix_of(q2, rest.drop_first()) && 0 < q2.len() < rest.drop_first().len() ==> (
            #[trigger] dir_get_path(sub1, q2) matches Some(Entry::Dir(_))),
        forall|q2: Seq<Seq<char>>|
            is_prefix_of(rest.drop_first(), q2) && q2.len() > rest.drop_first().len()
                ==> #[trigger] dir_get_path(sub1, q2) == entry_get(
                entry,
                q2.skip(rest.drop_first().len() as int),
            ),
    ensures
        dir_wf(d1),
        dir_get_path(d1, rest) == Some(entry),
        forall|q: Seq<Seq<char>>|
            !is_prefix_of(q, rest) && !is_prefix_of(rest, q) ==> #[trigger] dir_get_path(d1, q)
                == dir_get_path(d0, q),
        forall|q: Seq<Seq<char>>|
            is_prefix_of(q, rest) && 0 < q.len() < rest.len() ==> (#[trigger] dir_get_path(
                d1,
                q,
            ) matches Some(Entry::Dir(_))),
        forall|q: Seq<Seq<char>>|
            is_prefix_of(rest, q) && q.len() > rest.len() ==> #[trigger] dir_get_path(d1, q)
                == entry_get(entry, q.skip(rest.len() as int)),
{
    let nm = rest[0];
    let rest1 = rest.drop_first();
    assert(dir_wf(d1)) by {
        assert(forall|a: int|
            0 <= a < d1.entries@.len() ==> (#[trigger] d1.entries@[a]).0@ == d0.entries@[a].0@);
        assert(forall|a: int|
            0 <= a < d1.entries@.len() && a != j ==> #[trigger] d1.entries@[a]
                == d0.entries@[a]);
        assert(d1.entries@[j].1 == Entry::Dir(sub1));
    }
    assert(assoc_get(d1.entries@, nm) == Some(Entry::Dir(sub1))) by {
        lemma_assoc_update(d0.entries@, j, (d0.entries@[j].0, Entry::Dir(sub1)), nm);
    }
    assert(assoc_get(d0.entries@, nm) == Some(Entry::Dir(sub0))) by {
        lemma_assoc_index(d0.entries@, j);
    }
    assert(dir_get_path(d1, rest) == Some(entry)) by {
        lemma_dir_get_unfold(d1, rest);
    }
    assert forall|q: Seq<Seq<char>>|
        !is_prefix_of(q, rest) && !is_prefix_of(rest, q) implies #[trigger] dir_get_path(d1, q)
        == dir_get_path(d0, q) by {
        if q.len() == 0 {
        } else if q[0] != nm {
            lemma_put_level_misc(d0, d1, j, Entry::Dir(sub1), rest, q);
        } else {
            let q1 = q.drop_first();
            lemma_prefix_shift(q, rest, q1, rest1);
            lemma_prefix_shift(rest, q, rest1, q1);
            lemma_dir_get_unfold(d1, q);
            lemma_dir_get_unfold(d0, q);
            if q.len() == 1 {
                assert(is_prefix_of(q, rest)) by {
                    assert(rest.take(1) =~= q);
                }
                assert(false);
            } else {
                assert(dir_get_path(d1, q) == dir_get_path(sub1, q1));
                assert(dir_get_path(d0, q) == dir_get_path(sub0, q1));
            }
        }
    }
    assert forall|q: Seq<Seq<char>>|
        is_prefix_of(q, rest) && 0 < q.len() < rest.len() implies (#[trigger] dir_get_path(
        d1,
        q,
    ) matches Some(Entry::Dir(_))) by {
        assert(rest.take(q.len() as int)[0] == rest[0]);
        assert(q[0] == nm);
        lemma_dir_get_unfold(d1, q);
        if q.len() == 1 {
        } else {
            let q1 = q.drop_first();
            lemma_prefix_shift(q, rest, q1, rest1);
            assert(dir_get_path(d1, q) == dir_get_path(sub1, q1));
        }
    }
    assert forall|q: Seq<Seq<char>>|
        is_prefix_of(rest, q) && q.len() > rest.len() implies #[trigger] dir_get_path(d1, q)
        == entry_get(entry, q.skip(rest.len() as int)) by {
        assert(q.take(rest.len() as int)[0] == rest[0]);
        assert(q[0] == nm);
        let q1 = q.drop_first();
        lemma_prefix_shift(rest, q, rest1, q1);
        lemma_dir_get_unfold(d1, q);
        assert(dir_get_path(d1, q) == dir_get_path(sub1, q1));
        assert(q1.skip(rest1.len() as int) =~= q.skip(rest.len() as int));
    }
}

/// After appending a fresh name bound to a `make_chain` result, the new
/// path resolves to the nested entry and all other paths are as before.
proof fn lemma_put_push_post(
    d0: Dir,
    d1: Dir,
    name: String,
    chain: Entry,
    entry: Entry,
    rest: Seq<Seq<char>>,
    rest1: Seq<Seq<char>>,
)
    requires
        dir_wf(d0),
        entry_wf(entry),
        entry_wf(chain),
        forall|a: int| 0 <= a < d0.entries@.len() ==> (#[trigger] d0.entries@[a]).0@ != name@,
        d1.entries@ == d0.entries@.push((name, chain)),
        rest.len() >= 1,
        rest[0] == name@,
        rest1 == rest.drop_first(),
        rest1.len() == 0 ==> chain == entry,
        rest1.len() > 0 ==> chain is Dir,
        forall|q2: Seq<Seq<char>>|
            is_prefix_of(rest1, q2) ==> #[trigger] entry_get(chain, q2) == entry_get(
                entry,
                q2.skip(rest1.len() as int),
            ),
        forall|q2: Seq<Seq<char>>|
            is_prefix_of(q2, rest1) && q2.len() < rest1.len() ==> (#[trigger] entry_get(
                chain,
                q2,
            ) matches Some(Entry::Dir(dd)) && dir_wf(dd)),
        forall|q2: Seq<Seq<char>>|
            !is_prefix_of(rest1, q2) && !is_prefix_of(q2, rest1) ==> #[trigger] entry_get(
                chain,
                q2,
            ) is None,
    ensures
        dir_wf(d1),
        put_ok(d0, rest),
        dir_get_path(d1, rest) == Some(entry),
        forall|q: Seq<Seq<char>>|
            !is_prefix_of(q, rest) && !is_prefix_of(rest, q) ==> #[trigger] dir_get_path(d1, q)
                == dir_get_path(d0, q),
        forall|q: Seq<Seq<char>>|
            is_prefix_of(q, rest) && 0 < q.len() < rest.len() ==> (#[trigger] dir_get_path(
                d1,
                q,
            ) matches Some(Entry::Dir(_))),
        forall|q: Seq<Seq<char>>|
            is_prefix_of(rest, q) && q.len() > rest.len() ==> #[trigger] dir_get_path(d1, q)
                == entry_get(entry, q.skip(rest.len() as int)),
{
    let nm = name@;
    assert(dir_wf(d1)) by {
        assert(forall|a: int|
            0 <= a < d0.entries@.len() ==> #[trigger] d1.entries@[a] == d0.entries@[a]);
        assert(d1.entries@[d0.entries@.len() as int] == (name, chain));
    }
    assert(assoc_get(d0.entries@, nm) is None) by {
        lemma_assoc_absent(d0.entries@, nm);
    }
    assert(put_ok(d0, rest)) by {
        assert forall|k: int|
            1 <= k < rest.len() implies !(#[trigger] dir_get_path(d0, rest.take(k)) matches Some(
            Entry::File(_))) by {
            assert(rest.take(k)[0] == nm);
            lemma_dir_get_unfold(d0, rest.take(k));
        }
    }
    assert(assoc_get(d1.entries@, nm) == Some(chain)) by {
        lemma_assoc_push(d0.entries@, (name, chain), nm);
    }
    assert(dir_get_path(d1, rest) == Some(entry)) by {
        lemma_dir_get_unfold(d1, rest);
        if rest.len() == 1 {
        } else {
            assert(dir_get_path(d1, rest) == entry_get(chain, rest1));
            assert(is_prefix_of(rest1, rest1));
            assert(entry_get(chain, rest1) == entry_get(entry, rest1.skip(rest1.len() as int)));
            assert(rest1.skip(rest1.len() as int) =~= Seq::<Seq<char>>::empty());
        }
    }
    assert forall|q: Seq<Seq<char>>|
        !is_prefix_of(q, rest) && !is_prefix_of(rest, q) implies #[trigger] dir_get_path(d1, q)
        == dir_get_path(d0, q) by {
        if q.len() == 0 {
        } else {
            lemma_dir_get_unfold(d1, q);
            lemma_dir_get_unfold(d0, q);
            lemma_assoc_push(d0.entries@, (name, chain), q[0]);
            if q[0] == nm {
                let q1 = q.drop_first();
                lemma_prefix_shift(q, rest, q1, rest1);
                lemma_prefix_shift(rest, q, rest1, q1);
                if q.len() == 1 {
                    assert(is_prefix_of(q, rest)) by {
                        assert(rest.take(1) =~= q);
                    }
                    assert(false);
                } else {
                    assert(dir_get_path(d1, q) == entry_get(chain, q1));
                    assert(entry_get(chain, q1) is None);
                    assert(dir_get_path(d0, q) is None);
                }
            }
        }
    }
    assert forall|q: Seq<Seq<char>>|
        is_prefix_of(q, rest) && 0 < q.len() < rest.len() implies (#[trigger] dir_get_path(
        d1,
        q,
    ) matches Some(Entry::Dir(_))) by {
        assert(rest.take(q.len() as int)[0] == rest[0]);
        assert(q[0] == nm);
        lemma_dir_get_unfold(d1, q);
        if q.len() == 1 {
            assert(dir_get_path(d1, q) == Some(chain));
            assert(rest1.len() > 0);
        } else {
            let q1 = q.drop_first();
            lemma_prefix_shift(q, rest, q1, rest1);
            assert(dir_get_path(d1, q) == entry_get(chain, q1));
            assert(q1.len() < rest1.len());
        }
    }
    assert forall|q: Seq<Seq<char>>|
        is_prefix_of(rest, q) && q.len() > rest.len() implies #[trigger] dir_get_path(d1, q)
        == entry_get(entry, q.skip(rest.len() as int)) by {
        assert(q.take(rest.len() as int)[0] == rest[0]);
        assert(q[0] == nm);
        let q1 = q.drop_first();
        lemma_prefix_shift(rest, q, rest1, q1);
        lemma_dir_get_unfold(d1, q);
        assert(dir_get_path(d1, q) == entry_get(chain, q1));
        assert(entry_get(chain, q1) == entry_get(entry, q1.skip(rest1.len() as int)));
        assert(q1.skip(rest1.len() as int) =~= q.skip(rest.len() as int));
    }
}

/// A path that resolves to nothing has no resolving extensions.
pub proof fn lemma_get_none_extends(d: Dir, p: Seq<Seq<char>>, q: Seq<Seq<char>>)
    requires
        p.len() >= 1,
        dir_get_path(d, p) is None,
        is_prefix_of(p, q),
    ensures
        dir_get_path(d, q) is None,
    decreases p.len(),
{
    if q.len() == 0 {
    } else {
        assert(q.take(p.len() as int)[0] == q[0]);
        assert(p[0] == q[0]);
        lemma_dir_get_unfold(d, p);
        lemma_dir_get_unfold(d, q);
        match assoc_get(d.entries@, p[0]) {
            None => {},
            Some(e) => {
                if p.len() == 1 {
                    assert(false);
                } else {
                    match e {
                        Entry::File(_) => {
                            if q.len() == 1 {
                                assert(p.take(q.len() as int) =~= q);
                                assert(false);
                            }
                        },
                        Entry::Dir(sub) => {
                            assert(q.len() >= p.len());
                            lemma_prefix_shift(p, q, p.drop_first(), q.drop_first());
                            lemma_get_none_extends(sub, p.drop_first(), q.drop_first());
                        },
                    }
                }
            },
        }
    }
}

impl Dir {
    /// Removes the entry at `path`. Returns whether anything was removed:
    /// `false`, with the tree untouched, when the path resolves to nothing.
    /// Directories along the way stay in place.
    pub fn delete(&mut self, path: &Path) -> (r: bool)
        requires
            dir_wf(*old(self)),
        ensures
            dir_wf(*final(self)),
            r == (path@.len() >= 1 && dir_get_path(*old(self), path@) is Some),
            path@.len() == 0 ==> *final(self) == *old(self),
            path@.len() >= 1 ==> {
                &&& (forall|q: Seq<Seq<char>>|
                    !is_prefix_of(q, path@) && !is_prefix_of(path@, q)
                        ==> #[trigger] dir_get_path(*final(self), q) == dir_get_path(
                        *old(self),
                        q,
                    ))
                &&& (forall|q: Seq<Seq<char>>|
                    is_prefix_of(path@, q) ==> #[trigger] dir_get_path(*final(self), q) is None)
                &&& (forall|q: Seq<Seq<char>>|
                    is_prefix_of(q, path@) && 0 < q.len() < path@.len()
                        ==> ((#[trigger] dir_get_path(*final(self), q) matches Some(
                        Entry::Dir(_),
                    )) == (dir_get_path(*old(self), q) matches Some(Entry::Dir(_))) && (!(
                    dir_get_path(*old(self), q) matches Some(Entry::Dir(_))) ==> dir_get_path(
                        *final(self),
                        q,
                    ) == dir_get_path(*old(self), q))))
            },
    {
        if path.is_empty() {
            return false;
        }
        let comps = path.components();
        proof {
            assert(comps.deep_view().skip(0) =~= path@);
        }
        let present = match self.get(path) {
            Some(_) => true,
            None => false,
        };
        if !present {
            proof {
                assert forall|q: Seq<Seq<char>>|
                    is_prefix_of(path@, q) implies #[trigger] dir_get_path(
                    *self,
                    q,
                ) is None by {
                    lemma_get_none_extends(*self, path@, q);
                }
            }
            return false;
        }
        self.delete_at(comps, 0);
        true
    }

    fn delete_at(&mut self, comps: &Vec<String>, i: usize)
        requires
            dir_wf(*old(self)),
            i < comps@.len(),
            dir_get_path(*old(self), comps.deep_view().skip(i as int)) is Some,
        ensures
            dir_wf(*final(self)),
            forall|q: Seq<Seq<char>>|
                !is_prefix_of(q, comps.deep_view().skip(i as int)) && !is_prefix_of(
                    comps.deep_view().skip(i as int),
                    q,
                ) ==> #[trigger] dir_get_path(*final(self), q) == dir_get_path(*old(self), q),
            forall|q: Seq<Seq<char>>|
                is_prefix_of(comps.deep_view().skip(i as int), q) ==> #[trigger] dir_get_path(
                    *final(self),
                    q,
                ) is None,
            forall|q: Seq<Seq<char>>|
                is_prefix_of(q, comps.deep_view().skip(i as int)) && 0 < q.len()
                    < comps.deep_view().skip(i as int).len() ==> ((#[trigger] dir_get_path(
                    *final(self),
                    q,
                ) matches Some(Entry::Dir(_))) == (dir_get_path(*old(self), q) matches Some(
                    Entry::Dir(_),
                )) && (!(dir_get_path(*old(self), q) matches Some(Entry::Dir(_)))
                    ==> dir_get_path(*final(self), q) == dir_get_path(*old(self), q))),
        decreases comps@.len() - i,
    {
        let ghost rest = comps.deep_view().skip(i as int);
        let ghost d0 = *self;
        proof {
            assert(rest[0] == comps@[i as int]@);
            assert(rest.len() == comps@.len() - i);
            lemma_dir_get_unfold(d0, rest);
        }
        let last = comps.len() - i == 1;
        match find_index(&self.entries, comps[i].as_str()) {
            Some(j) => {
                if last {
                    self.entries.remove(j);
                    proof {
                        assert(self.entries@ =~= d0.entries@.remove(j as int));
                        lemma_delete_remove_post(d0, *self, j as int, rest);
                    }
                } else {
                    let pair = self.entries.remove(j);
                    match pair.1 {
                        Entry::File(f) => {
                            proof {
                                assert(false);
                            }
                            self.entries.insert(j, (pair.0, Entry::File(f)));
                        },
                        Entry::Dir(mut sub) => {
                            let ghost sub0 = sub;
                            proof {
                                let rest1 = comps.deep_view().skip(i + 1);
                                assert(rest1 =~= rest.drop_first());
                            }
                            sub.delete_at(comps, i + 1);
                            self.entries.insert(j, (pair.0, Entry::Dir(sub)));
                            proof {
                                let rest1 = comps.deep_view().skip(i + 1);
                                assert(rest1 =~= rest.drop_first());
                                assert(self.entries@ =~= d0.entries@.update(
                                    j as int,
                                    (pair.0, Entry::Dir(sub)),
                                ));
                                lemma_delete_child_post(d0, *self, j as int, sub0, sub, rest);
                            }
                        },
                    }
                }
            },
            None => {
                proof {
                    assert(false);
                }
            },
        }
    }

    /// Inserts a file leaf at `path`; see `put`.
    pub fn put_file(&mut self, path: &Path, file: File) -> (r: Result<(), Error>)
        requires
            dir_wf(*old(self)),
        ensures
            dir_wf(*final(self)),
            match r {
                Ok(_) => {
                    &&& path@.len() >= 1
                    &&& put_ok(*old(self), path@)
                    &&& dir_get_path(*final(self), path@) == Some(Entry::File(file))
                    &&& file_at(*final(self), path@) == Some(file)
                    &&& (forall|q: Seq<Seq<char>>|
                        !is_prefix_of(q, path@) && !is_prefix_of(path@, q)
                            ==> #[trigger] dir_get_path(*final(self), q) == dir_get_path(
                            *old(self),
                            q,
                        ))
                    &&& (forall|q: Seq<Seq<char>>|
                        is_prefix_of(q, path@) && 0 < q.len() < path@.len()
                            ==> (#[trigger] dir_get_path(*final(self), q) matches Some(
                            Entry::Dir(_),
                        )))
                    &&& (forall|q: Seq<Seq<char>>|
                        is_prefix_of(path@, q) && q.len() > path@.len()
                            ==> #[trigger] dir_get_path(*final(self), q) is None)
                },
                Err(e) => {
                    &&& e == Error::PathConflict
                    &&& !(path@.len() >= 1 && put_ok(*old(self), path@))
                    &&& *final(self) == *old(self)
                },
            },
    {
        let ghost f = file;
        let r = self.put(path, Entry::File(file));
        proof {
            if r is Ok {
                assert forall|q: Seq<Seq<char>>|
                    is_prefix_of(path@, q) && q.len() > path@.len() implies #[trigger] dir_get_path(
                    *self,
                    q,
                ) is None by {
                    assert(dir_get_path(*self, q) == entry_get(
                        Entry::File(f),
                        q.skip(path@.len() as int),
                    ));
                }
            }
        }
        r
    }

    /// Inserts a directory at `path`; see `put`.
    pub fn put_dir(&mut self, path: &Path, dir: Dir) -> (r: Result<(), Error>)
        requires
            dir_wf(*old(self)),
            dir_wf(dir),
        ensures
            dir_wf(*final(self)),
            match r {
                Ok(_) => {
                    &&& path@.len() >= 1
                    &&& put_ok(*old(self), path@)
                    &&& dir_get_path(*final(self), path@) == Some(Entry::Dir(dir))
                    &&& (forall|q: Seq<Seq<char>>|
                        !is_prefix_of(q, path@) && !is_prefix_of(path@, q)
                            ==> #[trigger] dir_get_path(*final(self), q) == dir_get_path(
                            *old(self),
                            q,
                        ))
                    &&& (forall|q: Seq<Seq<char>>|
                        is_prefix_of(q, path@) && 0 < q.len() < path@.len()
                            ==> (#[trigger] dir_get_path(*final(self), q) matches Some(
                            Entry::Dir(_),
                        )))
                    &&& (forall|q: Seq<Seq<char>>|
                        is_prefix_of(path@, q) && q.len() > path@.len()
                            ==> #[trigger] dir_get_path(*final(self), q) == dir_get_path(
                            dir,
                            q.skip(path@.len() as int),
                        ))
                },
                Err(e) => {
                    &&& e == Error::PathConflict
                    &&& !(path@.len() >= 1 && put_ok(*old(self), path@))
                    &&& *final(self) == *old(self)
                },
            },
    {
        self.put(path, Entry::Dir(dir))
    }
}

/// After removing the pair at index `j`, the removed name resolves to
/// nothing and every other path is as before.
proof fn lemma_delete_remove_post(d0: Dir, d1: Dir, j: int, rest: Seq<Seq<char>>)
    requires
        dir_wf(d0),
        0 <= j < d0.entries@.len(),
        d1.entries@ == d0.entries@.remove(j),
        rest.len() == 1,
        rest[0] == d0.entries@[j].0@,
    ensures
        dir_wf(d1),
        forall|q: Seq<Seq<char>>|
            !is_prefix_of(q, rest) && !is_prefix_of(rest, q) ==> #[trigger] dir_get_path(d1, q)
                == dir_get_path(d0, q),
        forall|q: Seq<Seq<char>>|
            is_prefix_of(rest, q) ==> #[trigger] dir_get_path(d1, q) is None,
{
    let nm = rest[0];
    assert(dir_wf(d1)) by {
        assert(forall|a: int|
            0 <= a < d1.entries@.len() ==> #[trigger] d1.entries@[a] == (if a < j {
                d0.entries@[a]
            } else {
                d0.entries@[a + 1]
            }));
    }
    assert forall|q: Seq<Seq<char>>|
        !is_prefix_of(q, rest) && !is_prefix_of(rest, q) implies #[trigger] dir_get_path(d1, q)
        == dir_get_path(d0, q) by {
        if q.len() == 0 {
        } else {
            assert(q[0] != nm) by {
                if q[0] == nm {
                    if q.len() == 1 {
                        assert(rest.take(1) =~= q);
                        assert(is_prefix_of(q, rest));
                    } else {
                        assert(q.take(1) =~= rest);
                        assert(is_prefix_of(rest, q));
                    }
                }
            }
            lemma_dir_get_unfold(d1, q);
            lemma_dir_get_unfold(d0, q);
            lemma_assoc_remove(d0.entries@, j, q[0]);
        }
    }
    assert forall|q: Seq<Seq<char>>|
        is_prefix_of(rest, q) implies #[trigger] dir_get_path(d1, q) is None by {
        assert(q.take(1)[0] == q[0]);
        assert(q[0] == nm);
        lemma_dir_get_unfold(d1, q);
        lemma_assoc_remove(d0.entries@, j, q[0]);
    }
}

/// After replacing the subdirectory at index `j` by one from which the
/// tail path was deleted, the whole directory reflects the deletion.
proof fn lemma_delete_child_post(
    d0: Dir,
    d1: Dir,
    j: int,
    sub0: Dir,
    sub1: Dir,
    rest: Seq<Seq<char>>,
)
    requires
        dir_wf(d0),
        dir_wf(sub1),
        0 <= j < d0.entries@.len(),
        d0.entries@[j].1 == Entry::Dir(sub0),
        d1.entries@ == d0.entries@.update(j, (d0.entries@[j].0, Entry::Dir(sub1))),
        rest.len() >= 2,
        rest[0] == d0.entries@[j].0@,
        forall|q2: Seq<Seq<char>>|
            !is_prefix_of(q2, rest.drop_first()) && !is_prefix_of(rest.drop_first(), q2)
                ==> #[trigger] dir_get_path(sub1, q2) == dir_get_path(sub0, q2),
        forall|q2: Seq<Seq<char>>|
            is_prefix_of(rest.drop_first(), q2) ==> #[trigger] dir_get_path(sub1, q2) is None,
        forall|q2: Seq<Seq<char>>|
            is_prefix_of(q2, rest.drop_first()) && 0 < q2.len() < rest.drop_first().len() ==> ((
            #[trigger] dir_get_path(sub1, q2) matches Some(Entry::Dir(_))) == (dir_get_path(
                sub0,
                q2,
            ) matches Some(Entry::Dir(_))) && (!(dir_get_path(sub0, q2) matches Some(
                Entry::Dir(_),
            )) ==> dir_get_path(sub1, q2) == dir_get_path(sub0, q2))),
    ensures
        dir_wf(d1),
        forall|q: Seq<Seq<char>>|
            !is_prefix_of(q, rest) && !is_prefix_of(rest, q) ==> #[trigger] dir_get_path(d1, q)
                == dir_get_path(d0, q),
        forall|q: Seq<Seq<char>>|
            is_prefix_of(rest, q) ==> #[trigger] dir_get_path(d1, q) is None,
        forall|q: Seq<Seq<char>>|
            is_prefix_of(q, rest) && 0 < q.len() < rest.len() ==> ((#[trigger] dir_get_path(
                d1,
                q,
            ) matches Some(Entry::Dir(_))) == (dir_get_path(d0, q) matches Some(Entry::Dir(_)))
                && (!(dir_get_path(d0, q) matches Some(Entry::Dir(_))) ==> dir_get_path(d1, q)
                == dir_get_path(d0, q))),
{
    let nm = rest[0];
    let rest1 = rest.drop_first();
    assert(dir_wf(d1)) by {
        assert(forall|a: int|
            0 <= a < d1.entries@.len() ==> (#[trigger] d1.entries@[a]).0@ == d0.entries@[a].0@);
        assert(forall|a: int|
            0 <= a < d1.entries@.len() && a != j ==> #[trigger] d1.entries@[a]
                == d0.entries@[a]);
        assert(d1.entries@[j].1 == Entry::Dir(sub1));
    }
    assert(assoc_get(d1.entries@, nm) == Some(Entry::Dir(sub1))) by {
        lemma_assoc_update(d0.entries@, j, (d0.entries@[j].0, Entry::Dir(sub1)), nm);
    }
    assert(assoc_get(d0.entries@, nm) == Some(Entry::Dir(sub0))) by {
        lemma_assoc_index(d0.entries@, j);
    }
    assert forall|q: Seq<Seq<char>>|
        !is_prefix_of(q, rest) && !is_prefix_of(rest, q) implies #[trigger] dir_get_path(d1, q)
        == dir_get_path(d0, q) by {
        if q.len() == 0 {
        } else if q[0] != nm {
            lemma_put_level_misc(d0, d1, j, Entry::Dir(sub1), rest, q);
        } else {
            let q1 = q.drop_first();
            lemma_prefix_shift(q, rest, q1, rest1);
            lemma_prefix_shift(rest, q, rest1, q1);
            lemma_dir_get_unfold(d1, q);
            lemma_dir_get_unfold(d0, q);
            if q.len() == 1 {
                assert(is_prefix_of(q, rest)) by {
                    assert(rest.take(1) =~= q);
                }
                assert(false);
            } else {
                assert(dir_get_path(d1, q) == dir_get_path(sub1, q1));
                assert(dir_get_path(d0, q) == dir_get_path(sub0, q1));
            }
        }
    }
    assert forall|q: Seq<Seq<char>>|
        is_prefix_of(rest, q) implies #[trigger] dir_get_path(d1, q) is None by {
        assert(q.take(rest.len() as int)[0] == rest[0]);
        assert(q[0] == nm);
        let q1 = q.drop_first();
        lemma_prefix_shift(rest, q, rest1, q1);
        lemma_dir_get_unfold(d1, q);
        assert(dir_get_path(d1, q) == dir_get_path(sub1, q1));
    }
    assert forall|q: Seq<Seq<char>>|
        is_prefix_of(q, rest) && 0 < q.len() < rest.len() implies ((#[trigger] dir_get_path(
        d1,
        q,
    ) matches Some(Entry::Dir(_))) == (dir_get_path(d0, q) matches Some(Entry::Dir(_))) && (!(
    dir_get_path(d0, q) matches Some(Entry::Dir(_))) ==> dir_get_path(d1, q) == dir_get_path(
        d0,
        q,
    ))) by {
        assert(rest.take(q.len() as int)[0] == rest[0]);
        assert(q[0] == nm);
        lemma_dir_get_unfold(d1, q);
        lemma_dir_get_unfold(d0, q);
        if q.len() == 1 {
        } else {
            let q1 = q.drop_first();
            lemma_prefix_shift(q, rest, q1, rest1);
            assert(dir_get_path(d1, q) == dir_get_path(sub1, q1));
            assert(dir_get_path(d0, q) == dir_get_path(sub0, q1));
            assert(0 < q1.len() < rest1.len());
        }
    }
}

impl Path {
    /// Whether this path and `other` name the same segments.
    pub fn path_eq(&self, other: &Path) -> (r: bool)
        ensures
            r == (self@ == other@),
    {
        if self.0.len() != other.0.len() {
            proof {
                if self@ == other@ {
                    assert(self@.len() == other@.len());
                }
            }
            return false;
        }
        let mut i: usize = 0;
        while i < self.0.len()
            invariant
                self.0@.len() == other.0@.len(),
                0 <= i <= self.0@.len(),
                forall|j: int| 0 <= j < i ==> self@[j] == other@[j],
            decreases self.0@.len() - i,
        {
            if !crate::text::str_eq(self.0[i].as_str(), other.0[i].as_str()) {
                proof {
                    assert(self@[i as int] != other@[i as int]);
                }
                return false;
            }
            i = i + 1;
        }
        proof {
            assert(self@ =~= other@);
        }
        true
    }

    /// Whether `prefix` is a leading run of this path's segments.
    pub fn starts_with(&self, prefix: &Path) -> (r: bool)
        ensures
            r == is_prefix_of(prefix@, self@),
    {
        if prefix.0.len() > self.0.len() {
            return false;
        }
        let mut i: usize = 0;
        while i < prefix.0.len()
            invariant
                prefix.0@.len() <= self.0@.len(),
                0 <= i <= prefix.0@.len(),
                forall|j: int| 0 <= j < i ==> self@[j] == prefix@[j],
            decreases prefix.0@.len() - i,
        {
            if !crate::text::str_eq(self.0[i].as_str(), prefix.0[i].as_str()) {
                proof {
                    assert(self@[i as int] != prefix@[i as int]);
                    if is_prefix_of(prefix@, self@) {
                        assert(self@.take(prefix@.len() as int)[i as int] == self@[i as int]);
                    }
                }
                return false;
            }
            i = i + 1;
        }
        proof {
            assert(self@.take(prefix@.len() as int) =~= prefix@);
        }
        true
    }

    /// This path extended by one segment.
    pub fn child(&self, name: &String) -> (r: Path)
        ensures
            r@ =~= self@.push(name@),
    {
        let mut out = self.clone_path();
        out.push(name.clone());
        out
    }

    /// A copy of this path.
    pub fn clone_path(&self) -> (r: Path)
        ensures
            r@ == self@,
    {
        let c = self.0.clone();
        proof {
            assert(c.deep_view() =~= self.0.deep_view());
        }
        Path(c)
    }

    /// The last segment and the rest, when the path is non-empty.
    pub fn split_last(&self) -> (r: Option<(Path, &String)>)
        ensures
            match r {
                Some(p) => self@.len() >= 1 && p.0@ == self@.drop_last() && p.1@ == self@.last(),
                None => self@.len() == 0,
            },
    {
        if self.0.len() == 0 {
            return None;
        }
        let mut head: Vec<String> = Vec::new();
        let mut i: usize = 0;
        proof {
            assert(head.deep_view() =~= self@.take(0));
        }
        while i < self.0.len() - 1
            invariant
                self.0@.len() >= 1,
                0 <= i <= self.0@.len() - 1,
                head.deep_view() == self@.take(i as int),
            decreases self.0@.len() - 1 - i,
        {
            let ghost pre = head.deep_view();
            let c = self.0[i].clone();
            head.push(c);
            proof {
                assert(head.deep_view().len() == pre.len() + 1);
                assert(forall|j: int| 0 <= j < pre.len() ==> head.deep_view()[j] == pre[j]);
                assert(head.deep_view()[pre.len() as int] == c.deep_view());
                assert(c.deep_view() == self@[i as int]);
                assert forall|j: int| 0 <= j < pre.len() + 1 implies head.deep_view()[j]
                    == self@.take(i + 1)[j] by {
                    if j < pre.len() {
                        assert(pre[j] == self@.take(i as int)[j]);
                    }
                }
                assert(head.deep_view() =~= self@.take(i + 1));
            }
            i = i + 1;
        }
        proof {
            assert(head.deep_view() =~= self@.drop_last());
        }
        Some((Path(head), &self.0[self.0.len() - 1]))
    }
}

/// The file leaf of `d` addressed by `p` after stripping `base`, when `p`
/// lies strictly below `base`.
pub open spec fn file_under(d: Dir, base: Seq<Seq<char>>, p: Seq<Seq<char>>) -> Option<File> {
    if is_prefix_of(base, p) && p.len() > base.len() {
        file_at(d, p.skip(base.len() as int))
    } else {
        None
    }
}

/// Whether `p`, after stripping `base`, addresses a directory of `d`.
pub open spec fn dir_under(d: Dir, base: Seq<Seq<char>>, p: Seq<Seq<char>>) -> bool {
    is_prefix_of(base, p) && p.len() > base.len() && (dir_get_path(d, p.skip(base.len() as int))
        matches Some(Entry::Dir(_)))
}

/// The bytes of a file leaf when they are held inline.
pub open spec fn inline_bytes(f: File) -> Option<Seq<u8>> {
    match f {
        File::Inline(b, _) => Some(b@),
        File::Path(_, _) => None,
        File::Url(_, _) => None,
    }
}

/// The executable bit a leaf's permission carries.
pub open spec fn file_exec_bit(f: File) -> bool {
    f.perm().0 & 0o111 != 0
}

/// What mounting guarantees for one materialised path: the file exists,
/// and inline bytes arrive verbatim with their executable bit.
pub open spec fn mounted_file_ok(
    f: File,
    fs: crate::memfs::OnMemoryFsHandler,
    p: Seq<Seq<char>>,
) -> bool {
    &&& fs.file_at(p) is Some
    &&& (inline_bytes(f) matches Some(b) ==> fs.file_at(p) == Some((b, file_exec_bit(f))))
}

/// Whether one file leaf can be materialised: inline leaves always can,
/// local path leaves when their source resolves on the filesystem, URL
/// leaves when the fetcher holds their URL.
pub open spec fn leaf_resolvable(
    f: File,
    fs: crate::memfs::OnMemoryFsHandler,
    fetcher: crate::fetcher::DummyUrlFetcher,
) -> bool {
    match f {
        File::Inline(_, _) => true,
        File::Path(src, _) => fs.file_at(
            nonempty_parts(crate::text::split_on(src@, '/')),
        ) is Some,
        File::Url(u, _) => fetcher.data_at(u@) is Some,
    }
}

/// Whether every file leaf of the tree can be materialised against the
/// given filesystem and fetcher; mounting owes success on such a tree.
pub open spec fn tree_resolvable(
    d: Dir,
    fs: crate::memfs::OnMemoryFsHandler,
    fetcher: crate::fetcher::DummyUrlFetcher,
) -> bool {
    forall|p: Seq<Seq<char>>|
        (#[trigger] file_at(d, p)) matches Some(f) ==> leaf_resolvable(f, fs, fetcher)
}

/// A path that starts with the name of a subdirectory entry addresses the
/// same file leaf as its remainder does below that subdirectory.
proof fn lemma_file_at_child(d: Dir, sub: Dir, name: Seq<char>, q: Seq<Seq<char>>)
    requires
        assoc_get(d.entries@, name) == Some(Entry::Dir(sub)),
        q.len() >= 1,
    ensures
        file_at(d, seq![name] + q) == file_at(sub, q),
{
    let p = seq![name] + q;
    assert(p.len() >= 2);
    assert(p[0] == name);
    assert(p.drop_first() =~= q);
    lemma_dir_get_unfold(d, p);
    assert(dir_get_path(d, p) == entry_get(Entry::Dir(sub), q));
    assert(entry_get(Entry::Dir(sub), q) == dir_get_path(sub, q));
}

/// Whether the first segment of `p` below `base` is one of the first `j`
/// entry names of `d` and `p` addresses a file of `d`.
spec fn handled_file(d: Dir, base: Seq<Seq<char>>, j: int, p: Seq<Seq<char>>) -> bool {
    &&& is_prefix_of(base, p)
    &&& p.len() > base.len()
    &&& (exists|jj: int| 0 <= jj < j && (#[trigger] d.entries@[jj]).0@ == p[base.len() as int])
    &&& file_under(d, base, p) is Some
}

spec fn handled_dir(d: Dir, base: Seq<Seq<char>>, j: int, p: Seq<Seq<char>>) -> bool {
    &&& is_prefix_of(base, p)
    &&& p.len() > base.len()
    &&& (exists|jj: int| 0 <= jj < j && (#[trigger] d.entries@[jj]).0@ == p[base.len() as int])
    &&& dir_under(d, base, p)
}

/// Paths strictly below `base` that continue with the name of a
/// subdirectory entry address the same things in the whole tree and in
/// that subdirectory below the extended base.
proof fn lemma_under_child(d: Dir, sub: Dir, base: Seq<Seq<char>>, name: Seq<char>, p: Seq<
    Seq<char>,
>)
    requires
        assoc_get(d.entries@, name) == Some(Entry::Dir(sub)),
        is_prefix_of(base.push(name), p),
        p.len() > base.len() + 1,
    ensures
        file_under(d, base, p) == file_under(sub, base.push(name), p),
        dir_under(d, base, p) == dir_under(sub, base.push(name), p),
{
    let child = base.push(name);
    assert(is_prefix_of(base, p)) by {
        assert(child.take(base.len() as int) =~= base);
        assert forall|m: int| 0 <= m < base.len() implies p.take(base.len() as int)[m]
            == base[m] by {
            assert(p.take(child.len() as int)[m] == p[m]);
            assert(child[m] == base[m]);
        }
        assert(p.take(base.len() as int) =~= base);
    }
    let q = p.skip(base.len() as int);
    let q1 = p.skip(base.len() as int + 1);
    assert(q.len() >= 2);
    assert(q[0] == p[base.len() as int]);
    assert(p.take(child.len() as int)[base.len() as int] == p[base.len() as int]);
    assert(q[0] == name);
    assert(q.drop_first() =~= q1);
    lemma_dir_get_unfold(d, q);
    assert(dir_get_path(d, q) == entry_get(Entry::Dir(sub), q1));
    assert(entry_get(Entry::Dir(sub), q1) == dir_get_path(sub, q1));
}

/// A path with a file below `base` continues with the name of some entry.
proof fn lemma_under_has_entry(d: Dir, base: Seq<Seq<char>>, p: Seq<Seq<char>>)
    requires
        file_under(d, base, p) is Some || dir_under(d, base, p),
    ensures
        exists|jj: int|
            0 <= jj < d.entries@.len() && (#[trigger] d.entries@[jj]).0@ == p[base.len() as int],
{
    let q = p.skip(base.len() as int);
    assert(q.len() >= 1);
    lemma_dir_get_unfold(d, q);
    assert(assoc_get(d.entries@, q[0]) is Some);
    lemma_assoc_some_key(d.entries@, q[0]);
    assert(q[0] == p[base.len() as int]);
}

impl Dir {
    /// Materialises this tree below `base` on the in-memory filesystem:
    /// directories are created, inline leaves are written verbatim, local
    /// path leaves are read through the filesystem itself and URL leaves
    /// through the fetcher. The first failed resolution aborts the
    /// remaining writes and surfaces; already-written files stay.
    pub fn mount_to(
        &self,
        fs: &mut crate::memfs::OnMemoryFsHandler,
        base: &Path,
        fetcher: &crate::fetcher::DummyUrlFetcher,
    ) -> (r: Result<(), String>)
        requires
            dir_wf(*self),
            old(fs).wf(),
            fetcher.wf(),
        ensures
            final(fs).wf(),
            (tree_resolvable(*self, *old(fs), *fetcher) ==> r is Ok),
            forall|p: Seq<Seq<char>>|
                old(fs).file_at(p) is Some ==> #[trigger] final(fs).file_at(p) is Some,
            forall|p: Seq<Seq<char>>|
                old(fs).dir_at(p) ==> #[trigger] final(fs).dir_at(p),
            r is Ok ==> {
                &&& (forall|p: Seq<Seq<char>>|
                    file_under(*self, base@, p) is None ==> #[trigger] final(fs).file_at(p)
                        == old(fs).file_at(p))
                &&& (forall|p: Seq<Seq<char>>|
                    file_under(*self, base@, p) is Some ==> #[trigger] mounted_file_ok(
                        file_under(*self, base@, p)->Some_0,
                        *final(fs),
                        p,
                    ))
                &&& (forall|p: Seq<Seq<char>>|
                    dir_under(*self, base@, p) ==> #[trigger] final(fs).dir_at(p))
                &&& (forall|p: Seq<Seq<char>>|
                    old(fs).dir_at(p) ==> #[trigger] final(fs).dir_at(p))
            },
        decreases *self,
    {
        let ghost d = *self;
        let ghost fs0 = *fs;
        let ghost has_r = tree_resolvable(*self, *old(fs), *fetcher);
        let mut j: usize = 0;
        while j < self.entries.len()
            invariant
                dir_wf(d),
                d == *self,
                fetcher.wf(),
                fs.wf(),
                fs0 == *old(fs),
                has_r == tree_resolvable(d, fs0, *fetcher),
                forall|p: Seq<Seq<char>>|
                    fs0.file_at(p) is Some ==> #[trigger] fs.file_at(p) is Some,
                0 <= j <= d.entries@.len(),
                forall|p: Seq<Seq<char>>|
                    !handled_file(d, base@, j as int, p) ==> #[trigger] fs.file_at(p)
                        == fs0.file_at(p),
                forall|p: Seq<Seq<char>>|
                    handled_file(d, base@, j as int, p) ==> #[trigger] mounted_file_ok(
                        file_under(d, base@, p)->Some_0,
                        *fs,
                        p,
                    ),
                forall|p: Seq<Seq<char>>|
                    fs0.dir_at(p) ==> #[trigger] fs.dir_at(p),
                forall|p: Seq<Seq<char>>|
                    handled_dir(d, base@, j as int, p) ==> #[trigger] fs.dir_at(p),
            decreases d.entries@.len() - j,
        {
            let ghost fs_pre = *fs;
            let name_ref = &self.entries[j].0;
            let child = base.child(name_ref);
            let ghost namev = name_ref@;
            proof {
                assert(child@ == base@.push(namev));
                lemma_assoc_index(d.entries@, j as int);
            }
            match &self.entries[j].1 {
                Entry::File(f) => {
                    let ghost fv = *f;
                    proof {
                        if has_r {
                            assert(file_at(d, seq![namev]) == Some(fv)) by {
                                lemma_dir_get_unfold(d, seq![namev]);
                                assert(seq![namev][0] == namev);
                            }
                            assert(leaf_resolvable(fv, fs0, *fetcher));
                        }
                    }
                    let data: Vec<u8> = match f {
                        File::Inline(bytes, _) => crate::memfs::copy_bytes(bytes.as_slice()),
                        File::Path(src, _) => {
                            let sp = Path::from_str(src.as_str());
                            match fs.read(&sp) {
                                Ok(b) => b,
                                Err(e) => {
                                    proof {
                                        if has_r {
                                            assert(fs0.file_at(sp@) is Some);
                                            assert(false);
                                        }
                                    }
                                    return Err(e);
                                },
                            }
                        },
                        File::Url(u, _) => {
                            match fetcher.fetch_binary(u.as_str()) {
                                Ok(b) => b,
                                Err(e) => {
                                    proof {
                                        if has_r {
                                            assert(false);
                                        }
                                    }
                                    return Err(e);
                                },
                            }
                        },
                    };
                    let exec = match f {
                        File::Inline(_, perm) => perm.is_executable(),
                        File::Path(_, perm) => perm.is_executable(),
                        File::Url(_, perm) => perm.is_executable(),
                    };
                    let wr = fs.write(&child, data.as_slice(), exec);
                    proof {
                        assert(inline_bytes(fv) matches Some(b) ==> b == data@ && exec
                            == file_exec_bit(fv));
                        lemma_mount_file_step(d, base@, j as int, fs_pre, *fs, child@, fv, fs0);
                    }
                },
                Entry::Dir(sub) => {
                    let mk = fs.mkdir(&child);
                    let ghost fs_mid = *fs;
                    proof {
                        if has_r {
                            assert forall|q: Seq<Seq<char>>| #[trigger] file_at(*sub, q)
                                is Some implies leaf_resolvable(
                                file_at(*sub, q)->Some_0,
                                fs_mid,
                                *fetcher,
                            ) by {
                                lemma_file_at_child(d, *sub, namev, q);
                                assert(file_at(d, seq![namev] + q) is Some);
                                assert(leaf_resolvable(
                                    file_at(d, seq![namev] + q)->Some_0,
                                    fs0,
                                    *fetcher,
                                ));
                            }
                            assert(tree_resolvable(*sub, fs_mid, *fetcher));
                        }
                    }
                    let rr = sub.mount_to(fs, &child, fetcher);
                    match rr {
                        Ok(_) => {
                            proof {
                                lemma_mount_dir_step(
                                    d,
                                    *sub,
                                    base@,
                                    j as int,
                                    fs_pre,
                                    fs_mid,
                                    *fs,
                                    child@,
                                    fs0,
                                );
                            }
                        },
                        Err(e) => {
                            proof {
                                if has_r {
                                    assert(false);
                                }
                                assert forall|p: Seq<Seq<char>>|
                                    old(fs).file_at(p) is Some implies #[trigger] fs.file_at(
                                    p,
                                ) is Some by {
                                    assert(fs_pre.file_at(p) is Some);
                                    assert(fs_mid.file_at(p) == fs_pre.file_at(p));
                                }
                                assert forall|p: Seq<Seq<char>>|
                                    old(fs).dir_at(p) implies #[trigger] fs.dir_at(p) by {
                                    assert(fs_pre.dir_at(p));
                                    assert(fs_mid.dir_at(p));
                                }
                            }
                            return Err(e);
                        },
                    }
                },
            }
            j = j + 1;
        }
        proof {
            assert forall|p: Seq<Seq<char>>|
                file_under(d, base@, p) is None implies #[trigger] fs.file_at(p) == fs0.file_at(
                p,
            ) by {
                assert(!handled_file(d, base@, d.entries@.len() as int, p));
            }
            assert forall|p: Seq<Seq<char>>|
                file_under(d, base@, p) is Some implies #[trigger] mounted_file_ok(
                file_under(d, base@, p)->Some_0,
                *fs,
                p,
            ) by {
                lemma_under_has_entry(d, base@, p);
                assert(handled_file(d, base@, d.entries@.len() as int, p));
            }
            assert forall|p: Seq<Seq<char>>|
                dir_under(d, base@, p) implies #[trigger] fs.dir_at(p) by {
                lemma_under_has_entry(d, base@, p);
                assert(handled_dir(d, base@, d.entries@.len() as int, p));
            }
        }
        Ok(())
    }
}

/// After writing the file leaf at entry `j`, exactly the new path is
/// handled in addition, and it is materialised correctly.
proof fn lemma_mount_file_step(
    d: Dir,
    base: Seq<Seq<char>>,
    j: int,
    fs_pre: crate::memfs::OnMemoryFsHandler,
    fs_post: crate::memfs::OnMemoryFsHandler,
    child: Seq<Seq<char>>,
    f: File,
    fs0: crate::memfs::OnMemoryFsHandler,
)
    requires
        dir_wf(d),
        0 <= j < d.entries@.len(),
        child == base.push(d.entries@[j].0@),
        d.entries@[j].1 == Entry::File(f),
        assoc_get(d.entries@, d.entries@[j].0@) == Some(Entry::File(f)),
        // what the write did:
        fs_post.file_at(child) is Some,
        inline_bytes(f) matches Some(b) ==> fs_post.file_at(child) == Some(
            (b, file_exec_bit(f)),
        ),
        forall|q: Seq<Seq<char>>|
            q != child ==> #[trigger] fs_post.file_at(q) == fs_pre.file_at(q),
        forall|q: Seq<Seq<char>>| fs_pre.dir_at(q) ==> #[trigger] fs_post.dir_at(q),
        // the invariant before this entry:
        forall|p: Seq<Seq<char>>|
            !handled_file(d, base, j, p) ==> #[trigger] fs_pre.file_at(p) == fs0.file_at(p),
        forall|p: Seq<Seq<char>>|
            handled_file(d, base, j, p) ==> #[trigger] mounted_file_ok(
                file_under(d, base, p)->Some_0,
                fs_pre,
                p,
            ),
        forall|p: Seq<Seq<char>>| fs0.dir_at(p) ==> #[trigger] fs_pre.dir_at(p),
        forall|p: Seq<Seq<char>>|
            handled_dir(d, base, j, p) ==> #[trigger] fs_pre.dir_at(p),
    ensures
        forall|p: Seq<Seq<char>>|
            !handled_file(d, base, j + 1, p) ==> #[trigger] fs_post.file_at(p) == fs0.file_at(
                p,
            ),
        forall|p: Seq<Seq<char>>|
            handled_file(d, base, j + 1, p) ==> #[trigger] mounted_file_ok(
                file_under(d, base, p)->Some_0,
                fs_post,
                p,
            ),
        forall|p: Seq<Seq<char>>| fs0.dir_at(p) ==> #[trigger] fs_post.dir_at(p),
        forall|p: Seq<Seq<char>>|
            handled_dir(d, base, j + 1, p) ==> #[trigger] fs_post.dir_at(p),
{
    let name = d.entries@[j].0@;
    assert(file_under(d, base, child) == Some(f)) by {
        assert(is_prefix_of(base, child)) by {
            assert(child.take(base.len() as int) =~= base);
        }
        let q = child.skip(base.len() as int);
        assert(q =~= seq![name]);
        lemma_dir_get_unfold(d, q);
    }
    assert forall|p: Seq<Seq<char>>|
        !handled_file(d, base, j + 1, p) implies #[trigger] fs_post.file_at(p) == fs0.file_at(
        p,
    ) by {
        assert(!handled_file(d, base, j, p));
        assert(p != child);
    }
    assert forall|p: Seq<Seq<char>>|
        handled_file(d, base, j + 1, p) implies #[trigger] mounted_file_ok(
        file_under(d, base, p)->Some_0,
        fs_post,
        p,
    ) by {
        if handled_file(d, base, j, p) {
            assert(p != child || file_under(d, base, p) == Some(f));
            if p != child {
                assert(mounted_file_ok(file_under(d, base, p)->Some_0, fs_pre, p));
            }
        } else {
            // newly handled: its first segment is entry j's name
            assert(p[base.len() as int] == name);
            if p.len() == base.len() + 1 {
                assert(p =~= child);
            } else {
                // deeper paths under a file leaf hold no files
                let q = p.skip(base.len() as int);
                assert(q.len() >= 2);
                assert(q[0] == name);
                lemma_dir_get_unfold(d, q);
                assert(file_under(d, base, p) is None);
                assert(false);
            }
        }
    }
    assert forall|p: Seq<Seq<char>>|
        handled_dir(d, base, j + 1, p) implies #[trigger] fs_post.dir_at(p) by {
        if handled_dir(d, base, j, p) {
        } else {
            assert(p[base.len() as int] == name);
            let q = p.skip(base.len() as int);
            assert(q.len() >= 1);
            assert(q[0] == name);
            lemma_dir_get_unfold(d, q);
            if q.len() == 1 {
                assert(dir_get_path(d, q) == Some(Entry::File(f)));
                assert(!dir_under(d, base, p));
            } else {
                assert(dir_get_path(d, q) is None);
                assert(!dir_under(d, base, p));
            }
        }
    }
}

/// After creating and mounting the subdirectory at entry `j`, exactly the
/// paths through its name are handled in addition.
proof fn lemma_mount_dir_step(
    d: Dir,
    sub: Dir,
    base: Seq<Seq<char>>,
    j: int,
    fs_pre: crate::memfs::OnMemoryFsHandler,
    fs_mid: crate::memfs::OnMemoryFsHandler,
    fs_post: crate::memfs::OnMemoryFsHandler,
    child: Seq<Seq<char>>,
    fs0: crate::memfs::OnMemoryFsHandler,
)
    requires
        dir_wf(d),
        0 <= j < d.entries@.len(),
        child == base.push(d.entries@[j].0@),
        d.entries@[j].1 == Entry::Dir(sub),
        assoc_get(d.entries@, d.entries@[j].0@) == Some(Entry::Dir(sub)),
        // what mkdir did:
        forall|q: Seq<Seq<char>>| #[trigger] fs_mid.file_at(q) == fs_pre.file_at(q),
        forall|q: Seq<Seq<char>>|
            #[trigger] fs_mid.dir_at(q) == (fs_pre.dir_at(q) || (is_prefix_of(q, child)
                && q.len() >= 1)),
        // what the recursive mount did:
        forall|p: Seq<Seq<char>>|
            file_under(sub, child, p) is None ==> #[trigger] fs_post.file_at(p)
                == fs_mid.file_at(p),
        forall|p: Seq<Seq<char>>|
            file_under(sub, child, p) is Some ==> #[trigger] mounted_file_ok(
                file_under(sub, child, p)->Some_0,
                fs_post,
                p,
            ),
        forall|p: Seq<Seq<char>>| dir_under(sub, child, p) ==> #[trigger] fs_post.dir_at(p),
        forall|p: Seq<Seq<char>>| fs_mid.dir_at(p) ==> #[trigger] fs_post.dir_at(p),
        // the invariant before this entry:
        forall|p: Seq<Seq<char>>|
            !handled_file(d, base, j, p) ==> #[trigger] fs_pre.file_at(p) == fs0.file_at(p),
        forall|p: Seq<Seq<char>>|
            handled_file(d, base, j, p) ==> #[trigger] mounted_file_ok(
                file_under(d, base, p)->Some_0,
                fs_pre,
                p,
            ),
        forall|p: Seq<Seq<char>>| fs0.dir_at(p) ==> #[trigger] fs_pre.dir_at(p),
        forall|p: Seq<Seq<char>>|
            handled_dir(d, base, j, p) ==> #[trigger] fs_pre.dir_at(p),
    ensures
        forall|p: Seq<Seq<char>>|
            !handled_file(d, base, j + 1, p) ==> #[trigger] fs_post.file_at(p) == fs0.file_at(
                p,
            ),
        forall|p: Seq<Seq<char>>|
            handled_file(d, base, j + 1, p) ==> #[trigger] mounted_file_ok(
                file_under(d, base, p)->Some_0,
                fs_post,
                p,
            ),
        forall|p: Seq<Seq<char>>| fs0.dir_at(p) ==> #[trigger] fs_post.dir_at(p),
        forall|p: Seq<Seq<char>>|
            handled_dir(d, base, j + 1, p) ==> #[trigger] fs_post.dir_at(p),
{
    let name = d.entries@[j].0@;
    assert(file_under(d, base, child) is None) by {
        let q = child.skip(base.len() as int);
        assert(q =~= seq![name]);
        lemma_dir_get_unfold(d, q);
        assert(is_prefix_of(base, child)) by {
            assert(child.take(base.len() as int) =~= base);
        }
    }
    assert forall|p: Seq<Seq<char>>|
        !handled_file(d, base, j + 1, p) implies #[trigger] fs_post.file_at(p) == fs0.file_at(
        p,
    ) by {
        assert(!handled_file(d, base, j, p));
        assert(fs_pre.file_at(p) == fs0.file_at(p));
        assert(fs_mid.file_at(p) == fs_pre.file_at(p));
        assert(file_under(sub, child, p) is None) by {
            if is_prefix_of(child, p) && p.len() > child.len() {
                lemma_under_child(d, sub, base, name, p);
                assert(p[base.len() as int] == name) by {
                    assert(p.take(child.len() as int)[base.len() as int] == p[base.len() as int]);
                }
                if file_under(d, base, p) is Some {
                    assert(handled_file(d, base, j + 1, p));
                }
            }
        }
    }
    assert forall|p: Seq<Seq<char>>|
        handled_file(d, base, j + 1, p) implies #[trigger] mounted_file_ok(
        file_under(d, base, p)->Some_0,
        fs_post,
        p,
    ) by {
        if handled_file(d, base, j, p) {
            assert(mounted_file_ok(file_under(d, base, p)->Some_0, fs_pre, p));
            assert(file_under(sub, child, p) is None) by {
                if is_prefix_of(child, p) && p.len() > child.len() {
                    assert(p[base.len() as int] == name) by {
                        assert(p.take(child.len() as int)[base.len() as int] == p[base.len() as int]);
                    }
                    let jj = choose|jj: int|
                        0 <= jj < j && (#[trigger] d.entries@[jj]).0@ == p[base.len() as int];
                    assert(d.entries@[jj].0@ == d.entries@[j].0@);
                    assert(false);
                }
            }
            assert(fs_post.file_at(p) == fs_mid.file_at(p));
            assert(fs_mid.file_at(p) == fs_pre.file_at(p));
        } else {
            assert(p[base.len() as int] == name);
            assert(p.len() > base.len());
            if p.len() == base.len() + 1 {
                assert(p =~= child);
                assert(file_under(d, base, p) is None);
                assert(false);
            } else {
                assert(is_prefix_of(child, p)) by {
                    assert(is_prefix_of(base, p));
                    assert forall|m: int| 0 <= m < child.len() implies p.take(
                        child.len() as int,
                    )[m] == child[m] by {
                        if m < base.len() {
                            assert(p.take(base.len() as int)[m] == p[m]);
                        }
                    }
                    assert(p.take(child.len() as int) =~= child);
                }
                lemma_under_child(d, sub, base, name, p);
                assert(file_under(sub, child, p) == file_under(d, base, p));
            }
        }
    }
    assert forall|p: Seq<Seq<char>>|
        fs0.dir_at(p) implies #[trigger] fs_post.dir_at(p) by {
        assert(fs_pre.dir_at(p));
        assert(fs_mid.dir_at(p));
    }
    assert forall|p: Seq<Seq<char>>|
        handled_dir(d, base, j + 1, p) implies #[trigger] fs_post.dir_at(p) by {
        if handled_dir(d, base, j, p) {
            assert(fs_pre.dir_at(p));
            assert(fs_mid.dir_at(p));
        } else {
            assert(p[base.len() as int] == name);
            if p.len() == base.len() + 1 {
                assert(p =~= child);
                assert(fs_mid.dir_at(p)) by {
                    assert(is_prefix_of(p, child) && p.len() >= 1) by {
                        assert(child.take(child.len() as int) =~= child);
                    }
                }
            } else {
                assert(is_prefix_of(child, p)) by {
                    assert(is_prefix_of(base, p));
                    assert forall|m: int| 0 <= m < child.len() implies p.take(
                        child.len() as int,
                    )[m] == child[m] by {
                        if m < base.len() {
                            assert(p.take(base.len() as int)[m] == p[m]);
                        }
                    }
                    assert(p.take(child.len() as int) =~= child);
                }
                lemma_under_child(d, sub, base, name, p);
                assert(dir_under(sub, child, p));
            }
        }
    }
}

/// On the way to a file, every intermediate step is a directory.
pub proof fn lemma_path_to_file_has_dirs(d: Dir, q: Seq<Seq<char>>, k: int)
    requires
        dir_get_path(d, q) is Some,
        1 <= k < q.len(),
    ensures
        dir_get_path(d, q.take(k)) matches Some(Entry::Dir(_)),
    decreases k,
{
    lemma_dir_get_unfold(d, q);
    let e = assoc_get(d.entries@, q[0])->Some_0;
    assert(q.take(k)[0] == q[0]);
    lemma_dir_get_unfold(d, q.take(k));
    if k == 1 {
        assert(e is Dir) by {
            if e is File {
                assert(entry_get(e, q.drop_first()) is None);
            }
        }
    } else {
        match e {
            Entry::Dir(sub) => {
                assert(dir_get_path(sub, q.drop_first()) is Some);
                lemma_path_to_file_has_dirs(sub, q.drop_first(), k - 1);
                assert(q.take(k).drop_first() =~= q.drop_first().take(k - 1));
            },
            Entry::File(_) => {
                assert(entry_get(e, q.drop_first()) is None);
            },
        }
    }
}


/// The empty path addresses nothing.
pub proof fn lemma_dir_get_empty(d: Dir, q: Seq<Seq<char>>)
    requires
        q.len() == 0,
    ensures
        dir_get_path(d, q) is None,
{
}

/// The uppercase form of an ASCII letter; other characters are untouched.
pub open spec fn ascii_upper(c: char) -> char {
    if 97 <= c as int <= 122 {
        ((c as u8) - 32) as char
    } else {
        c
    }
}

/// Whether a character may appear in a segment name: no path separators,
/// wildcards, quotes, redirections, NUL or ASCII control characters.
pub open spec fn valid_segment_char(c: char) -> bool {
    &&& c != '/' && c != '\\' && c != ':' && c != '*' && c != '?' && c != '"'
    &&& c != '<' && c != '>' && c != '|'
    &&& c as int >= 32
    &&& c as int != 127
}

/// Whether `s` is the reserved name, or the reserved name followed by an
/// extension, compared without regard to letter case.
pub open spec fn reserved_match(s: Seq<char>, name: Seq<char>) -> bool {
    &&& s.len() >= name.len()
    &&& (s.len() == name.len() || s[name.len() as int] == '.')
    &&& (forall|i: int| 0 <= i < name.len() ==> ascii_upper(#[trigger] s[i]) == name[i])
}

/// Whether `s` collides with a reserved device name: the bare names, and
/// the numbered serial and printer ports.
pub open spec fn is_reserved_segment(s: Seq<char>) -> bool {
    ||| reserved_match(s, "CON"@)
    ||| reserved_match(s, "PRN"@)
    ||| reserved_match(s, "AUX"@)
    ||| reserved_match(s, "NUL"@)
    ||| (s.len() >= 4 && crate::text::is_digit(s[3]) && s[3] != '0' && (s.len() == 4 || s[4]
        == '.') && (reserved_match(s.take(3), "COM"@) || reserved_match(s.take(3), "LPT"@)))
}

/// A usable segment name: non-empty, made of allowed characters, not a
/// reserved device name, not a dot navigation entry, and not ending in a
/// dot or a space.
pub open spec fn valid_segment(s: Seq<char>) -> bool {
    &&& s.len() > 0
    &&& (forall|i: int| 0 <= i < s.len() ==> valid_segment_char(#[trigger] s[i]))
    &&& !is_reserved_segment(s)
    &&& s != seq!['.'] && s != seq!['.', '.']
    &&& s.last() != '.' && s.last() != ' '
}

fn ascii_upper_exec(c: char) -> (r: char)
    ensures
        r == ascii_upper(c),
{
    let v = c as u32;
    if 97 <= v && v <= 122 {
        ((v - 32) as u8) as char
    } else {
        c
    }
}

fn reserved_match_exec(seg: &str, name: &str) -> (r: bool)
    ensures
        r == reserved_match(seg@, name@),
{
    let sl = seg.unicode_len();
    let nl = name.unicode_len();
    if sl < nl {
        return false;
    }
    if sl != nl && seg.get_char(nl) != '.' {
        return false;
    }
    let mut i: usize = 0;
    while i < nl
        invariant
            seg@.len() == sl,
            name@.len() == nl,
            nl <= sl,
            0 <= i <= nl,
            forall|j: int| 0 <= j < i ==> ascii_upper(#[trigger] seg@[j]) == name@[j],
        decreases nl - i,
    {
        if ascii_upper_exec(seg.get_char(i)) != name.get_char(i) {
            return false;
        }
        i = i + 1;
    }
    true
}

/// Checks a segment name against the tree's naming rules.
pub fn validate_segment(seg: &str) -> (r: bool)
    ensures
        r == valid_segment(seg@),
{
    proof {
        reveal_strlit("CON");
        reveal_strlit("PRN");
        reveal_strlit("AUX");
        reveal_strlit("NUL");
        reveal_strlit("COM");
        reveal_strlit("LPT");
    }
    let len = seg.unicode_len();
    if len == 0 {
        return false;
    }
    let mut i: usize = 0;
    while i < len
        invariant
            seg@.len() == len,
            0 <= i <= len,
            forall|j: int| 0 <= j < i ==> valid_segment_char(#[trigger] seg@[j]),
        decreases len - i,
    {
        let c = seg.get_char(i);
        let v = c as u32;
        let ok = c != '/' && c != '\\' && c != ':' && c != '*' && c != '?' && c != '"' && c
            != '<' && c != '>' && c != '|' && v >= 32 && v != 127;
        if !ok {
            return false;
        }
        i = i + 1;
    }
    if reserved_match_exec(seg, "CON") || reserved_match_exec(seg, "PRN") || reserved_match_exec(
        seg,
        "AUX",
    ) || reserved_match_exec(seg, "NUL") {
        return false;
    }
    if len >= 4 {
        let d = seg.get_char(3);
        let dv = d as u32;
        if 49 <= dv && dv <= 57 && (len == 4 || seg.get_char(4) == '.') {
            let head = seg.substring_char(0, 3);
            proof {
                assert(head@ == seg@.take(3));
            }
            if reserved_match_exec(head, "COM") || reserved_match_exec(head, "LPT") {
                return false;
            }
        }
    }
    proof {
        assert(!is_reserved_segment(seg@));
    }
    let last = seg.get_char(len - 1);
    if last == '.' || last == ' ' {
        proof {
            assert(seg@.last() == last);
        }
        return false;
    }
    if len == 1 && seg.get_char(0) == '.' {
        proof {
            assert(seg@ =~= seq!['.']);
        }
        return false;
    }
    if len == 2 && seg.get_char(0) == '.' && seg.get_char(1) == '.' {
        proof {
            assert(seg@ =~= seq!['.', '.']);
        }
        return false;
    }
    proof {
        assert(seg@ != seq!['.']) by {
            if seg@ == seq!['.'] {
                assert(seg@.len() == 1 && seg@[0] == '.');
            }
        }
        assert(seg@ != seq!['.', '.']) by {
            if seg@ == seq!['.', '.'] {
                assert(seg@.len() == 2 && seg@[0] == '.' && seg@[1] == '.');
            }
        }
    }
    true
}

impl Path {
    /// Builds a path from segment names, rejecting any segment that
    /// breaks the naming rules.
    pub fn from_segments(segments: Vec<String>) -> (r: Result<Path, String>)
        ensures
            match r {
                Ok(p) => p@ == segments.deep_view() && (forall|i: int|
                    0 <= i < segments.deep_view().len() ==> valid_segment(
                        #[trigger] segments.deep_view()[i],
                    )),
                Err(_) => exists|i: int|
                    0 <= i < segments.deep_view().len() && !valid_segment(
                        #[trigger] segments.deep_view()[i],
                    ),
            },
    {
        let mut i: usize = 0;
        while i < segments.len()
            invariant
                0 <= i <= segments@.len(),
                forall|j: int|
                    0 <= j < i ==> valid_segment(#[trigger] segments.deep_view()[j]),
            decreases segments@.len() - i,
        {
            if !validate_segment(segments[i].as_str()) {
                proof {
                    assert(segments.deep_view()[i as int] == segments@[i as int]@);
                }
                return Err(String::from_str("Invalid path segment"));
            }
            proof {
                assert(segments.deep_view()[i as int] == segments@[i as int]@);
            }
            i = i + 1;
        }
        Ok(Path(segments))
    }
}

/// Whether a manifest row `(path, is_directory, url, executable)` is a
/// downloadable file row: not a directory, with a nonempty URL.
pub open spec fn row_is_file(row: (String, bool, String, bool)) -> bool {
    !row.1 && row.2@.len() > 0
}

/// The tree path a manifest row's path string addresses.
pub open spec fn row_path(row: (String, bool, String, bool)) -> Seq<Seq<char>> {
    nonempty_parts(crate::text::split_on(row.0@, '/'))
}

/// The permission a manifest row's executable flag asks for.
pub open spec fn row_perm(row: (String, bool, String, bool)) -> Permission {
    if row.3 {
        Permission(0o755)
    } else {
        Permission(0o644)
    }
}

/// Whether the tree holds the URL leaf a file row describes, at the
/// row's path, with the row's URL and permission.
pub open spec fn row_mounted(d: Dir, row: (String, bool, String, bool)) -> bool {
    file_at(d, row_path(row)) matches Some(File::Url(u, pp)) && u@ == row.2@ && pp == row_perm(row)
}

/// Whether no row with index in `(k, j)` has a path at or above row `k`'s
/// path; such a later row would replace the entry row `k` put.
pub open spec fn row_undisturbed_before(
    rows: Seq<(String, bool, String, bool)>,
    k: int,
    j: int,
) -> bool {
    forall|k2: int|
        k < k2 < j ==> !is_prefix_of(row_path(#[trigger] rows[k2]), row_path(rows[k]))
}

/// Whether no later row has a path at or above row `k`'s path.
pub open spec fn row_undisturbed(rows: Seq<(String, bool, String, bool)>, k: int) -> bool {
    row_undisturbed_before(rows, k, rows.len() as int)
}

/// Whether some file row among the first `j` addresses `q`: the file
/// leaves of the tree built from those rows lie at such paths only.
pub open spec fn tree_file_from_row(
    rows: Seq<(String, bool, String, bool)>,
    j: int,
    q: Seq<Seq<char>>,
) -> bool {
    exists|k: int| 0 <= k < j && row_is_file(#[trigger] rows[k]) && row_path(rows[k]) == q
}

/// Whether the rows can all be inserted: every file row has a nonempty
/// path that no other file row's shorter path is a prefix of.
pub open spec fn rows_mountable(rows: Seq<(String, bool, String, bool)>) -> bool {
    forall|k: int|
        0 <= k < rows.len() && row_is_file(#[trigger] rows[k]) ==> row_path(rows[k]).len() >= 1
            && (forall|k2: int|
            0 <= k2 < rows.len() && row_is_file(#[trigger] rows[k2]) ==> !(is_prefix_of(
                row_path(rows[k2]),
                row_path(rows[k]),
            ) && row_path(rows[k2]).len() < row_path(rows[k]).len()))
}

/// The staging tree of a runtime manifest, from rows of `(path,
/// is_directory, url, executable)`: a directory row adds an empty
/// directory (and is skipped when it conflicts), a file row with a
/// nonempty URL adds a URL leaf, and a file row whose path runs through
/// an existing file is a conflict error naming the path. Insertion
/// replaces whatever an earlier row put at or below the same path, so
/// the leaf of a file row survives exactly when no later row writes at
/// or above its path.
pub fn runtime_files_tree(files: &Vec<(String, bool, String, bool)>) -> (r: Result<Dir, String>)
    ensures
        (rows_mountable(files@) ==> r is Ok),
        r matches Ok(d) ==> dir_wf(d),
        r matches Ok(d) ==> (forall|k: int|
            0 <= k < files@.len() && row_is_file(#[trigger] files@[k]) && row_undisturbed(
                files@,
                k,
            ) ==> row_mounted(d, files@[k])),
{
    let ghost rows = files@;
    let ghost good = rows_mountable(rows);
    let mut tree = Dir::new();
    let mut j: usize = 0;
    while j < files.len()
        invariant
            rows == files@,
            good == rows_mountable(rows),
            dir_wf(tree),
            0 <= j <= rows.len(),
            forall|q: Seq<Seq<char>>|
                #[trigger] file_at(tree, q) is Some ==> tree_file_from_row(rows, j as int, q),
            forall|k: int|
                0 <= k < j && row_is_file(#[trigger] rows[k]) && row_undisturbed_before(
                    rows,
                    k,
                    j as int,
                ) ==> row_mounted(tree, rows[k]),
        decreases rows.len() - j,
    {
        let ghost treep = tree;
        let ghost jj = j as int;
        let row = &files[j];
        let ghost rj = rows[jj];
        let ghost mut placed = false;
        let ghost mut pput = Seq::<Seq<char>>::empty();
        if row.1 {
            let tree_path = Path::from_str(row.0.as_str());
            let sub = Dir::new();
            let ghost subg = sub;
            let pr = tree.put_dir(&tree_path, sub);
            proof {
                let p = tree_path@;
                if pr is Ok {
                    placed = true;
                    pput = p;
                    assert forall|q: Seq<Seq<char>>| #[trigger] file_at(tree, q)
                        is Some implies tree_file_from_row(rows, jj + 1, q) by {
                        if q.len() == 0 {
                            assert(file_at(tree, q) is None);
                        } else if !is_prefix_of(q, p) && !is_prefix_of(p, q) {
                            assert(dir_get_path(tree, q) == dir_get_path(treep, q));
                            assert(file_at(treep, q) is Some);
                            assert(tree_file_from_row(rows, jj, q));
                            let k = choose|k: int|
                                0 <= k < jj && row_is_file(#[trigger] rows[k]) && row_path(
                                    rows[k],
                                ) == q;
                            assert(0 <= k < jj + 1 && row_is_file(rows[k]) && row_path(rows[k])
                                == q);
                        } else if is_prefix_of(q, p) && q.len() < p.len() {
                            assert(dir_get_path(tree, q) matches Some(Entry::Dir(_)));
                        } else if is_prefix_of(q, p) {
                            assert(q =~= p);
                            assert(dir_get_path(tree, q) == Some(Entry::Dir(subg)));
                        } else {
                            assert(is_prefix_of(p, q) && q.len() > p.len());
                            assert(dir_get_path(tree, q) == dir_get_path(
                                subg,
                                q.skip(p.len() as int),
                            ));
                        }
                    }
                } else {
                    assert(tree == treep);
                }
            }
        } else {
            let has_url = !crate::text::str_eq(row.2.as_str(), "");
            proof {
                reveal_strlit("");
                if has_url && rj.2@.len() == 0 {
                    assert(rj.2@ =~= ""@);
                }
            }
            if has_url {
                let tree_path = Path::from_str(row.0.as_str());
                let perm = if row.3 {
                    Permission::executable()
                } else {
                    Permission::read_write()
                };
                let url = String::from_str(row.2.as_str());
                let leaf = File::Url(url, perm);
                let ghost leafg = leaf;
                let pr = tree.put_file(&tree_path, leaf);
                if pr.is_err() {
                    proof {
                        let p = tree_path@;
                        if good {
                            assert(row_is_file(rows[jj]));
                            assert(p == row_path(rj));
                            assert(p.len() >= 1);
                            assert(!put_ok(treep, p));
                            let kk = choose|kk: int|
                                1 <= kk < p.len() && ((#[trigger] dir_get_path(
                                    treep,
                                    p.take(kk),
                                )) matches Some(Entry::File(_)));
                            assert(file_at(treep, p.take(kk)) is Some);
                            assert(tree_file_from_row(rows, jj, p.take(kk)));
                            let k2 = choose|k2: int|
                                0 <= k2 < jj && row_is_file(#[trigger] rows[k2]) && row_path(
                                    rows[k2],
                                ) == p.take(kk);
                            assert(is_prefix_of(row_path(rows[k2]), row_path(rj))) by {
                                assert(p.take(kk).len() <= p.len());
                                assert(p.take(kk) =~= p.take(p.take(kk).len() as int));
                            }
                            assert(row_path(rows[k2]).len() < row_path(rj).len());
                            assert(false);
                        }
                    }
                    let mut msg = String::from_str("Conflicting runtime entry: ");
                    crate::text::append_str(&mut msg, row.0.as_str());
                    return Err(msg);
                }
                proof {
                    let p = tree_path@;
                    placed = true;
                    pput = p;
                    assert(file_at(tree, p) == Some(leafg));
                    assert forall|q: Seq<Seq<char>>| #[trigger] file_at(tree, q)
                        is Some implies tree_file_from_row(rows, jj + 1, q) by {
                        if q.len() == 0 {
                            assert(file_at(tree, q) is None);
                        } else if !is_prefix_of(q, p) && !is_prefix_of(p, q) {
                            assert(dir_get_path(tree, q) == dir_get_path(treep, q));
                            assert(file_at(treep, q) is Some);
                            assert(tree_file_from_row(rows, jj, q));
                            let k = choose|k: int|
                                0 <= k < jj && row_is_file(#[trigger] rows[k]) && row_path(
                                    rows[k],
                                ) == q;
                            assert(0 <= k < jj + 1 && row_is_file(rows[k]) && row_path(rows[k])
                                == q);
                        } else if is_prefix_of(q, p) && q.len() < p.len() {
                            assert(dir_get_path(tree, q) matches Some(Entry::Dir(_)));
                        } else if is_prefix_of(q, p) {
                            assert(q =~= p);
                            assert(row_is_file(rj));
                            assert(row_path(rj) == p);
                            assert(0 <= jj < jj + 1 && row_is_file(rows[jj]) && row_path(
                                rows[jj],
                            ) == q);
                        } else {
                            assert(is_prefix_of(p, q) && q.len() > p.len());
                            assert(dir_get_path(tree, q) is None);
                        }
                    }
                }
            }
        }
        proof {
            assert(rj == rows[jj]);
            if placed {
                assert(pput == row_path(rj));
                assert forall|k: int|
                    0 <= k < jj + 1 && row_is_file(#[trigger] rows[k]) && row_undisturbed_before(
                        rows,
                        k,
                        jj + 1,
                    ) implies row_mounted(tree, rows[k]) by {
                    let pk = row_path(rows[k]);
                    if k == jj {
                        assert(!rj.1);
                        assert(row_mounted(tree, rows[k]));
                    } else {
                        assert(!is_prefix_of(pput, pk));
                        assert(row_undisturbed_before(rows, k, jj));
                        assert(row_mounted(treep, rows[k]));
                        if is_prefix_of(pk, pput) && pk.len() < pput.len() {
                            assert(pput.take(pk.len() as int) =~= pk);
                            assert(dir_get_path(treep, pput.take(pk.len() as int)) matches Some(
                                Entry::File(_),
                            ));
                            assert(put_ok(treep, pput));
                            assert(false);
                        } else if is_prefix_of(pk, pput) {
                            assert(pk =~= pput);
                            assert(pput.take(pput.len() as int) =~= pput);
                            assert(is_prefix_of(pput, pk));
                            assert(false);
                        } else {
                            assert(dir_get_path(tree, pk) == dir_get_path(treep, pk));
                        }
                    }
                }
            } else {
                assert(tree == treep);
                assert forall|q: Seq<Seq<char>>| #[trigger] file_at(tree, q)
                    is Some implies tree_file_from_row(rows, jj + 1, q) by {
                    assert(tree_file_from_row(rows, jj, q));
                    let k = choose|k: int|
                        0 <= k < jj && row_is_file(#[trigger] rows[k]) && row_path(rows[k]) == q;
                    assert(0 <= k < jj + 1 && row_is_file(rows[k]) && row_path(rows[k]) == q);
                }
                assert forall|k: int|
                    0 <= k < jj + 1 && row_is_file(#[trigger] rows[k]) && row_undisturbed_before(
                        rows,
                        k,
                        jj + 1,
                    ) implies row_mounted(tree, rows[k]) by {
                    if k < jj {
                        assert(row_undisturbed_before(rows, k, jj));
                    } else {
                        assert(!row_is_file(rows[jj]));
                    }
                }
            }
        }
        j = j + 1;
    }
    Ok(tree)
}

} // verus!
