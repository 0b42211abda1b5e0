//! An in-memory, flat file store: a mapping from non-empty string paths
//! to growable byte buffers, with idempotent creation, offset writes
//! that zero-fill gaps, and offset reads that truncate at end-of-file.
//!
//! Reading a path that has no entry is an error (`FileNotFound`); a
//! missing file is not treated as empty.
use vstd::prelude::*;

pub mod error;
pub mod file;

use crate::error::FileSystemError;
use crate::file::{lemma_disjoint_writes_commute, lemma_read_after_write, read_at, write_at, File};

verus! {

/// The contents a path denotes in a store model: the file's bytes if
/// the path has an entry, an empty buffer otherwise.
pub open spec fn file_or_empty(m: Map<Seq<char>, Seq<u8>>, path: Seq<char>) -> Seq<u8> {
    if m.contains_key(path) {
        m[path]
    } else {
        Seq::empty()
    }
}

/// The store model after a create: unchanged if the path already has an
/// entry, otherwise extended with an empty file at that path.
pub open spec fn touch_model(m: Map<Seq<char>, Seq<u8>>, path: Seq<char>) -> Map<
    Seq<char>,
    Seq<u8>,
> {
    if m.contains_key(path) {
        m
    } else {
        m.insert(path, Seq::empty())
    }
}

/// The store model after a write: the path's file (an empty one if the
/// path had no entry yet) with `data` written at `offset`.
pub open spec fn write_model(
    m: Map<Seq<char>, Seq<u8>>,
    path: Seq<char>,
    offset: nat,
    data: Seq<u8>,
) -> Map<Seq<char>, Seq<u8>> {
    m.insert(path, write_at(file_or_empty(m, path), offset, data))
}

/// Law: creating a file is idempotent — a second create on the same
/// path leaves the store exactly as the first one did.
pub proof fn lemma_touch_idempotent(m: Map<Seq<char>, Seq<u8>>, path: Seq<char>)
    ensures
        touch_model(touch_model(m, path), path) == touch_model(m, path),
{
}

/// Law: a write to one path never changes what any other path holds.
pub proof fn lemma_write_preserves_other_paths(
    m: Map<Seq<char>, Seq<u8>>,
    path: Seq<char>,
    offset: nat,
    data: Seq<u8>,
    other: Seq<char>,
)
    requires
        other != path,
    ensures
        write_model(m, path, offset, data).contains_key(other) == m.contains_key(other),
        file_or_empty(write_model(m, path, offset, data), other) == file_or_empty(m, other),
{
}

/// Law: writes to two distinct paths commute — applying them in either
/// order yields the same store, so neither write can be lost or
/// corrupted by the other.
pub proof fn lemma_writes_to_distinct_paths_commute(
    m: Map<Seq<char>, Seq<u8>>,
    p1: Seq<char>,
    o1: nat,
    d1: Seq<u8>,
    p2: Seq<char>,
    o2: nat,
    d2: Seq<u8>,
)
    requires
        p1 != p2,
    ensures
        write_model(write_model(m, p1, o1, d1), p2, o2, d2) == write_model(
            write_model(m, p2, o2, d2),
            p1,
            o1,
            d1,
        ),
{
    let lhs = write_model(write_model(m, p1, o1, d1), p2, o2, d2);
    let rhs = write_model(write_model(m, p2, o2, d2), p1, o1, d1);
    assert(lhs =~= rhs);
}

/// Law: a write succeeds with no prior create — the store gains an
/// entry for the path if it had none — and reading back exactly the
/// written range afterwards returns the data that was written.
pub proof fn lemma_write_then_read(
    m: Map<Seq<char>, Seq<u8>>,
    path: Seq<char>,
    offset: nat,
    data: Seq<u8>,
)
    ensures
        write_model(m, path, offset, data).contains_key(path),
        read_at(write_model(m, path, offset, data)[path], offset, data.len()) == data,
{
    lemma_read_after_write(file_or_empty(m, path), offset, data);
}

/// Law: two writes to the same path whose byte ranges are disjoint
/// commute at the store level as well — whichever order they are
/// applied in, the store ends up the same, so such writes give one
/// well-defined result regardless of interleaving.
pub proof fn lemma_disjoint_writes_same_path_commute(
    m: Map<Seq<char>, Seq<u8>>,
    path: Seq<char>,
    o1: nat,
    d1: Seq<u8>,
    o2: nat,
    d2: Seq<u8>,
)
    requires
        o1 + d1.len() <= o2 || o2 + d2.len() <= o1,
    ensures
        write_model(write_model(m, path, o1, d1), path, o2, d2) == write_model(
            write_model(m, path, o2, d2),
            path,
            o1,
            d1,
        ),
{
    lemma_disjoint_writes_commute(file_or_empty(m, path), o1, d1, o2, d2);
    assert(write_model(write_model(m, path, o1, d1), path, o2, d2) =~= write_model(
        write_model(m, path, o2, d2),
        path,
        o1,
        d1,
    ));
}

/// The abstract contents of a sequence of path/file entries: each entry
/// maps its path to its file's bytes, later entries taking precedence
/// (the store keeps paths unique, so precedence never matters).
spec fn entries_map(s: Seq<(String, File)>) -> Map<Seq<char>, Seq<u8>>
    decreases s.len(),
{
    if s.len() == 0 {
        Map::empty()
    } else {
        entries_map(s.drop_last()).insert(s.last().0@, s.last().1@)
    }
}

/// No two entries share a path.
spec fn unique_paths(s: Seq<(String, File)>) -> bool {
    forall|i: int, j: int| 0 <= i < j < s.len() ==> s[i].0@ != s[j].0@
}

proof fn lemma_entries_map_contains(s: Seq<(String, File)>, k: Seq<char>)
    ensures
        entries_map(s).contains_key(k) <==> exists|i: int| 0 <= i < s.len() && s[i].0@ == k,
    decreases s.len(),
{
    if s.len() > 0 {
        lemma_entries_map_contains(s.drop_last(), k);
        if s.last().0@ == k {
            assert(s[s.len() - 1].0@ == k);
        } else {
            if entries_map(s).contains_key(k) {
                let i = choose|i: int| 0 <= i < s.drop_last().len() && s.drop_last()[i].0@ == k;
                assert(s[i].0@ == k);
            }
            if exists|i: int| 0 <= i < s.len() && s[i].0@ == k {
                let i = choose|i: int| 0 <= i < s.len() && s[i].0@ == k;
                assert(s.drop_last()[i].0@ == k);
            }
        }
    }
}

proof fn lemma_entries_map_value(s: Seq<(String, File)>, i: int)
    requires
        unique_paths(s),
        0 <= i < s.len(),
    ensures
        entries_map(s).contains_key(s[i].0@),
        entries_map(s)[s[i].0@] == s[i].1@,
    decreases s.len(),
{
    if i < s.len() - 1 {
        assert(unique_paths(s.drop_last()));
        lemma_entries_map_value(s.drop_last(), i);
        assert(s.drop_last()[i] == s[i]);
        assert(s.last().0@ != s[i].0@);
    }
}

proof fn lemma_entries_map_update(s: Seq<(String, File)>, i: int, f: File)
    requires
        unique_paths(s),
        0 <= i < s.len(),
    ensures
        unique_paths(s.update(i, (s[i].0, f))),
        entries_map(s.update(i, (s[i].0, f))) == entries_map(s).insert(s[i].0@, f@),
{
    let s2 = s.update(i, (s[i].0, f));
    let k = s[i].0@;
    assert(forall|j: int| 0 <= j < s.len() ==> s2[j].0@ == s[j].0@);
    let m1 = entries_map(s);
    let m2 = entries_map(s2);
    assert forall|q: Seq<char>|
        m2.contains_key(q) <==> m1.insert(k, f@).contains_key(q) by {
        lemma_entries_map_contains(s2, q);
        lemma_entries_map_contains(s, q);
    }
    assert forall|q: Seq<char>| #[trigger] m2.contains_key(q) implies m2[q] == m1.insert(
        k,
        f@,
    )[q] by {
        lemma_entries_map_contains(s2, q);
        let j = choose|j: int| 0 <= j < s2.len() && s2[j].0@ == q;
        lemma_entries_map_value(s2, j);
        if q == k {
            assert(j == i);
        } else {
            lemma_entries_map_value(s, j);
        }
    }
    assert(m2 =~= m1.insert(k, f@));
}

/// An in-memory file system that stores files as byte buffers, keyed by
/// path. Abstractly it is a map from paths to file contents; paths are
/// opaque, case-sensitive, non-empty strings with no hierarchy.
#[derive(Debug)]
pub struct FileSystem {
    files: Vec<(String, File)>,
}

impl View for FileSystem {
    type V = Map<Seq<char>, Seq<u8>>;

    closed spec fn view(&self) -> Map<Seq<char>, Seq<u8>> {
        entries_map(self.files@)
    }
}

impl FileSystem {
    /// Well-formedness: no two entries share a path, so each path
    /// denotes exactly one file. Established by the constructor and
    /// preserved by every operation.
    pub closed spec fn wf(&self) -> bool {
        unique_paths(self.files@)
    }

    /// Creates a new empty file system.
    pub fn new() -> (fs: FileSystem)
        ensures
            fs.wf(),
            fs@ == Map::<Seq<char>, Seq<u8>>::empty(),
    {
        FileSystem { files: Vec::new() }
    }

    /// The index of the entry for `key`, if one exists.
    fn find_index(&self, key: &String) -> (r: Option<usize>)
        requires
            self.wf(),
        ensures
            match r {
                Some(i) => i < self.files@.len() && self.files@[i as int].0@ == key@,
                None => !self@.contains_key(key@),
            },
    {
        let mut i: usize = 0;
        while i < self.files.len()
            invariant
                i <= self.files@.len(),
                forall|j: int| 0 <= j < i ==> self.files@[j].0@ != key@,
            decreases self.files@.len() - i,
        {
            if self.files[i].0 == *key {
                return Some(i);
            }
            i += 1;
        }
        proof {
            lemma_entries_map_contains(self.files@, key@);
        }
        None
    }

    /// Creates a file at the specified path if it doesn't exist.
    ///
    /// If the file already exists, this operation does nothing: the
    /// existing contents are kept and no error is reported.
    pub fn touch(&mut self, path: &str) -> (result: Result<(), FileSystemError>)
        requires
            old(self).wf(),
        ensures
            final(self).wf(),
            path@.len() == 0 ==> (result matches Err(FileSystemError::InvalidPath(_))
                && final(self)@ == old(self)@),
            path@.len() > 0 ==> result is Ok && final(self)@ == touch_model(old(self)@, path@),
    {
        if path.is_empty() {
            return Err(FileSystemError::InvalidPath("Path cannot be empty".to_owned()));
        }
        let key = path.to_owned();
        match self.find_index(&key) {
            Some(i) => {
                proof {
                    assert(self.files@[i as int].0@ == path@);
                    lemma_entries_map_contains(self.files@, path@);
                }
                Ok(())
            },
            None => {
                proof {
                    lemma_entries_map_contains(self.files@, path@);
                }
                self.files.push((key, File::new()));
                proof {
                    assert(self.files@.drop_last() =~= old(self).files@);
                }
                Ok(())
            },
        }
    }

    /// Writes data to a file at the specified offset.
    ///
    /// If the file doesn't exist, it is created. If the offset is
    /// beyond the current file size, the gap is filled with zero bytes
    /// before the data is placed. A failed write leaves the store
    /// unchanged.
    pub fn write(&mut self, path: &str, offset: usize, data: &[u8]) -> (result: Result<
        (),
        FileSystemError,
    >)
        requires
            old(self).wf(),
        ensures
            final(self).wf(),
            path@.len() == 0 ==> (result matches Err(FileSystemError::InvalidPath(_))
                && final(self)@ == old(self)@),
            path@.len() > 0 && offset + data@.len() > usize::MAX ==> (result matches Err(
                FileSystemError::WriteError(_),
            ) && final(self)@ == old(self)@),
            path@.len() > 0 && offset + data@.len() <= usize::MAX ==> result is Ok && final(self)@
                == write_model(old(self)@, path@, offset as nat, data@),
    {
        if path.is_empty() {
            return Err(FileSystemError::InvalidPath("Path cannot be empty".to_owned()));
        }
        if offset.checked_add(data.len()).is_none() {
            return Err(
                FileSystemError::WriteError("Write operation would cause overflow".to_owned()),
            );
        }
        let key = path.to_owned();
        let idx: usize = match self.find_index(&key) {
            Some(i) => i,
            None => {
                proof {
                    lemma_entries_map_contains(self.files@, path@);
                }
                let n = self.files.len();
                self.files.push((key, File::new()));
                proof {
                    assert(self.files@.drop_last() =~= old(self).files@);
                }
                n
            },
        };
        proof {
            lemma_entries_map_value(self.files@, idx as int);
        }
        let ghost pre = self.files@;
        let f = &mut self.files[idx].1;
        f.write(offset, data);
        proof {
            let newf = self.files@[idx as int].1;
            assert(self.files@ =~= pre.update(idx as int, (pre[idx as int].0, newf)));
            lemma_entries_map_update(pre, idx as int, newf);
            assert(final(self)@ =~= write_model(old(self)@, path@, offset as nat, data@));
        }
        Ok(())
    }

    /// Reads data from a file starting at the specified offset.
    ///
    /// A zero-length read returns an empty vector even for a path with
    /// no entry. Otherwise a read of a path with no entry is an error:
    /// a missing file is not treated as empty. A read that runs past
    /// the end of the file returns only the bytes that exist.
    pub fn read(&self, path: &str, offset: usize, len: usize) -> (result: Result<
        Vec<u8>,
        FileSystemError,
    >)
        requires
            self.wf(),
        ensures
            path@.len() == 0 ==> result matches Err(FileSystemError::InvalidPath(_)),
            path@.len() > 0 && len == 0 ==> (result matches Ok(r) && r@ == Seq::<u8>::empty()),
            path@.len() > 0 && len > 0 && offset + len > usize::MAX ==> result matches Err(
                FileSystemError::ReadError(_),
            ),
            path@.len() > 0 && len > 0 && offset + len <= usize::MAX && !self@.contains_key(path@)
                ==> result matches Err(FileSystemError::FileNotFound(_)),
            path@.len() > 0 && len > 0 && offset + len <= usize::MAX && self@.contains_key(path@)
                ==> (result matches Ok(r) && r@ == read_at(
                self@[path@],
                offset as nat,
                len as nat,
            )),
    {
        if path.is_empty() {
            return Err(FileSystemError::InvalidPath("Path cannot be empty".to_owned()));
        }
        if len == 0 {
            return Ok(Vec::new());
        }
        if offset.checked_add(len).is_none() {
            return Err(FileSystemError::ReadError("Read operation would cause overflow".to_owned()));
        }
        let key = path.to_owned();
        match self.find_index(&key) {
            Some(i) => {
                proof {
                    assert(self.files@[i as int].0@ == path@);
                    lemma_entries_map_value(self.files@, i as int);
                }
                Ok(self.files[i].1.read(offset, len))
            },
            None => Err(FileSystemError::FileNotFound(key)),
        }
    }
}

impl Default for FileSystem {
    /// An empty file system.
    fn default() -> (fs: Self)
        ensures
            fs.wf(),
            fs@ == Map::<Seq<char>, Seq<u8>>::empty(),
    {
        FileSystem::new()
    }
}

} // verus!
