//! Building the in-memory index structures: version headers with their file
//! maps, loaded versions, and the version directory.
use crate::codec::copy_range;
use crate::format::{
    entries_view, Contents, FileHeader, Metadata, VersionDirectory, VersionHeader, VersionNumber,
};
use vstd::prelude::*;

verus! {

/// No path occurs twice among the entries.
pub open spec fn unique_keys(s: Seq<(Seq<u8>, u64)>) -> bool {
    forall|i: int, j: int| 0 <= i < s.len() && 0 <= j < s.len() && i != j ==> s[i].0 != s[j].0
}

/// The position of an entry for `k`, where there is one.
pub open spec fn key_pos(s: Seq<(Seq<u8>, u64)>, k: Seq<u8>) -> int {
    choose|i: int| 0 <= i < s.len() && s[i].0 == k
}

/// The entries after mapping `k` to `v`: an existing entry for `k` takes the
/// new offset in place, otherwise the entry is added at the end.
pub open spec fn entries_insert(s: Seq<(Seq<u8>, u64)>, k: Seq<u8>, v: u64) -> Seq<
    (Seq<u8>, u64),
> {
    if exists|i: int| 0 <= i < s.len() && s[i].0 == k {
        s.update(key_pos(s, k), (k, v))
    } else {
        s.push((k, v))
    }
}

/// Whether two byte strings are equal.
pub fn bytes_eq(a: &[u8], b: &[u8]) -> (r: bool)
    ensures
        r == (a@ == b@),
{
    if a.len() != b.len() {
        return false;
    }
    let mut i: usize = 0;
    while i < a.len()
        invariant
            a@.len() == b@.len(),
            i <= a@.len(),
            a@.subrange(0, i as int) == b@.subrange(0, i as int),
        decreases a.len() - i,
    {
        if a[i] != b[i] {
            assert(a@[i as int] != b@[i as int]);
            return false;
        }
        assert(a@.subrange(0, i + 1) =~= a@.subrange(0, i as int).push(a@[i as int]));
        assert(b@.subrange(0, i + 1) =~= b@.subrange(0, i as int).push(b@[i as int]));
        i = i + 1;
    }
    assert(a@ =~= a@.subrange(0, i as int));
    assert(b@ =~= b@.subrange(0, i as int));
    true
}

impl VersionHeader {
    /// A version with no files yet.
    pub fn new(number: VersionNumber, message: Vec<u8>) -> (r: VersionHeader)
        ensures
            r@ == (Seq::<(Seq<u8>, u64)>::empty(), number.number, message@),
    {
        let r = VersionHeader { files: Vec::new(), number, message };
        assert(entries_view(r.files@) =~= Seq::<(Seq<u8>, u64)>::empty());
        r
    }

    /// Maps `path` to the file header offset `offset`.
    pub fn insert(&mut self, path: &[u8], offset: u64)
        requires
            unique_keys(old(self)@.0),
        ensures
            final(self)@ == (entries_insert(old(self)@.0, path@, offset), old(self)@.1, old(
                self,
            )@.2),
            unique_keys(final(self)@.0),
    {
        let ghost s = self@.0;
        let key = copy_range(path, 0, path.len());
        assert(key@ =~= path@);
        let mut i: usize = 0;
        while i < self.files.len()
            invariant
                self@.0 == s,
                self@ == old(self)@,
                unique_keys(s),
                key@ == path@,
                i <= self.files@.len(),
                forall|j: int| 0 <= j < i ==> s[j].0 != path@,
            decreases self.files.len() - i,
        {
            if bytes_eq(self.files[i].0.as_slice(), path) {
                assert(s[i as int].0 == path@);
                assert(exists|c: int| 0 <= c < s.len() && s[c].0 == path@);
                let ghost c = key_pos(s, path@);
                assert(s[c].0 == s[i as int].0);
                assert(c == i);
                let ghost before = self.files@;
                self.files.set(i, (key, offset));
                assert(self.files@ == before.update(i as int, (key, offset)));
                assert(entries_view(self.files@) =~= s.update(i as int, (path@, offset)));
                return;
            }
            i = i + 1;
        }
        self.files.push((key, offset));
        assert(entries_view(self.files@) =~= s.push((path@, offset)));
    }
}

impl VersionDirectory {
    /// A directory with no versions.
    pub fn new() -> (r: VersionDirectory)
        ensures
            r@ == Seq::<u64>::empty(),
    {
        VersionDirectory { directory: Vec::new() }
    }

    /// The version header offsets, in the order they were added.
    pub fn directory(&self) -> (r: &[u64])
        ensures
            r@ == self@,
    {
        self.directory.as_slice()
    }

    /// Records one more version header offset.
    pub fn add(&mut self, offset: u64)
        ensures
            final(self)@ == old(self)@.push(offset),
    {
        self.directory.push(offset);
    }
}

impl FileHeader {
    /// The header of a file whose compressed size is not yet known.
    pub fn new(path: &[u8], metadata: Metadata, contents: Contents) -> (r: FileHeader)
        ensures
            r@ == (0u64, metadata, path@, contents),
    {
        FileHeader { compressed_size: 0, metadata, path: copy_range(path, 0, path.len()), contents }
    }
}

} // verus!
