//! The archive's structures and their binary layout: a file header before
//! each compressed run, a version header per version, and the directory
//! of version header offsets.
use crate::codec::{
    lemma_parse_enc_bytes, lemma_parse_enc_u32, lemma_parse_enc_u64, lemma_split,
    enc_bytes, enc_u32, enc_u64, parse_bytes, parse_u32, parse_u64, parse_u8,
};
use vstd::prelude::*;

verus! {

/// What follows a file header.
#[derive(PartialEq, Eq, Structural, Clone, Copy, Debug)]
pub enum Contents {
    Snapshot,
    Patch,
}

/// The kind of filesystem entry a file header records.
#[derive(PartialEq, Eq, Structural, Clone, Copy, Debug)]
pub enum FileType {
    File,
    Directory,
    SystemLink,
}

/// A point in time as whole seconds and nanoseconds since the Unix epoch.
#[derive(PartialEq, Eq, Structural, Clone, Copy, Debug)]
pub struct Timestamp {
    pub secs: u64,
    pub nanos: u32,
}

/// A snapshot of a file's filesystem metadata.
#[derive(PartialEq, Eq, Structural, Clone, Copy, Debug)]
pub struct Metadata {
    pub file_type: FileType,
    pub len: u64,
    pub read_only: bool,
    pub modified: Option<Timestamp>,
    pub accessed: Option<Timestamp>,
    pub created: Option<Timestamp>,
}

/// The record in front of one file's compressed content.
#[derive(Clone, Debug)]
pub struct FileHeader {
    pub compressed_size: u64,
    pub metadata: Metadata,
    pub path: Vec<u8>,
    pub contents: Contents,
}

/// A caller-chosen number that labels a version.
#[derive(PartialEq, Eq, Structural, Clone, Copy, Debug)]
pub struct VersionNumber {
    pub number: u64,
}

/// One version: its number, its message, and for each relative path the
/// offset of that file's header.
#[derive(Clone, Debug)]
pub struct VersionHeader {
    pub files: Vec<(Vec<u8>, u64)>,
    pub number: VersionNumber,
    pub message: Vec<u8>,
}

/// The offsets of every finished version's header, in the order they were written.
#[derive(Clone, Debug)]
pub struct VersionDirectory {
    pub directory: Vec<u64>,
}

impl View for FileHeader {
    type V = (u64, Metadata, Seq<u8>, Contents);

    open spec fn view(&self) -> Self::V {
        (self.compressed_size, self.metadata, self.path@, self.contents)
    }
}

/// The entries of a file map as paths and offsets.
pub open spec fn entries_view(files: Seq<(Vec<u8>, u64)>) -> Seq<(Seq<u8>, u64)> {
    files.map_values(|e: (Vec<u8>, u64)| (e.0@, e.1))
}

impl View for VersionHeader {
    type V = (Seq<(Seq<u8>, u64)>, u64, Seq<u8>);

    open spec fn view(&self) -> Self::V {
        (entries_view(self.files@), self.number.number, self.message@)
    }
}

impl View for VersionDirectory {
    type V = Seq<u64>;

    open spec fn view(&self) -> Seq<u64> {
        self.directory@
    }
}

pub open spec fn file_type_tag(t: FileType) -> u32 {
    match t {
        FileType::File => 0,
        FileType::Directory => 1,
        FileType::SystemLink => 2,
    }
}

pub open spec fn contents_tag(c: Contents) -> u32 {
    match c {
        Contents::Snapshot => 0,
        Contents::Patch => 1,
    }
}

/// An optional timestamp: a tag byte, then seconds and nanoseconds when present.
pub open spec fn enc_timestamp(t: Option<Timestamp>) -> Seq<u8> {
    match t {
        None => seq![0u8],
        Some(t) => seq![1u8] + enc_u64(t.secs) + enc_u32(t.nanos),
    }
}

pub open spec fn enc_metadata(m: Metadata) -> Seq<u8> {
    enc_u32(file_type_tag(m.file_type)) + enc_u64(m.len) + seq![
        if m.read_only {
            1u8
        } else {
            0u8
        },
    ] + enc_timestamp(m.modified) + enc_timestamp(m.accessed) + enc_timestamp(m.created)
}

pub open spec fn enc_file_header(h: (u64, Metadata, Seq<u8>, Contents)) -> Seq<u8> {
    enc_u64(h.0) + enc_metadata(h.1) + enc_bytes(h.2) + enc_u32(contents_tag(h.3))
}

/// The entries of a file map, one after the other.
pub open spec fn enc_entries(s: Seq<(Seq<u8>, u64)>) -> Seq<u8>
    decreases s.len(),
{
    if s.len() == 0 {
        seq![]
    } else {
        enc_entries(s.drop_last()) + enc_bytes(s.last().0) + enc_u64(s.last().1)
    }
}

pub open spec fn enc_version_header(v: (Seq<(Seq<u8>, u64)>, u64, Seq<u8>)) -> Seq<u8> {
    enc_u64(v.0.len() as u64) + enc_entries(v.0) + enc_u64(v.1) + enc_bytes(v.2)
}

/// A sequence of `u64`, one after the other.
pub open spec fn enc_u64s(s: Seq<u64>) -> Seq<u8>
    decreases s.len(),
{
    if s.len() == 0 {
        seq![]
    } else {
        enc_u64s(s.drop_last()) + enc_u64(s.last())
    }
}

pub open spec fn enc_directory(d: Seq<u64>) -> Seq<u8> {
    enc_u64(d.len() as u64) + enc_u64s(d)
}

pub open spec fn parse_timestamp(data: Seq<u8>, pos: int) -> Option<(Option<Timestamp>, int)> {
    match parse_u8(data, pos) {
        Some((0u8, p)) => Some((None, p)),
        Some((1u8, p)) => match parse_u64(data, p) {
            Some((secs, q)) => match parse_u32(data, q) {
                Some((nanos, r)) => Some((Some(Timestamp { secs, nanos }), r)),
                None => None,
            },
            None => None,
        },
        _ => None,
    }
}

pub open spec fn file_type_of(tag: u32) -> Option<FileType> {
    if tag == 0 {
        Some(FileType::File)
    } else if tag == 1 {
        Some(FileType::Directory)
    } else if tag == 2 {
        Some(FileType::SystemLink)
    } else {
        None
    }
}

pub open spec fn contents_of(tag: u32) -> Option<Contents> {
    if tag == 0 {
        Some(Contents::Snapshot)
    } else if tag == 1 {
        Some(Contents::Patch)
    } else {
        None
    }
}

pub open spec fn bool_of(b: u8) -> Option<bool> {
    if b == 0 {
        Some(false)
    } else if b == 1 {
        Some(true)
    } else {
        None
    }
}

pub open spec fn parse_metadata(data: Seq<u8>, pos: int) -> Option<(Metadata, int)> {
    match parse_u32(data, pos) {
        Some((tag, p1)) => match (file_type_of(tag), parse_u64(data, p1)) {
            (Some(file_type), Some((len, p2))) => match parse_u8(data, p2) {
                Some((ro, p3)) => match (bool_of(ro), parse_timestamp(data, p3)) {
                    (Some(read_only), Some((modified, p4))) => match parse_timestamp(data, p4) {
                        Some((accessed, p5)) => match parse_timestamp(data, p5) {
                            Some((created, p6)) => Some(
                                (
                                    Metadata {
                                        file_type,
                                        len,
                                        read_only,
                                        modified,
                                        accessed,
                                        created,
                                    },
                                    p6,
                                ),
                            ),
                            None => None,
                        },
                        None => None,
                    },
                    _ => None,
                },
                None => None,
            },
            _ => None,
        },
        None => None,
    }
}

#[verifier::opaque]
pub open spec fn parse_file_header(data: Seq<u8>, pos: int) -> Option<
    ((u64, Metadata, Seq<u8>, Contents), int),
> {
    match parse_u64(data, pos) {
        Some((size, p1)) => match parse_metadata(data, p1) {
            Some((m, p2)) => match parse_bytes(data, p2) {
                Some((path, p3)) => match parse_u32(data, p3) {
                    Some((tag, p4)) => match contents_of(tag) {
                        Some(c) => Some(((size, m, path, c), p4)),
                        None => None,
                    },
                    None => None,
                },
                None => None,
            },
            None => None,
        },
        None => None,
    }
}

/// Reading `n` file map entries from `pos` on.
pub open spec fn parse_entries(data: Seq<u8>, pos: int, n: nat) -> Option<
    (Seq<(Seq<u8>, u64)>, int),
>
    decreases n,
{
    if n == 0 {
        Some((seq![], pos))
    } else {
        match parse_entries(data, pos, (n - 1) as nat) {
            Some((s, p)) => match parse_bytes(data, p) {
                Some((k, q)) => match parse_u64(data, q) {
                    Some((v, r)) => Some((s.push((k, v)), r)),
                    None => None,
                },
                None => None,
            },
            None => None,
        }
    }
}

#[verifier::opaque]
pub open spec fn parse_version_header(data: Seq<u8>, pos: int) -> Option<
    ((Seq<(Seq<u8>, u64)>, u64, Seq<u8>), int),
> {
    match parse_u64(data, pos) {
        Some((n, p1)) => match parse_entries(data, p1, n as nat) {
            Some((files, p2)) => match parse_u64(data, p2) {
                Some((number, p3)) => match parse_bytes(data, p3) {
                    Some((message, p4)) => Some(((files, number, message), p4)),
                    None => None,
                },
                None => None,
            },
            None => None,
        },
        None => None,
    }
}

/// Reading `n` values of `u64` from `pos` on.
pub open spec fn parse_u64s(data: Seq<u8>, pos: int, n: nat) -> Option<(Seq<u64>, int)>
    decreases n,
{
    if n == 0 {
        Some((seq![], pos))
    } else {
        match parse_u64s(data, pos, (n - 1) as nat) {
            Some((s, p)) => match parse_u64(data, p) {
                Some((v, r)) => Some((s.push(v), r)),
                None => None,
            },
            None => None,
        }
    }
}

pub open spec fn parse_directory(data: Seq<u8>, pos: int) -> Option<(Seq<u64>, int)> {
    match parse_u64(data, pos) {
        Some((n, p)) => parse_u64s(data, p, n as nat),
        None => None,
    }
}

/// Once reading entries fails, reading more of them fails too.
pub proof fn lemma_entries_fail_on(data: Seq<u8>, pos: int, m: nat, n: nat)
    requires
        m <= n,
        parse_entries(data, pos, m) is None,
    ensures
        parse_entries(data, pos, n) is None,
    decreases n - m,
{
    if m < n {
        lemma_entries_fail_on(data, pos, m, (n - 1) as nat);
    }
}

/// Once reading `u64` values fails, reading more of them fails too.
pub proof fn lemma_u64s_fail_on(data: Seq<u8>, pos: int, m: nat, n: nat)
    requires
        m <= n,
        parse_u64s(data, pos, m) is None,
    ensures
        parse_u64s(data, pos, n) is None,
    decreases n - m,
{
    if m < n {
        lemma_u64s_fail_on(data, pos, m, (n - 1) as nat);
    }
}

/// An encoded optional timestamp reads back as itself.
pub proof fn lemma_parse_enc_timestamp(data: Seq<u8>, pos: int, t: Option<Timestamp>)
    requires
        0 <= pos,
        pos + enc_timestamp(t).len() <= data.len(),
        data.subrange(pos, pos + enc_timestamp(t).len()) == enc_timestamp(t),
    ensures
        parse_timestamp(data, pos) == Some((t, pos + enc_timestamp(t).len())),
{
    assert(data[pos] == data.subrange(pos, pos + enc_timestamp(t).len())[0]);
    match t {
        None => {},
        Some(ts) => {
            lemma_split(data, pos, seq![1u8] + enc_u64(ts.secs), enc_u32(ts.nanos));
            lemma_split(data, pos, seq![1u8], enc_u64(ts.secs));
            lemma_parse_enc_u64(data, pos + 1, ts.secs);
            lemma_parse_enc_u32(data, pos + 9, ts.nanos);
        },
    }
}

/// Encoded metadata reads back as itself.
pub proof fn lemma_parse_enc_metadata(data: Seq<u8>, pos: int, m: Metadata)
    requires
        0 <= pos,
        pos + enc_metadata(m).len() <= data.len(),
        data.subrange(pos, pos + enc_metadata(m).len()) == enc_metadata(m),
    ensures
        parse_metadata(data, pos) == Some((m, pos + enc_metadata(m).len())),
{
    let e1 = enc_u32(file_type_tag(m.file_type));
    let e2 = enc_u64(m.len);
    let e3 = seq![
        if m.read_only {
            1u8
        } else {
            0u8
        },
    ];
    let e4 = enc_timestamp(m.modified);
    let e5 = enc_timestamp(m.accessed);
    let e6 = enc_timestamp(m.created);
    lemma_split(data, pos, e1 + e2 + e3 + e4 + e5, e6);
    lemma_split(data, pos, e1 + e2 + e3 + e4, e5);
    lemma_split(data, pos, e1 + e2 + e3, e4);
    lemma_split(data, pos, e1 + e2, e3);
    lemma_split(data, pos, e1, e2);
    lemma_parse_enc_u32(data, pos, file_type_tag(m.file_type));
    lemma_parse_enc_u64(data, pos + 4, m.len);
    assert(data[pos + 12] == data.subrange(pos + 12, pos + 13)[0]);
    lemma_parse_enc_timestamp(data, pos + 13, m.modified);
    lemma_parse_enc_timestamp(data, pos + 13 + e4.len(), m.accessed);
    lemma_parse_enc_timestamp(data, pos + 13 + e4.len() + e5.len(), m.created);
}

/// An encoded file header reads back as itself.
pub proof fn lemma_parse_enc_file_header(
    data: Seq<u8>,
    pos: int,
    h: (u64, Metadata, Seq<u8>, Contents),
)
    requires
        0 <= pos,
        h.2.len() <= u64::MAX,
        pos + enc_file_header(h).len() <= data.len(),
        data.subrange(pos, pos + enc_file_header(h).len()) == enc_file_header(h),
    ensures
        parse_file_header(data, pos) == Some((h, pos + enc_file_header(h).len())),
{
    reveal(parse_file_header);
    let e1 = enc_u64(h.0);
    let e2 = enc_metadata(h.1);
    let e3 = enc_bytes(h.2);
    let e4 = enc_u32(contents_tag(h.3));
    lemma_split(data, pos, e1 + e2 + e3, e4);
    lemma_split(data, pos, e1 + e2, e3);
    lemma_split(data, pos, e1, e2);
    lemma_parse_enc_u64(data, pos, h.0);
    lemma_parse_enc_metadata(data, pos + 8, h.1);
    lemma_parse_enc_bytes(data, pos + 8 + e2.len(), h.2);
    lemma_parse_enc_u32(data, pos + 8 + e2.len() + e3.len(), contents_tag(h.3));
}

/// Encoded file map entries read back as themselves.
pub proof fn lemma_parse_enc_entries(data: Seq<u8>, pos: int, s: Seq<(Seq<u8>, u64)>)
    requires
        0 <= pos,
        forall|i: int| 0 <= i < s.len() ==> (#[trigger] s[i]).0.len() <= u64::MAX,
        pos + enc_entries(s).len() <= data.len(),
        data.subrange(pos, pos + enc_entries(s).len()) == enc_entries(s),
    ensures
        parse_entries(data, pos, s.len()) == Some((s, pos + enc_entries(s).len())),
    decreases s.len(),
{
    if s.len() > 0 {
        let init = s.drop_last();
        let k = s.last().0;
        let v = s.last().1;
        assert(s[s.len() - 1] == s.last());
        lemma_split(data, pos, enc_entries(init) + enc_bytes(k), enc_u64(v));
        lemma_split(data, pos, enc_entries(init), enc_bytes(k));
        assert forall|i: int| 0 <= i < init.len() implies (#[trigger] init[i]).0.len()
            <= u64::MAX by {
            assert(init[i] == s[i]);
        }
        lemma_parse_enc_entries(data, pos, init);
        lemma_parse_enc_bytes(data, pos + enc_entries(init).len(), k);
        lemma_parse_enc_u64(data, pos + enc_entries(init).len() + enc_bytes(k).len(), v);
        assert(init.push((k, v)) =~= s);
    }
}

/// An encoded version header reads back as itself.
pub proof fn lemma_parse_enc_version_header(
    data: Seq<u8>,
    pos: int,
    v: (Seq<(Seq<u8>, u64)>, u64, Seq<u8>),
)
    requires
        0 <= pos,
        v.0.len() <= u64::MAX,
        v.2.len() <= u64::MAX,
        forall|i: int| 0 <= i < v.0.len() ==> (#[trigger] v.0[i]).0.len() <= u64::MAX,
        pos + enc_version_header(v).len() <= data.len(),
        data.subrange(pos, pos + enc_version_header(v).len()) == enc_version_header(v),
    ensures
        parse_version_header(data, pos) == Some((v, pos + enc_version_header(v).len())),
{
    reveal(parse_version_header);
    let e1 = enc_u64(v.0.len() as u64);
    let e2 = enc_entries(v.0);
    let e3 = enc_u64(v.1);
    let e4 = enc_bytes(v.2);
    lemma_split(data, pos, e1 + e2 + e3, e4);
    lemma_split(data, pos, e1 + e2, e3);
    lemma_split(data, pos, e1, e2);
    lemma_parse_enc_u64(data, pos, v.0.len() as u64);
    lemma_parse_enc_entries(data, pos + 8, v.0);
    lemma_parse_enc_u64(data, pos + 8 + e2.len(), v.1);
    lemma_parse_enc_bytes(data, pos + 16 + e2.len(), v.2);
}

/// Encoded `u64` values read back as themselves.
pub proof fn lemma_parse_enc_u64s(data: Seq<u8>, pos: int, s: Seq<u64>)
    requires
        0 <= pos,
        pos + enc_u64s(s).len() <= data.len(),
        data.subrange(pos, pos + enc_u64s(s).len()) == enc_u64s(s),
    ensures
        parse_u64s(data, pos, s.len()) == Some((s, pos + enc_u64s(s).len())),
    decreases s.len(),
{
    if s.len() > 0 {
        let init = s.drop_last();
        lemma_split(data, pos, enc_u64s(init), enc_u64(s.last()));
        lemma_parse_enc_u64s(data, pos, init);
        lemma_parse_enc_u64(data, pos + enc_u64s(init).len(), s.last());
        assert(init.push(s.last()) =~= s);
    }
}

/// An encoded directory reads back as itself.
pub proof fn lemma_parse_enc_directory(data: Seq<u8>, pos: int, d: Seq<u64>)
    requires
        0 <= pos,
        d.len() <= u64::MAX,
        pos + enc_directory(d).len() <= data.len(),
        data.subrange(pos, pos + enc_directory(d).len()) == enc_directory(d),
    ensures
        parse_directory(data, pos) == Some((d, pos + enc_directory(d).len())),
{
    lemma_split(data, pos, enc_u64(d.len() as u64), enc_u64s(d));
    lemma_parse_enc_u64(data, pos, d.len() as u64);
    lemma_parse_enc_u64s(data, pos + 8, d);
}

/// Each value takes eight bytes.
pub proof fn lemma_enc_u64s_len(s: Seq<u64>)
    ensures
        enc_u64s(s).len() == 8 * s.len(),
    decreases s.len(),
{
    if s.len() > 0 {
        lemma_enc_u64s_len(s.drop_last());
    }
}

/// A file header ends after the position it starts at.
pub proof fn lemma_file_header_end(data: Seq<u8>, pos: int)
    requires
        parse_file_header(data, pos) is Some,
    ensures
        (parse_file_header(data, pos)->0).1 > pos,
{
    reveal(parse_file_header);
}

/// Nothing decodes past the end.
pub proof fn lemma_headers_outside(data: Seq<u8>, pos: int)
    requires
        pos > data.len(),
    ensures
        parse_file_header(data, pos) is None,
        parse_version_header(data, pos) is None,
{
    reveal(parse_file_header);
    reveal(parse_version_header);
}

/// Two byte strings hold the same bytes in `[lo, hi)`.
pub open spec fn agree(d1: Seq<u8>, d2: Seq<u8>, lo: int, hi: int) -> bool {
    &&& 0 <= lo <= hi
    &&& hi <= d1.len()
    &&& hi <= d2.len()
    &&& d1.subrange(lo, hi) == d2.subrange(lo, hi)
}

proof fn lemma_agree_sub(d1: Seq<u8>, d2: Seq<u8>, lo: int, hi: int, x: int, y: int)
    requires
        agree(d1, d2, lo, hi),
        lo <= x <= y <= hi,
    ensures
        d1.subrange(x, y) == d2.subrange(x, y),
{
    assert(d1.subrange(x, y) =~= d1.subrange(lo, hi).subrange(x - lo, y - lo));
    assert(d2.subrange(x, y) =~= d2.subrange(lo, hi).subrange(x - lo, y - lo));
}

/// A file header that decodes from bytes inside `[lo, hi)` decodes the same
/// from any bytes that agree there.
pub proof fn lemma_file_header_frame(d1: Seq<u8>, d2: Seq<u8>, lo: int, hi: int, pos: int)
    requires
        agree(d1, d2, lo, hi),
        lo <= pos,
        parse_file_header(d1, pos) matches Some((_, e)) && e <= hi,
    ensures
        parse_file_header(d2, pos) == parse_file_header(d1, pos),
{
    reveal(parse_file_header);
    let p1 = pos + 8;
    lemma_agree_sub(d1, d2, lo, hi, pos, p1);
    let p2 = p1 + 13;
    lemma_agree_sub(d1, d2, lo, hi, p1, p1 + 4);
    lemma_agree_sub(d1, d2, lo, hi, p1 + 4, p1 + 12);
    assert(d1[p1 + 12] == d1.subrange(p1 + 12, p1 + 13)[0]);
    assert(d2[p1 + 12] == d2.subrange(p1 + 12, p1 + 13)[0]);
    lemma_agree_sub(d1, d2, lo, hi, p1 + 12, p1 + 13);
    let t1 = (parse_timestamp(d1, p2)->0).1;
    lemma_timestamp_frame(d1, d2, lo, hi, p2);
    let t2 = (parse_timestamp(d1, t1)->0).1;
    lemma_timestamp_frame(d1, d2, lo, hi, t1);
    let t3 = (parse_timestamp(d1, t2)->0).1;
    lemma_timestamp_frame(d1, d2, lo, hi, t2);
    lemma_agree_sub(d1, d2, lo, hi, t3, t3 + 8);
    let n = (parse_u64(d1, t3)->0).0;
    lemma_agree_sub(d1, d2, lo, hi, t3 + 8, t3 + 8 + n);
    lemma_agree_sub(d1, d2, lo, hi, t3 + 8 + n, t3 + 12 + n);
}

proof fn lemma_timestamp_frame(d1: Seq<u8>, d2: Seq<u8>, lo: int, hi: int, pos: int)
    requires
        agree(d1, d2, lo, hi),
        lo <= pos,
        parse_timestamp(d1, pos) matches Some((_, e)) && e <= hi,
    ensures
        parse_timestamp(d2, pos) == parse_timestamp(d1, pos),
        (parse_timestamp(d1, pos)->0).1 >= pos,
{
    assert(d1[pos] == d1.subrange(pos, pos + 1)[0]);
    assert(d2[pos] == d2.subrange(pos, pos + 1)[0]);
    lemma_agree_sub(d1, d2, lo, hi, pos, pos + 1);
    if d1[pos] == 1u8 {
        lemma_agree_sub(d1, d2, lo, hi, pos + 1, pos + 9);
        lemma_agree_sub(d1, d2, lo, hi, pos + 9, pos + 13);
    }
}

} // verus!
