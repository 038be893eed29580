//! Writing and reading the archive's structures, byte for byte as their
//! encodings and parsers in `format` describe them.
use crate::codec::{enc_u64, parse_u64, read_bytes, read_u32, read_u64, read_u8, write_bytes, write_u32, write_u64};
use crate::format::{
    contents_of, contents_tag, entries_view, enc_directory, enc_entries, enc_file_header,
    enc_metadata, enc_timestamp, enc_u64s, enc_version_header, file_type_of, file_type_tag,
    lemma_entries_fail_on, lemma_u64s_fail_on, parse_directory, parse_entries, parse_file_header, parse_metadata, parse_timestamp,
    parse_u64s, parse_version_header, Contents, FileHeader, FileType, Metadata, Timestamp,
    VersionDirectory, VersionHeader, VersionNumber,
};
use vstd::prelude::*;

verus! {

pub fn write_timestamp(out: &mut Vec<u8>, t: Option<Timestamp>)
    ensures
        final(out)@ == old(out)@ + enc_timestamp(t),
{
    match t {
        None => {
            out.push(0u8);
            assert(final(out)@ =~= old(out)@ + enc_timestamp(t));
        },
        Some(ts) => {
            out.push(1u8);
            write_u64(out, ts.secs);
            write_u32(out, ts.nanos);
            assert(final(out)@ =~= old(out)@ + enc_timestamp(t));
        },
    }
}

pub fn write_metadata(out: &mut Vec<u8>, m: &Metadata)
    ensures
        final(out)@ == old(out)@ + enc_metadata(*m),
{
    let tag: u32 = match m.file_type {
        FileType::File => 0,
        FileType::Directory => 1,
        FileType::SystemLink => 2,
    };
    write_u32(out, tag);
    write_u64(out, m.len);
    out.push(if m.read_only { 1u8 } else { 0u8 });
    write_timestamp(out, m.modified);
    write_timestamp(out, m.accessed);
    write_timestamp(out, m.created);
    assert(final(out)@ =~= old(out)@ + enc_metadata(*m));
}

pub fn write_file_header(out: &mut Vec<u8>, h: &FileHeader)
    ensures
        final(out)@ == old(out)@ + enc_file_header(h@),
{
    write_u64(out, h.compressed_size);
    write_metadata(out, &h.metadata);
    write_bytes(out, h.path.as_slice());
    let tag: u32 = match h.contents {
        Contents::Snapshot => 0,
        Contents::Patch => 1,
    };
    write_u32(out, tag);
    assert(final(out)@ =~= old(out)@ + enc_file_header(h@));
}

pub fn write_version_header(out: &mut Vec<u8>, v: &VersionHeader)
    ensures
        final(out)@ == old(out)@ + enc_version_header(v@),
{
    let ghost start = out@;
    write_u64(out, v.files.len() as u64);
    let mut i: usize = 0;
    while i < v.files.len()
        invariant
            i <= v.files@.len(),
            out@ == start + enc_u64(v.files@.len() as u64) + enc_entries(
                entries_view(v.files@.subrange(0, i as int)),
            ),
        decreases v.files.len() - i,
    {
        let ghost before = out@;
        write_bytes(out, v.files[i].0.as_slice());
        write_u64(out, v.files[i].1);
        proof {
            let s = entries_view(v.files@.subrange(0, i + 1));
            assert(s.drop_last() =~= entries_view(v.files@.subrange(0, i as int)));
            assert(s.last() == (v.files@[i as int].0@, v.files@[i as int].1));
        }
        i = i + 1;
        assert(out@ =~= start + enc_u64(v.files@.len() as u64) + enc_entries(
            entries_view(v.files@.subrange(0, i as int)),
        ));
    }
    assert(v.files@.subrange(0, i as int) =~= v.files@);
    write_u64(out, v.number.number);
    write_bytes(out, v.message.as_slice());
    assert(final(out)@ =~= old(out)@ + enc_version_header(v@));
}

pub fn write_directory(out: &mut Vec<u8>, d: &VersionDirectory)
    ensures
        final(out)@ == old(out)@ + enc_directory(d@),
{
    let ghost start = out@;
    write_u64(out, d.directory.len() as u64);
    let mut i: usize = 0;
    while i < d.directory.len()
        invariant
            i <= d.directory@.len(),
            out@ == start + enc_u64(d.directory@.len() as u64) + enc_u64s(
                d.directory@.subrange(0, i as int),
            ),
        decreases d.directory.len() - i,
    {
        write_u64(out, d.directory[i]);
        proof {
            let s = d.directory@.subrange(0, i + 1);
            assert(s.drop_last() =~= d.directory@.subrange(0, i as int));
        }
        i = i + 1;
        assert(out@ =~= start + enc_u64(d.directory@.len() as u64) + enc_u64s(
            d.directory@.subrange(0, i as int),
        ));
    }
    assert(d.directory@.subrange(0, i as int) =~= d.directory@);
}

pub fn read_timestamp(data: &[u8], pos: usize) -> (r: Option<(Option<Timestamp>, usize)>)
    ensures
        r matches Some((t, e)) ==> parse_timestamp(data@, pos as int) == Some((t, e as int)),
        r is None ==> parse_timestamp(data@, pos as int) is None,
{
    match read_u8(data, pos) {
        Some((0u8, p)) => Some((None, p)),
        Some((1u8, p)) => match read_u64(data, p) {
            Some((secs, q)) => match read_u32(data, q) {
                Some((nanos, e)) => Some((Some(Timestamp { secs, nanos }), e)),
                None => None,
            },
            None => None,
        },
        _ => None,
    }
}

pub fn read_metadata(data: &[u8], pos: usize) -> (r: Option<(Metadata, usize)>)
    ensures
        r matches Some((m, e)) ==> parse_metadata(data@, pos as int) == Some((m, e as int)),
        r is None ==> parse_metadata(data@, pos as int) is None,
{
    let (tag, p1) = read_u32(data, pos)?;
    let file_type = if tag == 0 {
        FileType::File
    } else if tag == 1 {
        FileType::Directory
    } else if tag == 2 {
        FileType::SystemLink
    } else {
        return None;
    };
    let (len, p2) = read_u64(data, p1)?;
    let (ro, p3) = read_u8(data, p2)?;
    let read_only = if ro == 0 {
        false
    } else if ro == 1 {
        true
    } else {
        return None;
    };
    let (modified, p4) = read_timestamp(data, p3)?;
    let (accessed, p5) = read_timestamp(data, p4)?;
    let (created, p6) = read_timestamp(data, p5)?;
    Some((Metadata { file_type, len, read_only, modified, accessed, created }, p6))
}

pub fn read_file_header(data: &[u8], pos: usize) -> (r: Option<(FileHeader, usize)>)
    ensures
        r matches Some((h, e)) ==> parse_file_header(data@, pos as int) == Some((h@, e as int)),
        r is None ==> parse_file_header(data@, pos as int) is None,
{
    proof {
        reveal(parse_file_header);
    }
    let (compressed_size, p1) = read_u64(data, pos)?;
    let (metadata, p2) = read_metadata(data, p1)?;
    let (path, p3) = read_bytes(data, p2)?;
    let (tag, p4) = read_u32(data, p3)?;
    let contents = if tag == 0 {
        Contents::Snapshot
    } else if tag == 1 {
        Contents::Patch
    } else {
        return None;
    };
    Some((FileHeader { compressed_size, metadata, path, contents }, p4))
}

pub fn read_version_header(data: &[u8], pos: usize) -> (r: Option<(VersionHeader, usize)>)
    ensures
        r matches Some((v, e)) ==> parse_version_header(data@, pos as int) == Some(
            (v@, e as int),
        ),
        r is None ==> parse_version_header(data@, pos as int) is None,
{
    proof {
        reveal(parse_version_header);
    }
    let (n, p1) = read_u64(data, pos)?;
    let mut files: Vec<(Vec<u8>, u64)> = Vec::new();
    let mut p: usize = p1;
    let mut i: u64 = 0;
    while i < n
        invariant
            i <= n,
            parse_u64(data@, pos as int) == Some((n, p1 as int)),
            parse_entries(data@, p1 as int, i as nat) == Some((entries_view(files@), p as int)),
        decreases n - i,
    {
        let kq = read_bytes(data, p);
        let ve = match kq {
            Some((_, q)) => read_u64(data, q),
            None => None,
        };
        if ve.is_none() {
            proof {
                reveal(parse_version_header);
                lemma_entries_fail_on(data@, p1 as int, (i + 1) as nat, n as nat);
            }
            return None;
        }
        let (k, _) = kq.unwrap();
        let (v, e) = ve.unwrap();
        let ghost prev = files@;
        files.push((k, v));
        assert(entries_view(files@) =~= entries_view(prev).push((k@, v)));
        p = e;
        i = i + 1;
    }
    let (number, p3) = read_u64(data, p)?;
    let (message, p4) = read_bytes(data, p3)?;
    Some((VersionHeader { files, number: VersionNumber { number }, message }, p4))
}

pub fn read_directory(data: &[u8], pos: usize) -> (r: Option<(VersionDirectory, usize)>)
    ensures
        r matches Some((d, e)) ==> parse_directory(data@, pos as int) == Some((d@, e as int)),
        r is None ==> parse_directory(data@, pos as int) is None,
{
    let (n, p1) = read_u64(data, pos)?;
    let mut directory: Vec<u64> = Vec::new();
    let mut p: usize = p1;
    let mut i: u64 = 0;
    while i < n
        invariant
            i <= n,
            parse_u64(data@, pos as int) == Some((n, p1 as int)),
            parse_u64s(data@, p1 as int, i as nat) == Some((directory@, p as int)),
        decreases n - i,
    {
        let ve = read_u64(data, p);
        if ve.is_none() {
            proof {
                lemma_u64s_fail_on(data@, p1 as int, (i + 1) as nat, n as nat);
            }
            return None;
        }
        let (v, e) = ve.unwrap();
        directory.push(v);
        p = e;
        i = i + 1;
    }
    Some((VersionDirectory { directory }, p))
}

} // verus!
