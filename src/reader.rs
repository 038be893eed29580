//! The read engine: the whole index of an archive image, loaded up front,
//! and retrieval of one file's content from one version.
use crate::archive::{
    committed_image, entry_ok, fits, lemma_committed_keeps, lemma_finish_adds_version,
    load_directory, pointed_directory, AppendArchive, Archive, ArchiveError, POINTER_LEN,
};
use crate::codec::{copy_range, write_raw};
use crate::compress::{decompress_bytes, lzma_of, unlzma_of};
use crate::format::{
    agree, enc_file_header, entries_view, lemma_file_header_end, lemma_file_header_frame,
    lemma_headers_outside, lemma_parse_enc_file_header,
    parse_file_header, parse_version_header, Contents, FileHeader, Metadata,
    VersionNumber,
};
use crate::index::{bytes_eq, entries_insert, key_pos};
use crate::serial::{read_file_header, read_version_header};
use vstd::prelude::*;
use vstd::string::StringSliceAdditionalSpecFns;

verus! {

/// A file as the index knows it: its path, where its compressed content
/// starts, and its header.
pub type FileEntryView = (Seq<u8>, int, (u64, Metadata, Seq<u8>, Contents));

/// A loaded version: its files, its number and its message.
pub type VersionView = (Seq<FileEntryView>, u64, Seq<u8>);

/// One version of a loaded index.
#[derive(Clone, Debug)]
pub struct Version {
    pub files: Vec<(Vec<u8>, usize, FileHeader)>,
    pub number: VersionNumber,
    pub message: Vec<u8>,
}

pub open spec fn file_entries_view(files: Seq<(Vec<u8>, usize, FileHeader)>) -> Seq<
    FileEntryView,
> {
    files.map_values(|e: (Vec<u8>, usize, FileHeader)| (e.0@, e.1 as int, e.2@))
}

impl View for Version {
    type V = VersionView;

    open spec fn view(&self) -> VersionView {
        (file_entries_view(self.files@), self.number.number, self.message@)
    }
}

pub open spec fn versions_view(vs: Seq<Version>) -> Seq<VersionView> {
    vs.map_values(|v: Version| v@)
}

/// The file headers that the entries of a file map point at, each with the
/// offset right after it, where its content starts.
pub open spec fn headers_of(image: Seq<u8>, files: Seq<(Seq<u8>, u64)>) -> Option<
    Seq<FileEntryView>,
>
    decreases files.len(),
{
    if files.len() == 0 {
        Some(seq![])
    } else {
        match headers_of(image, files.drop_last()) {
            Some(hs) => match parse_file_header(image, files.last().1 as int) {
                Some((h, e)) => Some(hs.push((files.last().0, e, h))),
                None => None,
            },
            None => None,
        }
    }
}

/// The version whose header is at `offset`, with its file headers.
pub open spec fn version_of(image: Seq<u8>, offset: u64) -> Option<VersionView> {
    match parse_version_header(image, offset as int) {
        Some(((files, number, message), _)) => match headers_of(image, files) {
            Some(hs) => Some((hs, number, message)),
            None => None,
        },
        None => None,
    }
}

/// The versions whose headers are at the given offsets, in order.
pub open spec fn versions_of(image: Seq<u8>, directory: Seq<u64>) -> Option<Seq<VersionView>>
    decreases directory.len(),
{
    if directory.len() == 0 {
        Some(seq![])
    } else {
        match versions_of(image, directory.drop_last()) {
            Some(vs) => match version_of(image, directory.last()) {
                Some(v) => Some(vs.push(v)),
                None => None,
            },
            None => None,
        }
    }
}

/// The whole index of an image: every version of its directory.
pub open spec fn index_of(image: Seq<u8>) -> Option<Seq<VersionView>> {
    match pointed_directory(image) {
        Some((_, directory)) => versions_of(image, directory),
        None => None,
    }
}

/// Whether the version has a file at `path`.
pub open spec fn has_file(files: Seq<FileEntryView>, path: Seq<u8>) -> bool {
    exists|i: int| 0 <= i < files.len() && files[i].0 == path
}

/// The position of the first file at `path`.
pub open spec fn first_file(files: Seq<FileEntryView>, path: Seq<u8>) -> int {
    choose|i: int|
        0 <= i < files.len() && files[i].0 == path && forall|j: int|
            0 <= j < i ==> files[j].0 != path
}

proof fn lemma_headers_fail_on(image: Seq<u8>, files: Seq<(Seq<u8>, u64)>, m: int, n: int)
    requires
        0 <= m <= n <= files.len(),
        headers_of(image, files.subrange(0, m)) is None,
    ensures
        headers_of(image, files.subrange(0, n)) is None,
    decreases n - m,
{
    if m < n {
        lemma_headers_fail_on(image, files, m, n - 1);
        assert(files.subrange(0, n).drop_last() =~= files.subrange(0, n - 1));
    }
}

proof fn lemma_versions_fail_on(image: Seq<u8>, directory: Seq<u64>, m: int, n: int)
    requires
        0 <= m <= n <= directory.len(),
        versions_of(image, directory.subrange(0, m)) is None,
    ensures
        versions_of(image, directory.subrange(0, n)) is None,
    decreases n - m,
{
    if m < n {
        lemma_versions_fail_on(image, directory, m, n - 1);
        assert(directory.subrange(0, n).drop_last() =~= directory.subrange(0, n - 1));
    }
}

impl Version {
    pub fn new(
        files: Vec<(Vec<u8>, usize, FileHeader)>,
        number: VersionNumber,
        message: Vec<u8>,
    ) -> (r: Version)
        ensures
            r@ == (file_entries_view(files@), number.number, message@),
    {
        Version { files, number, message }
    }
}

/// Loads the file header that each entry points at.
fn load_files(image: &[u8], entries: &Vec<(Vec<u8>, u64)>) -> (r: Option<
    Vec<(Vec<u8>, usize, FileHeader)>,
>)
    ensures
        r matches Some(files) ==> headers_of(image@, entries_view(entries@)) == Some(
            file_entries_view(files@),
        ),
        r is None ==> headers_of(image@, entries_view(entries@)) is None,
{
    let ghost ev = entries_view(entries@);
    let mut files: Vec<(Vec<u8>, usize, FileHeader)> = Vec::new();
    let mut j: usize = 0;
    while j < entries.len()
        invariant
            j <= entries@.len(),
            ev == entries_view(entries@),
            headers_of(image@, ev.subrange(0, j as int)) == Some(file_entries_view(files@)),
        decreases entries.len() - j,
    {
        proof {
            let sub = ev.subrange(0, j + 1);
            assert(sub.drop_last() =~= ev.subrange(0, j as int));
            assert(sub.last() == ev[j as int]);
        }
        let fo = entries[j].1;
        let found = if fo > image.len() as u64 {
            None
        } else {
            read_file_header(image, fo as usize)
        };
        match found {
            None => {
                proof {
                    if fo > image.len() as u64 {
                        lemma_headers_outside(image@, fo as int);
                    }
                    lemma_headers_fail_on(image@, ev, j + 1, ev.len() as int);
                    assert(ev.subrange(0, ev.len() as int) =~= ev);
                }
                return None;
            },
            Some((h, e)) => {
                let key = copy_range(entries[j].0.as_slice(), 0, entries[j].0.len());
                assert(key@ =~= ev[j as int].0);
                let ghost before = files@;
                files.push((key, e, h));
                assert(file_entries_view(files@) =~= file_entries_view(before).push(
                    (ev[j as int].0, e as int, h@),
                ));
            },
        }
        j = j + 1;
    }
    assert(ev.subrange(0, j as int) =~= ev);
    Some(files)
}

/// Loads the version whose header is at `offset`.
fn load_version(image: &[u8], offset: u64) -> (r: Option<Version>)
    ensures
        r matches Some(v) ==> version_of(image@, offset) == Some(v@),
        r is None ==> version_of(image@, offset) is None,
{
    if offset > image.len() as u64 {
        proof {
            lemma_headers_outside(image@, offset as int);
        }
        return None;
    }
    let (header, _) = match read_version_header(image, offset as usize) {
        Some(x) => x,
        None => return None,
    };
    let files = match load_files(image, &header.files) {
        Some(f) => f,
        None => return None,
    };
    Some(Version::new(files, header.number, header.message))
}

/// The position of the first file at `p`, if any.
fn find_file(files: &Vec<(Vec<u8>, usize, FileHeader)>, p: &[u8]) -> (r: Option<usize>)
    ensures
        r matches Some(i) ==> i < files@.len() && file_entries_view(files@)[i as int].0 == p@
            && forall|j: int| 0 <= j < i ==> file_entries_view(files@)[j].0 != p@,
        r is None ==> forall|j: int|
            0 <= j < files@.len() ==> file_entries_view(files@)[j].0 != p@,
{
    let ghost fv = file_entries_view(files@);
    let mut i: usize = 0;
    while i < files.len()
        invariant
            i <= files@.len(),
            fv == file_entries_view(files@),
            forall|j: int| 0 <= j < i ==> fv[j].0 != p@,
        decreases files.len() - i,
    {
        if bytes_eq(files[i].0.as_slice(), p) {
            return Some(i);
        }
        i = i + 1;
    }
    None
}

/// An archive image with its index loaded.
pub struct ReadArchive {
    pub image: Vec<u8>,
    pub version_headers: Vec<Version>,
}

impl ReadArchive {
    /// The index that this reader holds.
    pub open spec fn index(&self) -> Seq<VersionView> {
        versions_view(self.version_headers@)
    }

    /// Where the compressed content of `path` in version `version` lies,
    /// and its compressed size.
    pub open spec fn run_of(&self, version: int, path: Seq<u8>) -> (int, int) {
        let files = self.index()[version].0;
        let f = files[first_file(files, path)];
        (f.1, f.2.0 as int)
    }

    /// The version at `version` exists and has a file at `path`.
    pub open spec fn found(&self, version: int, path: Seq<u8>) -> bool {
        0 <= version < self.index().len() && has_file(self.index()[version].0, path)
    }

    /// The compressed run of that file lies inside the image.
    pub open spec fn run_inside(&self, version: int, path: Seq<u8>) -> bool {
        self.run_of(version, path).0 + self.run_of(version, path).1 <= self.image@.len()
    }

    /// The bytes of that file's compressed run.
    pub open spec fn stored_run(&self, version: int, path: Seq<u8>) -> Seq<u8> {
        self.image@.subrange(
            self.run_of(version, path).0,
            self.run_of(version, path).0 + self.run_of(version, path).1,
        )
    }

    /// Loads the index of `image`: the directory, every version header in
    /// it and every file header that those point at.
    pub fn new(image: &[u8]) -> (r: Result<ReadArchive, ArchiveError>)
        ensures
            match index_of(image@) {
                Some(index) => r matches Ok(a) && a.image@ == image@ && a.index() == index,
                None => r == Err::<ReadArchive, ArchiveError>(ArchiveError::CorruptData),
            },
    {
        let (_, directory) = load_directory(image)?;
        let ghost dir = directory@;
        let mut version_headers: Vec<Version> = Vec::new();
        let mut i: usize = 0;
        while i < directory.directory.len()
            invariant
                i <= dir.len(),
                dir == directory@,
                index_of(image@) == versions_of(image@, dir),
                versions_of(image@, dir.subrange(0, i as int)) == Some(
                    versions_view(version_headers@),
                ),
            decreases directory.directory.len() - i,
        {
            assert(dir.subrange(0, i + 1).drop_last() =~= dir.subrange(0, i as int));
            match load_version(image, directory.directory[i]) {
                None => {
                    proof {
                        lemma_versions_fail_on(image@, dir, i + 1, dir.len() as int);
                        assert(dir.subrange(0, dir.len() as int) =~= dir);
                    }
                    return Err(ArchiveError::CorruptData);
                },
                Some(v) => {
                    let ghost before = version_headers@;
                    version_headers.push(v);
                    assert(versions_view(version_headers@) =~= versions_view(before).push(v@));
                },
            }
            i = i + 1;
        }
        assert(dir.subrange(0, i as int) =~= dir);
        Ok(ReadArchive { image: copy_range(image, 0, image.len()), version_headers })
    }

    /// Appends to `sink` the content of the file at `path` in the version at
    /// position `version` of the directory (0 for the first finished one).
    pub fn file(&self, version: usize, path: &str, sink: &mut Vec<u8>) -> (r: Result<
        (),
        ArchiveError,
    >)
        ensures
            r == Err::<(), ArchiveError>(ArchiveError::NotFound) <==> !self.found(
                version as int,
                path.spec_bytes(),
            ),
            r is Err ==> final(sink)@ == old(sink)@,
            r == Err::<(), ArchiveError>(ArchiveError::CorruptData) <==> (self.found(
                version as int,
                path.spec_bytes(),
            ) && !self.run_inside(version as int, path.spec_bytes())),
            self.found(version as int, path.spec_bytes()) && self.run_inside(
                version as int,
                path.spec_bytes(),
            ) ==> match unlzma_of(self.stored_run(version as int, path.spec_bytes())) {
                Some(out) => r is Ok && final(sink)@ == old(sink)@ + out,
                None => r == Err::<(), ArchiveError>(ArchiveError::CompressionFailure),
            },
            forall|s: Seq<u8>|
                self.found(version as int, path.spec_bytes()) && self.run_inside(
                    version as int,
                    path.spec_bytes(),
                ) && #[trigger] lzma_of(s) == self.stored_run(version as int, path.spec_bytes())
                    ==> r is Ok && final(sink)@ == old(sink)@ + s,
    {
        if version >= self.version_headers.len() {
            return Err(ArchiveError::NotFound);
        }
        let p = path.as_bytes();
        let files = &self.version_headers[version].files;
        let ghost fv = self.index()[version as int].0;
        assert(fv == file_entries_view(files@));
        let i = match find_file(files, p) {
            Some(i) => i,
            None => return Err(ArchiveError::NotFound),
        };
        assert(has_file(fv, p@));
        let ghost c = first_file(fv, p@);
        assert(c == i);
        let start = files[i].1;
        let size = files[i].2.compressed_size;
        if start > self.image.len() || size > (self.image.len() - start) as u64 {
            return Err(ArchiveError::CorruptData);
        }
        let end = start + size as usize;
        let run = copy_range(self.image.as_slice(), start, end);
        match decompress_bytes(run.as_slice()) {
            Some(out) => {
                write_raw(sink, out.as_slice());
                Ok(())
            },
            None => Err(ArchiveError::CompressionFailure),
        }
    }
}

impl Archive {
    /// Opens the current image for reading.
    pub fn reader(&self) -> (r: Result<ReadArchive, ArchiveError>)
        ensures
            match index_of(self.image@) {
                Some(index) => r matches Ok(a) && a.image@ == self.image@ && a.index() == index,
                None => r == Err::<ReadArchive, ArchiveError>(ArchiveError::CorruptData),
            },
    {
        ReadArchive::new(self.image.as_slice())
    }
}

/// Two readers opened on the same image hold the same index.
pub proof fn lemma_reopen_same_index(image: Seq<u8>, a: ReadArchive, b: ReadArchive)
    requires
        index_of(image) == Some(a.index()),
        index_of(image) == Some(b.index()),
    ensures
        a.index() == b.index(),
{
}

/// The last version of an index is the one whose header the last offset
/// of the directory designates.
proof fn lemma_last_version(image: Seq<u8>, dir: Seq<u64>)
    requires
        dir.len() > 0,
        pointed_directory(image) matches Some((_, d)) && d == dir,
    ensures
        index_of(image) matches Some(index) ==> index.last() == version_of(image, dir.last())->0,
{
}

/// Where every entry points at a file header that decodes, the file headers
/// of the entries are those headers, in order.
proof fn lemma_headers_all(image: Seq<u8>, files: Seq<(Seq<u8>, u64)>)
    requires
        forall|i: int|
            0 <= i < files.len() ==> parse_file_header(image, #[trigger] files[i].1 as int) is Some,
    ensures
        headers_of(image, files) matches Some(hs) && hs.len() == files.len() && forall|i: int|
            #![trigger hs[i]]
            0 <= i < files.len() ==> hs[i] == (
                files[i].0,
                (parse_file_header(image, files[i].1 as int)->0).1,
                (parse_file_header(image, files[i].1 as int)->0).0,
            ),
    decreases files.len(),
{
    if files.len() > 0 {
        let init = files.drop_last();
        assert forall|i: int| 0 <= i < init.len() implies parse_file_header(
            image,
            #[trigger] init[i].1 as int,
        ) is Some by {
            assert(init[i] == files[i]);
        }
        lemma_headers_all(image, init);
        assert(files.last() == files[files.len() - 1]);
    }
}

/// Finishing a session yields a version that lists every file appended in
/// it, in order: the header each entry points at, and the compressed run
/// after it, byte for byte as the session wrote them. The directory ends with
/// that version, and it is the last version of the index whenever the index loads.
pub proof fn lemma_version_reads_back(a: AppendArchive)
    requires
        a.wf(),
        fits(a),
    ensures
        ({
            let image = committed_image(a.image@, a.backup_directory@, a.version_header@);
            let off = a.image@.len() as u64;
            let files = a.version_header@.0;
            &&& pointed_directory(image) matches Some((_, dir)) && dir == a.backup_directory@.push(
                off,
            )
            &&& version_of(image, off) matches Some(v) && {
                &&& v.0.len() == files.len()
                &&& v.1 == a.version_header@.1
                &&& v.2 == a.version_header@.2
                &&& forall|i: int|
                    #![trigger v.0[i]]
                    0 <= i < files.len() ==> {
                        &&& v.0[i].0 == files[i].0
                        &&& parse_file_header(a.image@, files[i].1 as int) == Some(
                            (v.0[i].2, v.0[i].1),
                        )
                        &&& image.subrange(v.0[i].1, v.0[i].1 + v.0[i].2.0)
                            == a.image@.subrange(v.0[i].1, v.0[i].1 + v.0[i].2.0)
                    }
            }
            &&& index_of(image) matches Some(index) ==> index.last() == version_of(
                image,
                off,
            )->0
        }),
{
    let img = a.image@;
    let image = committed_image(img, a.backup_directory@, a.version_header@);
    let off = img.len() as u64;
    let files = a.version_header@.0;
    lemma_finish_adds_version(a);
    lemma_committed_keeps(
        img,
        a.backup_directory@,
        a.version_header@,
        POINTER_LEN as int,
        img.len() as int,
    );
    assert(agree(img, image, POINTER_LEN as int, img.len() as int));
    assert forall|i: int|
        0 <= i < files.len() implies parse_file_header(image, #[trigger] files[i].1 as int)
        == parse_file_header(img, files[i].1 as int) && parse_file_header(
        image,
        files[i].1 as int,
    ) is Some by {
        assert(entry_ok(img, files[i]));
        lemma_file_header_frame(img, image, POINTER_LEN as int, img.len() as int, files[i].1 as int);
    }
    lemma_headers_all(image, files);
    let hs = headers_of(image, files)->0;
    assert forall|i: int| #![trigger hs[i]] 0 <= i < files.len() implies image.subrange(
        hs[i].1,
        hs[i].1 + hs[i].2.0,
    ) == img.subrange(hs[i].1, hs[i].1 + hs[i].2.0) by {
        assert(entry_ok(img, files[i]));
        assert(parse_file_header(image, files[i].1 as int) == parse_file_header(
            img,
            files[i].1 as int,
        ));
        lemma_file_header_end(img, files[i].1 as int);
        lemma_committed_keeps(
            img,
            a.backup_directory@,
            a.version_header@,
            hs[i].1,
            hs[i].1 + hs[i].2.0,
        );
    }
    lemma_last_version(image, a.backup_directory@.push(off));
}

/// A snapshot reads back: after `append_snapshot(path, metadata, content)`
/// took session `a` to session `b`, finishing `b` yields a version with a
/// file at `path`, whose header records `metadata` and whose compressed run
/// in the new image is the LZMA stream of `content`.
pub proof fn lemma_snapshot_round_trip(
    a: AppendArchive,
    b: AppendArchive,
    path: Seq<u8>,
    metadata: Metadata,
    content: Seq<u8>,
)
    requires
        a.wf(),
        b.wf(),
        fits(b),
        path.len() <= u64::MAX,
        lzma_of(content).len() <= u64::MAX,
        b.image@ == a.image@ + enc_file_header(
            (lzma_of(content).len() as u64, metadata, path, Contents::Snapshot),
        ) + lzma_of(content),
        b.version_header@ == (
            entries_insert(a.version_header@.0, path, a.image@.len() as u64),
            a.version_header@.1,
            a.version_header@.2,
        ),
        b.backup_directory@ == a.backup_directory@,
    ensures
        ({
            let image = committed_image(b.image@, b.backup_directory@, b.version_header@);
            version_of(image, b.image@.len() as u64) matches Some(v) && {
                let f = v.0[first_file(v.0, path)];
                &&& has_file(v.0, path)
                &&& f.2 == (lzma_of(content).len() as u64, metadata, path, Contents::Snapshot)
                &&& image.subrange(f.1, f.1 + f.2.0) == lzma_of(content)
            }
        }),
{
    let h = (lzma_of(content).len() as u64, metadata, path, Contents::Snapshot);
    let fh = enc_file_header(h);
    let lz = lzma_of(content);
    let d = a.image@.len() as int;
    let bi = b.image@;
    let image = committed_image(bi, b.backup_directory@, b.version_header@);
    let old_files = a.version_header@.0;
    let files = b.version_header@.0;
    let i = if exists|j: int| 0 <= j < old_files.len() && old_files[j].0 == path {
        key_pos(old_files, path)
    } else {
        old_files.len() as int
    };
    assert(0 <= i < files.len() && files[i] == (path, d as u64));
    assert(bi.subrange(d, d + fh.len()) =~= fh);
    lemma_parse_enc_file_header(bi, d, h);
    lemma_version_reads_back(b);
    let v = version_of(image, bi.len() as u64)->0;
    assert(v.0[i].0 == path);
    assert(v.0[i].2 == h && v.0[i].1 == d + fh.len());
    assert(bi.subrange(d + fh.len(), d + fh.len() + lz.len()) =~= lz);
    assert(has_file(v.0, path));
    let c = first_file(v.0, path);
    assert(files[c].0 == path && files[i].0 == path);
    assert(c == i);
}

} // verus!
