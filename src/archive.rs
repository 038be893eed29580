//! The archive image and its append engine.
//!
//! An image starts with the archive pointer: the offset, as a `u64`, of the
//! current version directory, which is the last thing in the image. Each
//! finished version adds its files (header, then compressed bytes), its
//! version header, and a new directory written where the old one stood.
use crate::codec::{
    lemma_split, copy_range, enc_u64, lemma_parse_enc_u64, parse_u64, read_u64, write_raw,
};
use crate::compress::{compress_bytes, lzma_of};
use crate::format::{
    enc_directory, enc_file_header, enc_version_header, entries_view, lemma_enc_u64s_len, lemma_parse_enc_directory,
    lemma_parse_enc_version_header, lemma_file_header_frame, lemma_parse_enc_file_header, agree,
    parse_file_header, parse_directory, parse_version_header, Contents,
    FileHeader, Metadata, VersionDirectory, VersionHeader, VersionNumber,
};
use crate::index::{entries_insert, key_pos, unique_keys};
use crate::serial::{read_directory, write_directory, write_file_header, write_version_header};
use vstd::prelude::*;
use vstd::string::StringSliceAdditionalSpecFns;

verus! {

/// The ways an archive operation can fail.
#[derive(PartialEq, Eq, Structural, Clone, Copy, Debug)]
pub enum ArchiveError {
    /// An appended path is absolute.
    InvalidPath,
    /// Reading or writing the archive or a source file failed.
    Io,
    /// A structure in the image does not decode, or points outside the image.
    CorruptData,
    /// The version index or the path is not in the archive.
    NotFound,
    /// Compressing or decompressing file content failed.
    CompressionFailure,
}

/// Length of the archive pointer at the start of the image.
pub const POINTER_LEN: usize = 8;

/// A path is absolute when it starts at the root.
pub open spec fn is_absolute(path: Seq<u8>) -> bool {
    path.len() > 0 && path[0] == 47u8
}

/// The image of a new archive: a pointer to the empty directory right after it.
pub open spec fn initial_image() -> Seq<u8> {
    enc_u64(POINTER_LEN as u64) + enc_directory(Seq::<u64>::empty())
}

/// The offset and contents of the directory that the pointer designates, when
/// the pointer lies past itself and inside the image and a directory decodes there.
pub open spec fn pointed_directory(image: Seq<u8>) -> Option<(int, Seq<u64>)> {
    match parse_u64(image, 0) {
        Some((d, _)) => if POINTER_LEN <= d <= image.len() {
            match parse_directory(image, d as int) {
                Some((dir, _)) => Some((d as int, dir)),
                None => None,
            }
        } else {
            None
        },
        None => None,
    }
}

/// `image` with its first eight bytes replaced by the encoding of `p`.
pub open spec fn with_pointer(image: Seq<u8>, p: u64) -> Seq<u8> {
    enc_u64(p) + image.subrange(POINTER_LEN as int, image.len() as int)
}

/// The image after a version is finished: the version header at the end of
/// the written files, the directory with the header's offset added right
/// after it, and the pointer set to that directory.
#[verifier::opaque]
pub open spec fn committed_image(
    image: Seq<u8>,
    directory: Seq<u64>,
    header: (Seq<(Seq<u8>, u64)>, u64, Seq<u8>),
) -> Seq<u8> {
    let body = image + enc_version_header(header);
    with_pointer(body + enc_directory(directory.push(image.len() as u64)), body.len() as u64)
}

/// An entry of a file map points past the archive pointer at a file header
/// that decodes, and the compressed run after it lies inside the image.
pub open spec fn entry_ok(image: Seq<u8>, f: (Seq<u8>, u64)) -> bool {
    &&& POINTER_LEN <= f.1
    &&& parse_file_header(image, f.1 as int) matches Some((h, e)) && e + h.0 <= image.len()
}

pub open spec fn entries_ok(image: Seq<u8>, files: Seq<(Seq<u8>, u64)>) -> bool {
    forall|i: int| 0 <= i < files.len() ==> #[trigger] entry_ok(image, files[i])
}

proof fn lemma_entries_ok_extend(old_image: Seq<u8>, image: Seq<u8>, files: Seq<(Seq<u8>, u64)>)
    requires
        entries_ok(old_image, files),
        old_image.len() <= image.len(),
        image.subrange(0, old_image.len() as int) == old_image,
    ensures
        entries_ok(image, files),
        forall|i: int|
            #![trigger files[i]]
            0 <= i < files.len() ==> parse_file_header(image, files[i].1 as int)
                == parse_file_header(old_image, files[i].1 as int),
{
    assert(old_image.subrange(0, old_image.len() as int) =~= old_image);
    assert(agree(old_image, image, 0, old_image.len() as int));
    assert forall|i: int|
        #![trigger files[i]]
        0 <= i < files.len() implies entry_ok(image, files[i]) && parse_file_header(
        image,
        files[i].1 as int,
    ) == parse_file_header(old_image, files[i].1 as int) by {
        assert(entry_ok(old_image, files[i]));
        lemma_file_header_frame(old_image, image, 0, old_image.len() as int, files[i].1 as int);
    }
}

proof fn lemma_entries_ok_insert(image: Seq<u8>, files: Seq<(Seq<u8>, u64)>, k: Seq<u8>, v: u64)
    requires
        entries_ok(image, files),
        entry_ok(image, (k, v)),
    ensures
        entries_ok(image, entries_insert(files, k, v)),
{
    let r = entries_insert(files, k, v);
    if exists|i: int| 0 <= i < files.len() && files[i].0 == k {
        let c = key_pos(files, k);
        assert(r == files.update(c, (k, v)));
        assert forall|i: int| 0 <= i < r.len() implies #[trigger] entry_ok(image, r[i]) by {
            if i != c {
                assert(r[i] == files[i]);
            }
        }
    } else {
        assert forall|i: int| 0 <= i < r.len() implies #[trigger] entry_ok(image, r[i]) by {
            if i < files.len() {
                assert(r[i] == files[i]);
            }
        }
    }
}

/// Reads the archive pointer and the directory it designates.
pub fn load_directory(image: &[u8]) -> (r: Result<(usize, VersionDirectory), ArchiveError>)
    ensures
        match r {
            Ok((d, dir)) => pointed_directory(image@) == Some((d as int, dir@)),
            Err(e) => e == ArchiveError::CorruptData && pointed_directory(image@) is None,
        },
{
    let (d, _) = match read_u64(image, 0) {
        Some(x) => x,
        None => return Err(ArchiveError::CorruptData),
    };
    if d < POINTER_LEN as u64 || d > image.len() as u64 {
        return Err(ArchiveError::CorruptData);
    }
    match read_directory(image, d as usize) {
        Some((dir, _)) => Ok((d as usize, dir)),
        None => Err(ArchiveError::CorruptData),
    }
}

/// Overwrites the archive pointer at the start of `out`.
fn set_pointer(out: &mut Vec<u8>, p: u64)
    requires
        old(out)@.len() >= POINTER_LEN,
    ensures
        final(out)@ == with_pointer(old(out)@, p),
{
    out.set(0, (p & 0xff) as u8);
    out.set(1, ((p >> 8u64) & 0xff) as u8);
    out.set(2, ((p >> 16u64) & 0xff) as u8);
    out.set(3, ((p >> 24u64) & 0xff) as u8);
    out.set(4, ((p >> 32u64) & 0xff) as u8);
    out.set(5, ((p >> 40u64) & 0xff) as u8);
    out.set(6, ((p >> 48u64) & 0xff) as u8);
    out.set(7, ((p >> 56u64) & 0xff) as u8);
    assert(final(out)@ =~= with_pointer(old(out)@, p));
}

/// A session that adds one version to an archive image.
///
/// `image` holds everything before the old directory; new files are written
/// at its end, which is where the old directory stood.
pub struct AppendArchive {
    pub image: Vec<u8>,
    pub backup_directory: VersionDirectory,
    pub version_header: VersionHeader,
}

impl AppendArchive {
    pub open spec fn wf(&self) -> bool {
        &&& self.image@.len() >= POINTER_LEN
        &&& unique_keys(self.version_header@.0)
        &&& entries_ok(self.image@, self.version_header@.0)
    }

    /// Starts a version with the given number and message on `image`: loads
    /// the directory, keeps it, and drops it from the image so that new
    /// content is written in its place.
    pub fn new(image: &[u8], number: VersionNumber, message: &str) -> (r: Result<
        AppendArchive,
        ArchiveError,
    >)
        ensures
            r is Ok <==> pointed_directory(image@) is Some,
            r matches Err(e) ==> e == ArchiveError::CorruptData,
            r matches Ok(a) ==> {
                &&& a.wf()
                &&& pointed_directory(image@) == Some(
                    (a.image@.len() as int, a.backup_directory@),
                )
                &&& a.image@ == image@.subrange(0, a.image@.len() as int)
                &&& a.version_header@ == (
                    Seq::<(Seq<u8>, u64)>::empty(),
                    number.number,
                    message.spec_bytes(),
                )
            },
    {
        let (d, backup_directory) = load_directory(image)?;
        let bytes = message.as_bytes();
        let version_header = VersionHeader::new(number, copy_range(bytes, 0, bytes.len()));
        Ok(AppendArchive { image: copy_range(image, 0, d), backup_directory, version_header })
    }

    /// Adds the file at the relative `path`, with the given metadata and
    /// content, to the version: its header with the compressed size, then
    /// the compressed content, at the end of the image. Where the version
    /// already has the path, the new header replaces it in the file map.
    pub fn append_snapshot(&mut self, path: &str, metadata: Metadata, content: &[u8]) -> (r:
        Result<(), ArchiveError>)
        requires
            old(self).wf(),
        ensures
            final(self).wf(),
            is_absolute(path.spec_bytes()) ==> r == Err::<(), ArchiveError>(
                ArchiveError::InvalidPath,
            ),
            !is_absolute(path.spec_bytes()) ==> r is Ok,
            r is Err ==> *final(self) == *old(self),
            r is Ok ==> {
                &&& final(self).image@ == old(self).image@ + enc_file_header(
                    (
                        lzma_of(content@).len() as u64,
                        metadata,
                        path.spec_bytes(),
                        Contents::Snapshot,
                    ),
                ) + lzma_of(content@)
                &&& final(self).version_header@ == (
                    entries_insert(
                        old(self).version_header@.0,
                        path.spec_bytes(),
                        old(self).image@.len() as u64,
                    ),
                    old(self).version_header@.1,
                    old(self).version_header@.2,
                )
                &&& final(self).backup_directory@ == old(self).backup_directory@
            },
    {
        let p = path.as_bytes();
        if p.len() > 0 && p[0] == 47u8 {
            return Err(ArchiveError::InvalidPath);
        }
        let compressed = compress_bytes(content).unwrap();
        let position = self.image.len() as u64;
        let mut header = FileHeader::new(p, metadata, Contents::Snapshot);
        header.compressed_size = compressed.len() as u64;
        let ghost old_image = self.image@;
        write_file_header(&mut self.image, &header);
        write_raw(&mut self.image, compressed.as_slice());
        proof {
            let img = self.image@;
            let fh = enc_file_header(header@);
            assert(img.subrange(0, old_image.len() as int) =~= old_image);
            lemma_entries_ok_extend(old_image, img, self.version_header@.0);
            assert(img.subrange(
                old_image.len() as int,
                (old_image.len() + fh.len()) as int,
            ) =~= fh);
            lemma_parse_enc_file_header(img, old_image.len() as int, header@);
            assert(entry_ok(img, (p@, position)));
            lemma_entries_ok_insert(img, self.version_header@.0, p@, position);
        }
        self.version_header.insert(p, position);
        Ok(())
    }

    /// Finishes the version: writes its header, then the directory with the
    /// header's offset added, and points the archive at that directory.
    /// Returns the new image.
    pub fn finish(self) -> (r: Vec<u8>)
        requires
            self.wf(),
        ensures
            r@ == committed_image(self.image@, self.backup_directory@, self.version_header@),
    {
        proof {
            reveal(committed_image);
        }
        let mut image = self.image;
        let mut directory = self.backup_directory;
        let version_header_offset = image.len() as u64;
        write_version_header(&mut image, &self.version_header);
        let directory_offset = image.len() as u64;
        directory.add(version_header_offset);
        write_directory(&mut image, &directory);
        set_pointer(&mut image, directory_offset);
        image
    }
}

/// An archive: where it is kept, and its current image.
pub struct Archive {
    pub path: String,
    pub image: Vec<u8>,
}

impl Archive {
    /// An archive kept at `path`, with an empty image until one is created or set.
    pub fn new(path: &str) -> (r: Archive)
        ensures
            r.path@ == path@,
            r.image@ == Seq::<u8>::empty(),
    {
        Archive { path: path.to_owned(), image: Vec::new() }
    }

    /// Replaces the image by that of an archive with no versions.
    pub fn create(&mut self)
        ensures
            final(self).image@ == initial_image(),
            final(self).path == old(self).path,
    {
        let mut image: Vec<u8> = Vec::new();
        crate::codec::write_u64(&mut image, POINTER_LEN as u64);
        write_directory(&mut image, &VersionDirectory::new());
        self.image = image;
    }

    /// Starts a version with the given number and message.
    pub fn appender(&self, number: VersionNumber, message: &str) -> (r: Result<
        AppendArchive,
        ArchiveError,
    >)
        ensures
            r is Ok <==> pointed_directory(self.image@) is Some,
            r matches Err(e) ==> e == ArchiveError::CorruptData,
            r matches Ok(a) ==> {
                &&& a.wf()
                &&& pointed_directory(self.image@) == Some(
                    (a.image@.len() as int, a.backup_directory@),
                )
                &&& a.image@ == self.image@.subrange(0, a.image@.len() as int)
                &&& a.version_header@ == (
                    Seq::<(Seq<u8>, u64)>::empty(),
                    number.number,
                    message.spec_bytes(),
                )
            },
    {
        AppendArchive::new(self.image.as_slice(), number, message)
    }

    /// Takes `image` as the archive's current image.
    pub fn set_image(&mut self, image: Vec<u8>)
        ensures
            final(self).image == image,
            final(self).path == old(self).path,
    {
        self.image = image;
    }
}

/// The sizes that the encodings of a session's finished version can hold:
/// every length fits in a `u64`, and so does the length of the new image.
pub open spec fn fits(a: AppendArchive) -> bool {
    let h = a.version_header@;
    &&& h.0.len() <= u64::MAX
    &&& h.2.len() <= u64::MAX
    &&& forall|i: int| 0 <= i < h.0.len() ==> (#[trigger] h.0[i]).0.len() <= u64::MAX
    &&& a.image@.len() + enc_version_header(h).len() + enc_directory(
        a.backup_directory@.push(0),
    ).len() <= u64::MAX
}

/// Finishing leaves the written bytes after the pointer as they were.
pub proof fn lemma_committed_keeps(
    image: Seq<u8>,
    directory: Seq<u64>,
    header: (Seq<(Seq<u8>, u64)>, u64, Seq<u8>),
    x: int,
    y: int,
)
    requires
        POINTER_LEN <= x <= y <= image.len(),
    ensures
        committed_image(image, directory, header).subrange(x, y) == image.subrange(x, y),
{
    reveal(committed_image);
    let body = image + enc_version_header(header);
    let full = body + enc_directory(directory.push(image.len() as u64));
    assert(committed_image(image, directory, header).subrange(x, y) =~= full.subrange(x, y));
    assert(full.subrange(x, y) =~= image.subrange(x, y));
}

/// A new archive has a directory, and it is empty.
pub proof fn lemma_created_directory_empty()
    ensures
        pointed_directory(initial_image()) == Some((POINTER_LEN as int, Seq::<u64>::empty())),
{
    let img = initial_image();
    assert(img.subrange(0, img.len() as int) =~= img);
    lemma_split(img, 0, enc_u64(POINTER_LEN as u64), enc_directory(Seq::<u64>::empty()));
    lemma_parse_enc_u64(img, 0, POINTER_LEN as u64);
    lemma_parse_enc_directory(img, POINTER_LEN as int, Seq::<u64>::empty());
}

/// Finishing a version grows the directory by exactly one offset, at its
/// end, and the version header decodes at that offset.
pub proof fn lemma_finish_adds_version(a: AppendArchive)
    requires
        a.wf(),
        fits(a),
    ensures
        ({
            let image = committed_image(a.image@, a.backup_directory@, a.version_header@);
            let off = a.image@.len() as int;
            let dir_off = off + enc_version_header(a.version_header@).len();
            &&& pointed_directory(image) == Some(
                (dir_off, a.backup_directory@.push(off as u64)),
            )
            &&& parse_version_header(image, off) == Some((a.version_header@, dir_off))
        }),
{
    let img = a.image@;
    let vh = enc_version_header(a.version_header@);
    let dir = a.backup_directory@.push(img.len() as u64);
    let ed = enc_directory(dir);
    let body = img + vh;
    let full = body + ed;
    let j = committed_image(img, a.backup_directory@, a.version_header@);
    reveal(committed_image);
    assert(j == with_pointer(full, body.len() as u64));
    lemma_enc_u64s_len(dir);
    lemma_enc_u64s_len(a.backup_directory@.push(0));
    assert(ed.len() == enc_directory(a.backup_directory@.push(0)).len());
    assert(j.len() == full.len());
    assert(j.subrange(0, 8) =~= enc_u64(body.len() as u64));
    lemma_parse_enc_u64(j, 0, body.len() as u64);
    assert(j.subrange(body.len() as int, (body.len() + ed.len()) as int) =~= ed);
    lemma_parse_enc_directory(j, body.len() as int, dir);
    assert(j.subrange(img.len() as int, (img.len() + vh.len()) as int) =~= vh);
    lemma_parse_enc_version_header(j, img.len() as int, a.version_header@);
}

/// Directory growth over many sessions: starting from a new archive, where
/// session `k` starts on the image that `images[k]` holds (so its kept
/// directory is the one that image designates) and finishing it gives
/// `images[k + 1]`, the last image's directory holds exactly one offset per
/// session, that of each session's version header, in the order they finished.
pub proof fn lemma_directory_after_sessions(sessions: Seq<AppendArchive>, images: Seq<Seq<u8>>)
    requires
        images.len() == sessions.len() + 1,
        images[0] == initial_image(),
        forall|k: int|
            #![trigger sessions[k]]
            0 <= k < sessions.len() ==> {
                &&& sessions[k].wf()
                &&& fits(sessions[k])
                &&& pointed_directory(images[k]) is Some
                &&& (pointed_directory(images[k])->0).1 == sessions[k].backup_directory@
                &&& images[k + 1] == committed_image(
                    sessions[k].image@,
                    sessions[k].backup_directory@,
                    sessions[k].version_header@,
                )
            },
    ensures
        pointed_directory(images.last()) is Some,
        (pointed_directory(images.last())->0).1.len() == sessions.len(),
        forall|k: int|
            0 <= k < sessions.len() ==> (pointed_directory(images.last())->0).1[k] == (
            #[trigger] sessions[k]).image@.len() as u64,
    decreases sessions.len(),
{
    let n = sessions.len() as int;
    if n == 0 {
        lemma_created_directory_empty();
    } else {
        let init = sessions.drop_last();
        let imgs = images.drop_last();
        assert forall|k: int| #![trigger init[k]] 0 <= k < init.len() implies {
            &&& init[k].wf()
            &&& fits(init[k])
            &&& pointed_directory(imgs[k]) is Some
            &&& (pointed_directory(imgs[k])->0).1 == init[k].backup_directory@
            &&& imgs[k + 1] == committed_image(
                init[k].image@,
                init[k].backup_directory@,
                init[k].version_header@,
            )
        } by {
            assert(init[k] == sessions[k]);
        }
        lemma_directory_after_sessions(init, imgs);
        assert(imgs.last() == images[n - 1]);
        let last = sessions[n - 1];
        lemma_finish_adds_version(last);
        assert forall|k: int| 0 <= k < n implies (pointed_directory(images.last())->0).1[k] == (
        #[trigger] sessions[k]).image@.len() as u64 by {
            if k < n - 1 {
                assert(init[k] == sessions[k]);
            }
        }
    }
}

} // verus!
