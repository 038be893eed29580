use gud_archive::archive::load_directory;
use gud_archive::codec::{write_bytes, write_u32, write_u64};
use gud_archive::format::VersionDirectory;
use gud_archive::serial::{read_version_header, write_directory, write_timestamp};
use gud_archive::{Archive, ArchiveError, Contents, FileType, Metadata, Timestamp, VersionNumber};

fn meta(len: u64) -> Metadata {
    Metadata {
        file_type: FileType::File,
        len,
        read_only: false,
        modified: Some(Timestamp { secs: 1_700_000_000, nanos: 5 }),
        accessed: None,
        created: None,
    }
}

fn add_version(archive: &mut Archive, number: u64, message: &str, files: &[(&str, &[u8])]) {
    let mut appender = archive.appender(VersionNumber { number }, message).unwrap();
    for (path, content) in files {
        appender.append_snapshot(path, meta(content.len() as u64), content).unwrap();
    }
    let image = appender.finish();
    archive.set_image(image);
}

fn read(archive: &Archive, version: usize, path: &str) -> Result<Vec<u8>, ArchiveError> {
    let reader = archive.reader().unwrap();
    let mut sink = Vec::new();
    reader.file(version, path, &mut sink).map(|()| sink)
}

#[test]
fn concrete_two_version_scenario() {
    let mut archive = Archive::new("test.archive");
    archive.create();
    add_version(&mut archive, 0, "first", &[("a.txt", b"hello"), ("b.txt", b"world")]);
    add_version(&mut archive, 1, "second", &[("a.txt", b"hello2")]);
    assert_eq!(read(&archive, 0, "a.txt").unwrap(), b"hello".to_vec());
    assert_eq!(read(&archive, 0, "b.txt").unwrap(), b"world".to_vec());
    assert_eq!(read(&archive, 1, "a.txt").unwrap(), b"hello2".to_vec());
    assert_eq!(read(&archive, 1, "b.txt"), Err(ArchiveError::NotFound));
}

#[test]
fn versions_are_isolated() {
    let mut archive = Archive::new("iso.archive");
    archive.create();
    add_version(&mut archive, 0, "one", &[("a.txt", b"v1")]);
    add_version(&mut archive, 1, "two", &[("a.txt", b"v2")]);
    assert_eq!(read(&archive, 0, "a.txt").unwrap(), b"v1".to_vec());
    assert_eq!(read(&archive, 1, "a.txt").unwrap(), b"v2".to_vec());
}

#[test]
fn content_round_trips() {
    let big: Vec<u8> = (0..20_000u32).map(|i| (i * 7 % 251) as u8).collect();
    let contents: Vec<Vec<u8>> = vec![Vec::new(), vec![0u8], vec![255u8; 3], big];
    let mut archive = Archive::new("rt.archive");
    archive.create();
    for (i, c) in contents.iter().enumerate() {
        add_version(&mut archive, i as u64, "v", &[("dir/file.bin", c.as_slice())]);
    }
    for (i, c) in contents.iter().enumerate() {
        assert_eq!(&read(&archive, i, "dir/file.bin").unwrap(), c);
    }
}

#[test]
fn read_appends_to_sink() {
    let mut archive = Archive::new("sink.archive");
    archive.create();
    add_version(&mut archive, 0, "m", &[("x", b"abc")]);
    let reader = archive.reader().unwrap();
    let mut sink = b"pre-".to_vec();
    reader.file(0, "x", &mut sink).unwrap();
    assert_eq!(sink, b"pre-abc".to_vec());
}

#[test]
fn directory_grows_by_one_per_finish() {
    let mut archive = Archive::new("grow.archive");
    archive.create();
    let (_, dir) = load_directory(archive.image.as_slice()).unwrap();
    assert_eq!(dir.directory().len(), 0);
    for n in 1..=4u64 {
        add_version(&mut archive, 100 + n, "msg", &[("f", b"data")]);
        let (_, dir) = load_directory(archive.image.as_slice()).unwrap();
        assert_eq!(dir.directory().len() as u64, n);
        let mut previous = 0u64;
        for (k, off) in dir.directory().iter().enumerate() {
            assert!(*off > previous);
            previous = *off;
            let (header, _) = read_version_header(archive.image.as_slice(), *off as usize).unwrap();
            assert_eq!(header.number.number, 101 + k as u64);
        }
    }
}

#[test]
fn absolute_path_is_rejected() {
    let mut archive = Archive::new("abs.archive");
    archive.create();
    let mut appender = archive.appender(VersionNumber { number: 1 }, "m").unwrap();
    appender.append_snapshot("a.txt", meta(1), b"a").unwrap();
    let before = appender.image.clone();
    let files_before = appender.version_header.files.len();
    assert_eq!(
        appender.append_snapshot("/etc/passwd", meta(1), b"b"),
        Err(ArchiveError::InvalidPath)
    );
    assert_eq!(appender.image, before);
    assert_eq!(appender.version_header.files.len(), files_before);
}

#[test]
fn out_of_range_and_missing_reads() {
    let mut archive = Archive::new("missing.archive");
    archive.create();
    add_version(&mut archive, 0, "m", &[("a.txt", b"hello")]);
    let reader = archive.reader().unwrap();
    let mut sink = b"keep".to_vec();
    assert_eq!(reader.file(1, "a.txt", &mut sink), Err(ArchiveError::NotFound));
    assert_eq!(reader.file(0, "nope.txt", &mut sink), Err(ArchiveError::NotFound));
    assert_eq!(sink, b"keep".to_vec());
}

#[test]
fn empty_archive_has_no_versions() {
    let mut archive = Archive::new("empty.archive");
    archive.create();
    let reader = archive.reader().unwrap();
    assert_eq!(reader.version_headers.len(), 0);
    let mut sink = Vec::new();
    assert_eq!(reader.file(0, "a", &mut sink), Err(ArchiveError::NotFound));
}

#[test]
fn reopening_gives_identical_index() {
    let mut archive = Archive::new("reopen.archive");
    archive.create();
    add_version(&mut archive, 3, "first", &[("a", b"1"), ("b", b"2")]);
    add_version(&mut archive, 4, "second", &[("b", b"3")]);
    let one = archive.reader().unwrap();
    let two = archive.reader().unwrap();
    assert_eq!(format!("{:?}", one.version_headers), format!("{:?}", two.version_headers));
    assert_eq!(one.version_headers[0].message, b"first".to_vec());
    assert_eq!(one.version_headers[1].number.number, 4);
}

#[test]
fn same_path_twice_keeps_one_entry() {
    let mut archive = Archive::new("twice.archive");
    archive.create();
    add_version(&mut archive, 0, "m", &[("a", b"old"), ("a", b"new")]);
    let reader = archive.reader().unwrap();
    assert_eq!(reader.version_headers[0].files.len(), 1);
    assert_eq!(read(&archive, 0, "a").unwrap(), b"new".to_vec());
}

#[test]
fn new_archive_layout() {
    let mut archive = Archive::new("layout.archive");
    archive.create();
    let mut expected = 8u64.to_le_bytes().to_vec();
    expected.extend_from_slice(&0u64.to_le_bytes());
    assert_eq!(archive.image, expected);
    assert_eq!(archive.path, "layout.archive");
}

#[test]
fn corrupt_pointer_is_reported() {
    let mut archive = Archive::new("bad.archive");
    archive.set_image(vec![1, 2, 3]);
    assert!(matches!(archive.reader(), Err(ArchiveError::CorruptData)));
    assert!(matches!(
        archive.appender(VersionNumber { number: 0 }, "m"),
        Err(ArchiveError::CorruptData)
    ));
    let mut image = 200u64.to_le_bytes().to_vec();
    image.extend_from_slice(&0u64.to_le_bytes());
    archive.set_image(image);
    assert!(matches!(archive.reader(), Err(ArchiveError::CorruptData)));
}

#[test]
fn truncated_run_is_corrupt_data() {
    let mut archive = Archive::new("trunc.archive");
    archive.create();
    add_version(&mut archive, 0, "m", &[("a", b"hello")]);
    let mut reader = archive.reader().unwrap();
    reader.version_headers[0].files[0].2.compressed_size = 1_000_000;
    let mut sink = Vec::new();
    assert_eq!(reader.file(0, "a", &mut sink), Err(ArchiveError::CorruptData));
    assert!(sink.is_empty());
}

#[test]
fn damaged_run_is_compression_failure() {
    let mut archive = Archive::new("damaged.archive");
    archive.create();
    add_version(&mut archive, 0, "m", &[("a", b"hello hello hello")]);
    let mut reader = archive.reader().unwrap();
    let start = reader.version_headers[0].files[0].1;
    reader.image[start] = 0xff;
    let mut sink = Vec::new();
    assert_eq!(reader.file(0, "a", &mut sink), Err(ArchiveError::CompressionFailure));
    assert!(sink.is_empty());
}

#[test]
fn content_is_stored_compressed() {
    let content = vec![b'a'; 50_000];
    let mut archive = Archive::new("small.archive");
    archive.create();
    add_version(&mut archive, 0, "m", &[("a", content.as_slice())]);
    assert!(archive.image.len() < 5_000);
    let reader = archive.reader().unwrap();
    let size = reader.version_headers[0].files[0].2.compressed_size as usize;
    assert!(size < 5_000);
    assert_eq!(read(&archive, 0, "a").unwrap(), content);
}

#[test]
fn integers_match_bincode() {
    for x in [0u64, 1, 8, 255, 256, 0x0102_0304_0506_0708, u64::MAX] {
        let mut out = Vec::new();
        write_u64(&mut out, x);
        assert_eq!(out, bincode::serialize(&x).unwrap());
    }
    for x in [0u32, 7, 0xdead_beef, u32::MAX] {
        let mut out = Vec::new();
        write_u32(&mut out, x);
        assert_eq!(out, bincode::serialize(&x).unwrap());
    }
}

#[test]
fn strings_and_directories_match_bincode() {
    let mut out = Vec::new();
    write_bytes(&mut out, b"a.txt");
    assert_eq!(out, bincode::serialize("a.txt").unwrap());
    let offsets = vec![8u64, 120, 4096];
    let mut out = Vec::new();
    write_directory(&mut out, &VersionDirectory { directory: offsets.clone() });
    assert_eq!(out, bincode::serialize(&offsets).unwrap());
}

#[test]
fn timestamps_match_bincode() {
    let t = Timestamp { secs: 1_234_567_890, nanos: 999 };
    let mut out = Vec::new();
    write_timestamp(&mut out, Some(t));
    assert_eq!(out, bincode::serialize(&Some((t.secs, t.nanos))).unwrap());
    let mut out = Vec::new();
    write_timestamp(&mut out, None);
    assert_eq!(out, bincode::serialize(&None::<(u64, u32)>).unwrap());
}

#[test]
fn stored_header_keeps_metadata_and_path() {
    let mut archive = Archive::new("meta.archive");
    archive.create();
    add_version(&mut archive, 9, "with metadata", &[("sub/a.txt", b"hello")]);
    let reader = archive.reader().unwrap();
    let version = &reader.version_headers[0];
    assert_eq!(version.number.number, 9);
    assert_eq!(version.message, b"with metadata".to_vec());
    let (path, _, header) = &version.files[0];
    assert_eq!(path, &b"sub/a.txt".to_vec());
    assert_eq!(header.path, b"sub/a.txt".to_vec());
    assert_eq!(header.metadata, meta(5));
    assert_eq!(header.contents, Contents::Snapshot);
}
