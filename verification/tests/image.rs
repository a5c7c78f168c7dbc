use distill_fs::backend::{Backend, CHUNK_SIZE};
use distill_fs::checksum::{CheckSum, CheckSumMethod};
use distill_fs::error::{Error, ErrorKind};
use distill_fs::image::nydus::{
    blob_access, blob_cache_path, check_backend_config, check_image, check_read_range,
    chunk_decode, chunk_part, decompressed_data, inode_fix, name_target, plain_data, plan_chunk, read_blob_range,
    to_rafs_ino, to_shown_ino, xattr_names, xattr_value, BlobAccess, ChunkDecode,
    ChunkDesc, ChunkPlan,
    ChunkReadAction, ChunkReadEvent, ChunkReadPlan, ChunkReadTask, FileRead, NameTarget,
    RangeFault, StoreBatch, StoreDrops, XattrReply, CHUNK_STORE_BATCH_SIZE,
};
use distill_fs::image::raw::{EntryName, RawImage, ReadPlan, IMAGE_FILE_ID};
use distill_fs::image::{Refusal, ROOT_ID};
use distill_fs::utils::now_epoch_secs;
use std::sync::Arc;

struct MockSuccessBackend {
    content: Vec<u8>,
}

impl Backend for MockSuccessBackend {
    fn size(&self) -> u64 {
        self.content.len() as u64
    }

    fn fetch(&self, off: usize, data: &mut [u8]) -> Result<usize, Error> {
        let end = off + data.len();
        if off >= self.content.len() {
            return Ok(0);
        }
        let src = &self.content[off..std::cmp::min(end, self.content.len())];
        let len = src.len();
        data[..len].copy_from_slice(src);
        Ok(len)
    }
}

struct MockFailureBackend;

impl Backend for MockFailureBackend {
    fn size(&self) -> u64 {
        0
    }

    fn fetch(&self, _off: usize, _data: &mut [u8]) -> Result<usize, Error> {
        Err(Error::new(ErrorKind::PermissionDenied, "mock access denied"))
    }
}

#[test]
fn test_raw_image_new() {
    let backend = Arc::new(MockSuccessBackend { content: vec![] });
    let name = "test_image";
    let before = std::time::SystemTime::now()
        .duration_since(std::time::UNIX_EPOCH)
        .unwrap()
        .as_secs();

    let image = RawImage::new(name, backend, now_epoch_secs());

    assert_eq!(image.file_name(), name);
    assert_eq!(image.size(), 0);
    assert!(
        image.root_attr().time >= before,
        "Creation time should be recent"
    );
}

#[test]
fn test_backend_trait_size() {
    let expected_size = 4096;
    let backend = Arc::new(MockSuccessBackend {
        content: vec![0u8; expected_size],
    });
    let image = RawImage::new("size_test", backend, 0);

    assert_eq!(image.size(), expected_size as u64);
}

#[test]
fn test_fetch_delegates_to_successful_backend() {
    let mock_content = vec![10, 20, 30, 40, 50];
    let backend = Arc::new(MockSuccessBackend {
        content: mock_content.clone(),
    });
    let image = RawImage::new("success_fetch", backend, 0);
    let mut buffer = [0u8; 5];

    let result = image.fetch(0, &mut buffer);

    assert!(result.is_ok());
    assert_eq!(result.unwrap(), 5);
    assert_eq!(buffer, mock_content.as_slice());
}

#[test]
fn test_fetch_delegates_to_failing_backend() {
    let backend = Arc::new(MockFailureBackend);
    let image = RawImage::new("failure_fetch", backend, 0);
    let mut buffer = [0u8; 10];

    let result = image.fetch(0, &mut buffer);

    assert!(result.is_err());
    let err = result.unwrap_err();
    assert_eq!(err.kind, ErrorKind::PermissionDenied);
    assert_eq!(err.message, "mock access denied");
}

fn raw_image(size: usize) -> RawImage<MockSuccessBackend> {
    let content = (0..size).map(|i| (i % 256) as u8).collect();
    RawImage::new("img", MockSuccessBackend { content }, 77)
}

#[test]
fn a_read_is_planned_and_served() {
    let image = raw_image(128);
    assert_eq!(image.plan_read(IMAGE_FILE_ID, 32, 8), ReadPlan::Read(32));
    let mut buf = [0u8; 32];
    assert_eq!(image.fetch(8, &mut buf).unwrap(), 32);
    assert_eq!(buf.to_vec(), (8..40).collect::<Vec<u8>>());
    assert_eq!(image.plan_read(IMAGE_FILE_ID, 32, 120), ReadPlan::Read(8));
    assert_eq!(image.plan_read(IMAGE_FILE_ID, 0, 0), ReadPlan::Nothing);
    assert_eq!(image.plan_read(IMAGE_FILE_ID, 1, 128), ReadPlan::Nothing);
    assert_eq!(
        image.plan_read(ROOT_ID, 1, 0),
        ReadPlan::Refuse(Refusal::Invalid)
    );
    assert_eq!(image.plan_read(IMAGE_FILE_ID, 9, u64::MAX), ReadPlan::Nothing);
}

#[test]
fn attributes_tell_the_size_in_blocks() {
    let image = raw_image(5000);
    let attr = image.get_inode_entry(IMAGE_FILE_ID).unwrap();
    assert_eq!((attr.size, attr.blocks, attr.mode), (5000, 16, 0o100644));
    assert_eq!((attr.nlink, attr.blksize, attr.time), (1, 4096, 77));
    let root = image.get_inode_entry(ROOT_ID).unwrap();
    assert_eq!((root.size, root.blocks, root.mode), (4096, 8, 0o040755));
    assert!(image.get_inode_entry(3).is_none());
}

#[test]
fn names_lead_to_files() {
    let image = raw_image(1);
    assert_eq!(image.lookup(ROOT_ID, b"."), Ok(ROOT_ID));
    assert_eq!(image.lookup(ROOT_ID, b".."), Ok(ROOT_ID));
    assert_eq!(image.lookup(ROOT_ID, b"img"), Ok(IMAGE_FILE_ID));
    assert_eq!(image.lookup(ROOT_ID, b"im"), Err(Refusal::NotFound));
    assert_eq!(image.lookup(IMAGE_FILE_ID, b"img"), Err(Refusal::NotFound));
}

#[test]
fn the_directory_is_read_in_pieces() {
    let image = raw_image(1);
    let all = image.plan_readdir(ROOT_ID, 100, 0).unwrap();
    assert_eq!(all.len(), 3);
    assert_eq!(all[2].name, EntryName::Image);
    for entry in &all {
        let rest = image.plan_readdir(ROOT_ID, 100, entry.offset).unwrap();
        assert_eq!(rest, all[entry.offset as usize..].to_vec());
    }
    assert!(image.plan_readdir(ROOT_ID, 0, 0).unwrap().is_empty());
    assert_eq!(
        image.plan_readdir(IMAGE_FILE_ID, 1, 0),
        Err(Refusal::Invalid)
    );
}

struct DripBackend {
    content: Vec<u8>,
    step: usize,
}

impl Backend for DripBackend {
    fn size(&self) -> u64 {
        self.content.len() as u64
    }

    fn fetch(&self, off: usize, data: &mut [u8]) -> Result<usize, Error> {
        let n = data.len().min(self.step).min(self.content.len() - off);
        data[..n].copy_from_slice(&self.content[off..off + n]);
        Ok(n)
    }
}

#[test]
fn blobs_are_read_in_as_many_reads_as_it_takes() {
    let content: Vec<u8> = (0..100).collect();
    let b = DripBackend { content, step: 7 };
    assert_eq!(
        read_blob_range(&b, 10, 50).unwrap(),
        (10..60).collect::<Vec<u8>>()
    );
    let e = read_blob_range(&b, 90, 11).unwrap_err();
    assert_eq!(e.kind, ErrorKind::UnexpectedEof);
    assert_eq!(e.message, "short read");
    assert!(read_blob_range(&b, 0, 0).unwrap().is_empty());
}

fn desc() -> ChunkDesc {
    ChunkDesc {
        encrypted: false,
        batch: false,
        compressed: true,
        compressed_offset: 5,
        compressed_size: 6,
        uncompressed_size: 7,
    }
}

#[test]
fn chunks_are_read_or_refused() {
    assert_eq!(
        plan_chunk(&desc()).unwrap(),
        ChunkPlan::Read { offset: 5, size: 6 }
    );
    let e = plan_chunk(&ChunkDesc { encrypted: true, ..desc() }).unwrap_err();
    assert_eq!(e.kind, ErrorKind::Unsupported);
    assert_eq!(e.message, "encrypted chunk is not supported");
    let e = plan_chunk(&ChunkDesc { batch: true, ..desc() }).unwrap_err();
    assert_eq!(e.message, "batch chunk is not supported");
    let zeros = ChunkDesc { compressed_size: 0, ..desc() };
    assert_eq!(plan_chunk(&zeros).unwrap(), ChunkPlan::Zeros(7));
    let empty = ChunkDesc { uncompressed_size: 0, ..desc() };
    assert_eq!(plan_chunk(&empty).unwrap(), ChunkPlan::Zeros(0));
}

#[test]
fn chunk_data_has_the_length_it_should() {
    assert_eq!(plain_data(vec![1, 2, 3], 2).unwrap(), vec![1, 2]);
    let e = plain_data(vec![1], 2).unwrap_err();
    assert_eq!(e.kind, ErrorKind::InvalidData);
    assert_eq!(e.message, "compressed data is shorter than expected");
    assert_eq!(decompressed_data(vec![1, 2, 3], Ok(2)).unwrap(), vec![1, 2]);
    assert_eq!(decompressed_data(vec![1, 2], Ok(2)).unwrap(), vec![1, 2]);
    let e = decompressed_data(vec![], Err("bad".to_string())).unwrap_err();
    assert_eq!(e.message, "decompress failed: bad");
    assert_eq!(chunk_part(&[1, 2, 3], 1, 2).unwrap(), &[2, 3]);
    let e = chunk_part(&[1, 2, 3], 2, 2).unwrap_err();
    assert_eq!(e.message, "chunk data is shorter than expected");
}

#[test]
fn read_ranges_are_checked() {
    assert!(matches!(check_read_range(true, 100, 10, 95), Ok(5)));
    assert!(matches!(check_read_range(true, 100, 10, 20), Ok(10)));
    assert!(matches!(check_read_range(true, 100, 10, 100), Ok(0)));
    assert!(matches!(check_read_range(true, 100, 0, 0), Ok(0)));
    assert!(matches!(
        check_read_range(false, 100, 1, 0),
        Err(RangeFault::Refused(Refusal::IsDirectory))
    ));
    match check_read_range(true, 100, 1, u64::MAX) {
        Err(RangeFault::Failed(e)) => assert_eq!(e.message, "invalid range"),
        _ => panic!("accepted"),
    }
}

#[test]
fn a_file_is_read_through_its_chunks() {
    let file: Vec<u8> = (0..25).collect();
    let chunks: Vec<&[u8]> = file.chunks(10).collect();
    let mut read = FileRead::new(7, 15, 10);
    let mut out = Vec::new();
    while let Some(idx) = read.next_chunk() {
        let chunk = chunks[idx as usize];
        let (at, n) = read.span(chunk.len()).unwrap();
        out.extend_from_slice(chunk_part(chunk, at, n).unwrap());
        read.wrote(n);
    }
    assert_eq!(out, file[7..22].to_vec());
    assert_eq!(read.total(), 15);
    let e = FileRead::new(7, 1, 10).span(7).unwrap_err();
    assert_eq!(e.kind, ErrorKind::InvalidData);
    assert_eq!(e.message, "invalid chunk offset");
}

#[test]
fn the_root_is_shown_under_its_number() {
    assert_eq!(to_rafs_ino(ROOT_ID, 42), 42);
    assert_eq!(to_rafs_ino(7, 42), 7);
    assert_eq!(to_shown_ino(42, 42), ROOT_ID);
    assert_eq!(to_shown_ino(7, 42), 7);
    let fix = inode_fix(false, true, 3, 4, 99);
    assert_eq!((fix.owner, fix.time), (Some((3, 4)), Some(99)));
    let fix = inode_fix(true, false, 3, 4, 99);
    assert_eq!((fix.owner, fix.time), (None, None));
}

#[test]
fn dots_lead_up() {
    assert_eq!(name_target(true, false, b"."), Ok(NameTarget::Itself));
    assert_eq!(name_target(true, true, b".."), Ok(NameTarget::Itself));
    assert_eq!(name_target(true, false, b".."), Ok(NameTarget::Above));
    assert_eq!(name_target(true, true, b"..."), Ok(NameTarget::Child));
    assert_eq!(name_target(false, true, b"."), Err(Refusal::NotDirectory));
}

#[test]
fn extended_attributes_fit_the_buffer() {
    assert!(matches!(xattr_value(None, 1), Err(Refusal::NoData)));
    assert!(matches!(
        xattr_value(Some(vec![1, 2]), 0),
        Ok(XattrReply::Count(3))
    ));
    assert!(matches!(
        xattr_value(Some(vec![1, 2]), 1),
        Err(Refusal::TooSmall)
    ));
    assert!(matches!(
        xattr_value(Some(vec![1, 2]), 2),
        Ok(XattrReply::Value(v)) if v == vec![1, 2]
    ));
    let names = [b"ab".to_vec(), b"c".to_vec()];
    assert!(matches!(xattr_names(&names, 0), Ok(XattrReply::Count(5))));
    assert!(matches!(xattr_names(&names, 4), Err(Refusal::TooSmall)));
    assert!(matches!(
        xattr_names(&names, 5),
        Ok(XattrReply::Value(v)) if v == b"ab\0c\0".to_vec()
    ));
}

#[test]
fn chunks_are_stored_in_batches() {
    let cs = CheckSum::from_data(b"s", CheckSumMethod::Blake3);
    let mut batch = StoreBatch::new();
    for i in 1..=CHUNK_STORE_BATCH_SIZE {
        let full = batch.push(cs, vec![i as u8]);
        assert_eq!(full, i == CHUNK_STORE_BATCH_SIZE);
    }
    let chunks = batch.take();
    assert_eq!(chunks.len(), 64);
    assert_eq!(chunks[2], (cs, vec![3]));
    assert!(batch.take().is_empty());
}

#[test]
fn dropped_chunks_are_noted_now_and_then() {
    let mut drops = StoreDrops::new();
    assert_eq!(drops.count(100), Some(1));
    assert_eq!(drops.count(101), None);
    assert_eq!(drops.count(104), None);
    assert_eq!(drops.count(105), Some(3));
}

#[test]
fn blobs_are_cached_where_there_is_room() {
    assert_eq!(blob_cache_path("/c", "id"), "/c/id");
    assert_eq!(blob_access("", true), BlobAccess::Direct);
    assert_eq!(blob_access("/c", false), BlobAccess::Cached);
    assert_eq!(blob_access("/c", true), BlobAccess::Deduplicated);
}

#[test]
fn a_configuration_that_does_not_hold_up_is_refused() {
    assert!(check_backend_config(true).is_ok());
    let e = check_backend_config(false).unwrap_err();
    assert_eq!(e.kind, ErrorKind::InvalidInput);
    assert_eq!(e.message, "Invalid backend config");
}

#[test]
fn images_of_a_later_format_are_refused() {
    assert!(check_image(true, false).is_ok());
    assert_eq!(
        check_image(false, true).unwrap_err().message,
        "invalid backend cfg"
    );
    let e = check_image(true, true).unwrap_err();
    assert_eq!(e.kind, ErrorKind::Unsupported);
    assert_eq!(
        e.message,
        "RAFS v6 is not supported by distill-fs yet; build RAFS v5 images"
    );
    assert_eq!(CHUNK_SIZE, 4 << 20);
}

/// A read of the bytes 2 to 5 of a chunk of 6 bytes that the database is asked for.
fn asked_chunk_read() -> (ChunkReadTask, CheckSum) {
    let checksum = CheckSum::from_data(b"abcdef", CheckSumMethod::Blake3);
    let mut task = ChunkReadTask::new(ChunkReadPlan {
        checksum,
        start: 2,
        len: 3,
        uncompressed: 6,
    });
    match task.on_event(ChunkReadEvent::Start) {
        ChunkReadAction::AskDatabase {
            checksum: asked,
            start,
            len,
        } => {
            assert!(asked.same(&checksum));
            assert_eq!((start, len), (2, 3));
        }
        _ => panic!("database not asked"),
    }
    (task, checksum)
}

#[test]
fn a_chunk_in_the_database_needs_no_blob() {
    let (mut task, _) = asked_chunk_read();
    assert!(matches!(
        task.on_event(ChunkReadEvent::Hit(3)),
        ChunkReadAction::Finish(3)
    ));
}

#[test]
fn a_missing_chunk_is_read_from_its_blob_and_stored() {
    for event in [ChunkReadEvent::Miss, ChunkReadEvent::DatabaseError] {
        let (mut task, checksum) = asked_chunk_read();
        assert!(matches!(task.on_event(event), ChunkReadAction::ReadBlob));
        let read = ChunkReadEvent::Data(b"abcdef".to_vec());
        assert!(matches!(task.on_event(read), ChunkReadAction::WritePart));
        assert_eq!(task.part(), b"cde");
        match task.on_event(ChunkReadEvent::Wrote(3)) {
            ChunkReadAction::Store {
                checksum: stored,
                data,
            } => {
                assert!(stored.same(&checksum));
                assert_eq!(data, b"abcdef");
            }
            _ => panic!("not stored"),
        }
        assert!(matches!(
            task.on_event(ChunkReadEvent::Queued),
            ChunkReadAction::Finish(3)
        ));
    }
}

#[test]
fn an_incomplete_chunk_is_not_stored() {
    let (mut task, _) = asked_chunk_read();
    task.on_event(ChunkReadEvent::Miss);
    task.on_event(ChunkReadEvent::Data(b"abcde".to_vec()));
    assert_eq!(task.part(), b"cde");
    assert!(matches!(
        task.on_event(ChunkReadEvent::Wrote(2)),
        ChunkReadAction::Finish(2)
    ));

    let (mut task, _) = asked_chunk_read();
    task.on_event(ChunkReadEvent::Miss);
    match task.on_event(ChunkReadEvent::Data(b"abcd".to_vec())) {
        ChunkReadAction::Fail(e) => {
            assert_eq!(e.kind, ErrorKind::InvalidData);
            assert_eq!(e.message, "chunk data is shorter than expected");
        }
        _ => panic!("too short"),
    }
}

#[test]
fn a_chunk_read_ends_with_what_failed() {
    let (mut task, _) = asked_chunk_read();
    task.on_event(ChunkReadEvent::Miss);
    let gone = Error::new(ErrorKind::UnexpectedEof, "short read");
    match task.on_event(ChunkReadEvent::Failed(gone)) {
        ChunkReadAction::Fail(e) => assert_eq!(e.message, "short read"),
        _ => panic!("went on"),
    }
    match task.on_event(ChunkReadEvent::Start) {
        ChunkReadAction::Fail(e) => {
            assert_eq!(e.kind, ErrorKind::Other);
            assert_eq!(e.message, "unexpected event in chunk read");
        }
        _ => panic!("started again"),
    }
}

#[test]
fn compressed_chunks_are_decompressed() {
    let chunk = |compressed: bool| ChunkDesc {
        encrypted: false,
        batch: false,
        compressed,
        compressed_offset: 0,
        compressed_size: 5,
        uncompressed_size: 9,
    };
    assert_eq!(chunk_decode(&chunk(true)), ChunkDecode::Decompress(9));
    assert_eq!(chunk_decode(&chunk(false)), ChunkDecode::Plain);
}
