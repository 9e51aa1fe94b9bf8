use boa_fapi::blob::BlobData;
use boa_fapi::brand::Branded;
use boa_fapi::clone_bridge::{
    check_bridge, clone_error_from_core, clone_payload_size, CloneBridgeDescriptor, CloneCodec,
    CloneError, FakeCloneBridge, FileApiClonePayload, ListedFile, SerializedBlob, SerializedFile,
    CLONE_ENCODING_VERSION,
};
use boa_fapi::error::{FileApiError, ResourceLimitKind};
use boa_fapi::extension::CloneAdapter;
use boa_fapi::file::FileNative;
use boa_fapi::file_list::FileListNative;
use boa_fapi::ids::{FileApiContextId, IdCounter};
use boa_fapi::limits::FileApiLimits;
use boa_fapi::{FileApiExtension, FileApiHandle};

fn handle(limits: FileApiLimits) -> FileApiHandle {
    let extension = FileApiExtension::builder().limits(limits).build(&mut IdCounter::new());
    FileApiHandle::new(extension.config, FileApiContextId::from_raw(1))
}

fn blob(text: &str) -> BlobData {
    BlobData::from_bytes(text.as_bytes().to_vec(), "text/plain", &FileApiLimits::default())
        .expect("blob")
}

fn file(text: &str, name: &str) -> Branded {
    Branded::File(FileNative::new(blob(text), name.to_string(), 42))
}

fn bytes(text: &str) -> Result<Vec<u8>, FileApiError> {
    Ok(text.as_bytes().to_vec())
}

#[test]
fn a_blob_survives_a_clone() {
    let handle = handle(FileApiLimits::default());
    let payload = handle.clone_blob(&Branded::Blob(blob("hi")), bytes("hi")).expect("clone");
    assert_eq!(clone_payload_size(&payload), 2);
    let restored = handle.blob_from_clone(payload).expect("restore");
    assert_eq!((restored.size(), restored.media_type()), (2, "text/plain"));
}

#[test]
fn a_file_survives_a_clone() {
    let handle = handle(FileApiLimits::default());
    let payload = handle.clone_file(&file("hi", "a.txt"), bytes("hi")).expect("clone");
    let restored = handle.file_from_clone(payload).expect("restore");
    assert_eq!(restored.name(), "a.txt");
    assert_eq!(restored.last_modified(), 42);
    assert_eq!(restored.blob_data().size(), 2);
    assert_eq!(restored.blob_data().media_type(), "text/plain");
}

#[test]
fn a_list_survives_a_clone() {
    let handle = handle(FileApiLimits::default());
    let list = Branded::FileList(FileListNative::create(2).expect("list"));
    let entries = vec![
        ListedFile {
            value: file("one", "1"),
            read: bytes("one"),
        },
        ListedFile {
            value: file("three", "2"),
            read: bytes("three"),
        },
    ];
    let payload = handle.clone_file_list(&list, entries).expect("clone");
    assert_eq!(clone_payload_size(&payload), 8);
    let restored = handle.file_list_from_clone(payload).expect("restore");
    let names: Vec<&str> = restored.iter().map(|file| file.name()).collect();
    assert_eq!(names, ["1", "2"]);
}

#[test]
fn a_clone_is_restored_as_its_own_kind() {
    let handle = handle(FileApiLimits::default());
    let blob_clone = || handle.clone_blob(&Branded::Blob(blob("hi")), bytes("hi")).expect("clone");
    let file_clone = || handle.clone_file(&file("hi", "a"), bytes("hi")).expect("clone");
    assert!(matches!(handle.file_from_clone(blob_clone()), Err(CloneError::UnexpectedKind)));
    assert!(matches!(handle.file_list_from_clone(blob_clone()), Err(CloneError::UnexpectedKind)));
    assert!(matches!(handle.blob_from_clone(file_clone()), Err(CloneError::UnexpectedKind)));
    assert!(matches!(handle.file_list_from_clone(file_clone()), Err(CloneError::UnexpectedKind)));
}

#[test]
fn clones_fail_by_class() {
    let tight = FileApiLimits {
        max_materialize_bytes: 1,
        ..FileApiLimits::default()
    };
    let open = handle(FileApiLimits::default());
    let error = open.clone_blob(&Branded::Other, bytes("")).expect_err("no blob");
    assert_eq!(error, CloneError::InvalidObject);
    let error = open.clone_file(&Branded::Blob(blob("x")), bytes("x")).expect_err("no file");
    assert_eq!(error, CloneError::InvalidObject);
    let error = open
        .clone_blob(&Branded::Blob(blob("x")), Err(FileApiError::NotFound))
        .expect_err("unreadable");
    assert_eq!(error, CloneError::SourceFailed);
    let error = handle(tight)
        .clone_blob(&Branded::Blob(blob("xy")), bytes("xy"))
        .expect_err("too large");
    assert_eq!(error, CloneError::LimitExceeded);
    let payload = FileApiClonePayload::Blob(SerializedBlob {
        bytes: vec![1],
        media_type: String::new(),
    });
    assert_eq!(open.file_from_clone(payload).expect_err("kind"), CloneError::UnexpectedKind);
    let payload = FileApiClonePayload::FileList(Vec::new());
    assert_eq!(open.blob_from_clone(payload).expect_err("kind"), CloneError::UnexpectedKind);
    let mut closed = handle(FileApiLimits::default());
    closed.shutdown();
    let error = closed.clone_blob(&Branded::Blob(blob("x")), bytes("x")).expect_err("closed");
    assert_eq!(error, CloneError::Shutdown);
    assert_eq!(
        closed
            .file_list_from_clone(FileApiClonePayload::FileList(Vec::new()))
            .expect_err("closed"),
        CloneError::Shutdown
    );
    assert_eq!(clone_error_from_core(FileApiError::Cancelled), CloneError::Shutdown);
    assert_eq!(
        clone_error_from_core(FileApiError::ResourceLimit(ResourceLimitKind::BlobSize)),
        CloneError::LimitExceeded
    );
}

#[test]
fn restored_blobs_keep_the_limits() {
    let tight = FileApiLimits {
        max_blob_size: 1,
        ..FileApiLimits::default()
    };
    let payload = FileApiClonePayload::File(SerializedFile {
        bytes: vec![1, 2],
        media_type: "T/X".to_string(),
        name: "a/b".to_string(),
        last_modified: -1,
    });
    let error = handle(tight).file_from_clone(payload).expect_err("too large");
    assert_eq!(error, CloneError::LimitExceeded);
    let payload = FileApiClonePayload::File(SerializedFile {
        bytes: vec![1, 2],
        media_type: "T/X".to_string(),
        name: "a/b".to_string(),
        last_modified: -1,
    });
    let restored = handle(FileApiLimits::default()).file_from_clone(payload).expect("restore");
    assert_eq!(restored.name(), "a:b");
    assert_eq!(restored.blob_data().media_type(), "t/x");
    assert_eq!(restored.last_modified(), -1);
}

/// A codec for blobs without a type.
struct Plain;

impl CloneCodec for Plain {
    fn encode_payload(&self, payload: &FileApiClonePayload) -> Result<Vec<u8>, CloneError> {
        match payload {
            FileApiClonePayload::Blob(blob) => Ok(blob.bytes.clone()),
            _ => Err(CloneError::Internal),
        }
    }

    fn decode_payload(&self, bytes: &[u8]) -> Result<FileApiClonePayload, CloneError> {
        Ok(FileApiClonePayload::Blob(SerializedBlob {
            bytes: bytes.to_vec(),
            media_type: String::new(),
        }))
    }
}

struct Bridge(FakeCloneBridge);

impl CloneAdapter for Bridge {
    fn descriptor(&self) -> CloneBridgeDescriptor {
        self.0.descriptor()
    }

    fn encode(&self, payload: &FileApiClonePayload) -> Result<Vec<u8>, CloneError> {
        self.0.encode(&Plain, payload)
    }

    fn decode(&self, bytes: &[u8]) -> Result<FileApiClonePayload, CloneError> {
        self.0.decode(&Plain, bytes)
    }
}

#[test]
fn bridges_carry_clones() {
    let handle = handle(FileApiLimits::default());
    let bridge = Bridge(FakeCloneBridge::new("store"));
    let payload = handle.clone_blob(&Branded::Blob(blob("hi")), bytes("hi")).expect("clone");
    let stored = handle.clone_encode_via_bridge(Some(&bridge), &payload).expect("stored");
    assert_eq!(stored, b"hi");
    let loaded = handle.clone_decode_via_bridge(Some(&bridge), &stored).expect("loaded");
    assert_eq!(clone_payload_size(&loaded), 2);
    let error = handle.clone_encode_via_bridge::<Bridge>(None, &payload).expect_err("none");
    assert_eq!(error, CloneError::NoBridge);
    let foreign = Bridge(FakeCloneBridge::with_version("old", CLONE_ENCODING_VERSION + 1));
    let error = handle.clone_encode_via_bridge(Some(&foreign), &payload).expect_err("foreign");
    assert_eq!(error, CloneError::UnsupportedVersion);
    assert_eq!(
        foreign.0.decode(&Plain, b"hi").expect_err("foreign"),
        CloneError::UnsupportedVersion
    );
    assert_eq!(foreign.descriptor().name, "old");
    assert_eq!(check_bridge(true, Some(&bridge.descriptor())), Err(CloneError::Shutdown));
    assert_eq!(check_bridge(false, None), Err(CloneError::NoBridge));
    assert_eq!(check_bridge(false, Some(&bridge.descriptor())), Ok(()));
}
