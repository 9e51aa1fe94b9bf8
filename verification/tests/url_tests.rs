use std::sync::Mutex;

use boa_fapi::blob::BlobData;
use boa_fapi::blob_url::{
    blob_url_valid, format_blob_url, format_uuid_v4, BlobUrlError, BlobUrlStore,
};
use boa_fapi::brand::Branded;
use boa_fapi::environment::{origin_valid, EnvironmentKey, FileApiEnvironment, MAX_ORIGIN_LEN};
use boa_fapi::extension::{OsEntropy, UrlEntropySource};
use boa_fapi::ids::{FileApiContextId, IdCounter};
use boa_fapi::limits::FileApiLimits;
use boa_fapi::url_shim::{
    block_or_zeros, create_url, host_url_error, insert_attempt, insert_url, map_url_error,
    MAX_ATTEMPTS,
};
use boa_fapi::{FileApiExtension, FileApiHandle};

/// Hands out given blocks, the last one for ever.
struct Script {
    blocks: Mutex<Vec<[u8; 16]>>,
    draws: Mutex<usize>,
}

impl Script {
    fn new(blocks: &[[u8; 16]]) -> Self {
        Script {
            blocks: Mutex::new(blocks.to_vec()),
            draws: Mutex::new(0),
        }
    }

    fn drawn(&self) -> usize {
        *self.draws.lock().expect("draws")
    }
}

impl UrlEntropySource for Script {
    fn fill_16(&self) -> [u8; 16] {
        *self.draws.lock().expect("draws") += 1;
        let mut blocks = self.blocks.lock().expect("blocks");
        if blocks.len() > 1 {
            blocks.remove(0)
        } else {
            blocks[0]
        }
    }
}

fn key(origin: &str, partition: u64, nonce: u64) -> EnvironmentKey {
    EnvironmentKey {
        origin: origin.to_string(),
        partition,
        nonce,
    }
}

fn memory(text: &str) -> BlobData {
    BlobData::from_bytes(text.as_bytes().to_vec(), "text/plain", &FileApiLimits::default())
        .expect("blob")
}

fn handle(origin: &str, environment: FileApiEnvironment, urls: usize) -> FileApiHandle {
    let limits = FileApiLimits {
        max_blob_urls_per_global: urls,
        ..FileApiLimits::default()
    };
    let extension = FileApiExtension::builder()
        .origin(origin)
        .environment(environment)
        .limits(limits)
        .build(&mut IdCounter::new());
    FileApiHandle::new(extension.config, FileApiContextId::from_raw(1))
}

#[test]
fn random_bytes_become_a_version_four_uuid() {
    assert_eq!(format_uuid_v4([0xFF; 16]), "ffffffff-ffff-4fff-bfff-ffffffffffff");
    assert_eq!(format_uuid_v4([0; 16]), "00000000-0000-4000-8000-000000000000");
    assert_eq!(
        format_uuid_v4([
            0x01, 0x23, 0x45, 0x67, 0x89, 0xAB, 0xCD, 0xEF, 0x01, 0x23, 0x45, 0x67, 0x89, 0xAB,
            0xCD, 0xEF
        ]),
        "01234567-89ab-4def-8123-456789abcdef"
    );
}

#[test]
fn urls_name_their_origin() {
    let url = format_blob_url("https://a.example", &format_uuid_v4([7; 16]));
    assert_eq!(url, "blob:https://a.example/07070707-0707-4707-8707-070707070707");
    assert!(blob_url_valid(&url));
    assert!(!blob_url_valid("https://a.example/x"));
    assert!(!blob_url_valid("blob:"));
    assert!(!blob_url_valid(&format!("{url}#part")));
}

#[test]
fn the_system_gives_different_blocks() {
    let first = OsEntropy.fill_16();
    let second = OsEntropy.fill_16();
    assert_ne!(first, [0; 16]);
    assert_ne!(first, second);
}

#[test]
fn a_failed_draw_is_a_block_of_zeros() {
    assert_eq!(block_or_zeros(None), [0; 16]);
    assert_eq!(block_or_zeros(Some([7; 16])), [7; 16]);
}

#[test]
fn a_url_gives_its_blob_back() {
    let mut store = BlobUrlStore::new();
    let owner = key("https://a.example", 0, 1);
    let url = insert_url(&mut store, "https://a.example", &owner, &memory("one"), &OsEntropy, 4)
        .expect("url");
    assert_eq!(store.len(), 1);
    let found = store.resolve(&url, &owner).expect("found");
    assert_eq!(found.size(), 3);
    assert_eq!(found.media_type(), "text/plain");
    store.revoke(&url);
    assert!(store.is_empty());
    assert_eq!(store.resolve(&url, &owner).expect_err("revoked"), BlobUrlError::Unavailable);
    store.revoke(&url);
    assert!(store.is_empty());
}

#[test]
fn a_foreign_url_looks_missing() {
    let mut store = BlobUrlStore::new();
    let owner = key("https://a.example", 0, 1);
    let url = insert_url(&mut store, "https://a.example", &owner, &memory("one"), &OsEntropy, 4)
        .expect("url");
    for other in [
        key("https://b.example", 0, 1),
        key("https://a.example", 1, 1),
        key("https://a.example", 0, 2),
    ] {
        assert_eq!(store.resolve(&url, &other).expect_err("foreign"), BlobUrlError::Unavailable);
    }
    assert_eq!(store.resolve("blob:", &owner).expect_err("malformed"), BlobUrlError::Malformed);
    store.clear();
    assert_eq!(store.len(), 0);
}

#[test]
fn taken_urls_are_tried_again() {
    let mut store = BlobUrlStore::new();
    let owner = key("o", 0, 0);
    let data = memory("x");
    assert_eq!(
        insert_attempt(&mut store, "o", &owner, &data, [0; 16], 9).expect_err("no entropy"),
        BlobUrlError::EntropyUnavailable
    );
    let first = insert_attempt(&mut store, "o", &owner, &data, [1; 16], 9).expect("first");
    let second = Script::new(&[[1; 16], [1; 16], [2; 16]]);
    let url = insert_url(&mut store, "o", &owner, &data, &second, 9).expect("second");
    assert_ne!(url, first);
    assert_eq!(second.drawn(), 3);
    let stuck = Script::new(&[[1; 16]]);
    let error = insert_url(&mut store, "o", &owner, &data, &stuck, 9).expect_err("stuck");
    assert_eq!(error, BlobUrlError::Collision);
    assert_eq!(stuck.drawn(), MAX_ATTEMPTS);
    let full = Script::new(&[[3; 16]]);
    let error = insert_url(&mut store, "o", &owner, &data, &full, 2).expect_err("full");
    assert_eq!(error, BlobUrlError::LimitExceeded);
    assert_eq!(full.drawn(), 1);
    assert_eq!(store.len(), 2);
}

#[test]
fn refusals_draw_nothing() {
    let mut store = BlobUrlStore::new();
    let data = memory("x");
    let source = Script::new(&[[1; 16]]);
    let window = FileApiEnvironment::Window;
    let good = key("o", 0, 0);
    let bad = key("", 0, 0);
    let cases = [
        (true, window, &good, 4, BlobUrlError::Shutdown),
        (false, window, &bad, 4, BlobUrlError::Malformed),
        (false, FileApiEnvironment::ServiceWorker, &good, 4, BlobUrlError::Forbidden),
        (false, window, &good, 0, BlobUrlError::LimitExceeded),
    ];
    for (closed, environment, owner, cap, expected) in cases {
        let error = create_url(&mut store, closed, environment, owner, &data, &source, cap)
            .expect_err("refused");
        assert_eq!(error, expected);
    }
    assert_eq!(source.drawn(), 0);
    assert!(store.is_empty());
}

#[test]
fn failures_have_script_texts() {
    assert_eq!(
        map_url_error(BlobUrlError::InvalidObject).message,
        "URL.createObjectURL requires a Blob"
    );
    assert_eq!(
        map_url_error(BlobUrlError::Forbidden).message,
        "URL creation is not allowed in this context"
    );
    assert_eq!(map_url_error(BlobUrlError::Collision).message, "blob URL is not available");
    let texts: Vec<String> = [
        BlobUrlError::Forbidden,
        BlobUrlError::LimitExceeded,
        BlobUrlError::Shutdown,
        BlobUrlError::Collision,
    ]
    .into_iter()
    .map(|error| host_url_error(error).message)
    .collect();
    assert_eq!(
        texts,
        [
            "URL creation is not allowed in this context",
            "blob URL quota exceeded",
            "the File API runtime is shut down",
            "blob URL is not available"
        ]
    );
}

#[test]
fn a_handle_creates_resolves_and_revokes() {
    let mut handle = handle("https://a.example", FileApiEnvironment::Window, 2);
    assert!(handle.blob_urls_empty());
    let blob = Branded::Blob(memory("abc"));
    let first = handle.create_blob_url(&blob, &OsEntropy).expect("first");
    assert!(first.starts_with("blob:https://a.example/"));
    let second = handle.create_object_url(Some(&blob), &OsEntropy).expect("second");
    assert_eq!(handle.blob_url_count(), 2);
    assert!(handle.create_blob_url(&blob, &OsEntropy).is_err());
    assert_eq!(handle.resolve_blob_url(&second).expect("data").size(), 3);
    handle.revoke_blob_url(&second);
    assert_eq!(
        handle.resolve_blob_url(&second).expect_err("revoked"),
        BlobUrlError::Unavailable
    );
    assert_eq!(handle.resolve_blob_url(&first).expect("data").size(), 3);
    let error = handle.create_object_url(None, &OsEntropy).expect_err("no argument");
    assert_eq!(error.message, "URL.createObjectURL requires a Blob argument");
    assert!(handle.create_object_url(Some(&Branded::Other), &OsEntropy).is_err());
    handle.shutdown();
    assert!(handle.blob_urls_empty());
    let error = handle.create_blob_url(&blob, &OsEntropy).expect_err("closed");
    assert_eq!(error.message, "the File API runtime is shut down");
}

#[test]
fn a_service_worker_makes_no_urls() {
    let mut handle = handle("o", FileApiEnvironment::ServiceWorker, 2);
    let blob = Branded::Blob(memory("abc"));
    let error = handle.create_object_url(Some(&blob), &OsEntropy).expect_err("forbidden");
    assert_eq!(error.message, "URL creation is not allowed in this context");
    assert!(handle.blob_urls_empty());
}

#[test]
fn origins_are_printable_and_bounded() {
    assert!(origin_valid("null"));
    assert!(origin_valid(&"a".repeat(MAX_ORIGIN_LEN)));
    assert!(!origin_valid(&"a".repeat(MAX_ORIGIN_LEN + 1)));
    assert!(!origin_valid(""));
    assert!(!origin_valid("a b"));
    assert!(!origin_valid("\u{e9}"));
    assert!(key("o", 1, 2).same(&key("o", 1, 2)));
    assert!(!key("o", 1, 2).same(&key("p", 1, 2)));
}

#[test]
fn two_workers_read_synchronously() {
    assert!(!FileApiEnvironment::default().file_reader_sync_enabled());
    assert!(!FileApiEnvironment::ServiceWorker.file_reader_sync_enabled());
    assert!(FileApiEnvironment::DedicatedWorker.file_reader_sync_enabled());
    assert!(FileApiEnvironment::SharedWorker.file_reader_sync_enabled());
}
