use std::cell::Cell;

use boa_fapi::blob::{BlobData, ByteSource};
use boa_fapi::error::FileApiError;
use boa_fapi::execute::{read_blob_range, HostReader};
use boa_fapi::filereader::{FileReaderResult, ReadRequest};
use boa_fapi::filereader_sync::{read_bytes_sync, settle_sync};
use boa_fapi::limits::FileApiLimits;
use boa_fapi::resource::CancelProbe;

struct Host {
    answer: Result<&'static [u8], FileApiError>,
    reads: Cell<usize>,
}

impl HostReader for Host {
    fn read(&self, _handle: u64, _offset: u64, _len: u64) -> Result<Vec<u8>, FileApiError> {
        self.reads.set(self.reads.get() + 1);
        self.answer.map(|bytes| bytes.to_vec())
    }
}

struct Never;

impl CancelProbe for Never {
    fn is_cancelled(&self) -> bool {
        false
    }
}

fn host(answer: Result<&'static [u8], FileApiError>) -> Host {
    Host {
        answer,
        reads: Cell::new(0),
    }
}

fn blob(len: u64) -> BlobData {
    BlobData::from_source(ByteSource::Host { handle: 1, len }, "", &FileApiLimits::default())
        .expect("blob")
}

fn read_sync(
    host: &Host,
    request: ReadRequest,
    limits: &FileApiLimits,
) -> Result<FileReaderResult, &'static str> {
    read_bytes_sync(&request, limits).map_err(|error| error.name)?;
    let read = read_blob_range(&request.data, 0, request.data.size(), host, &Never);
    settle_sync(&request, limits, read).map_err(|error| error.name)
}

#[test]
fn short_source_throws_not_readable_error() {
    let limits = FileApiLimits::default();
    let error = read_sync(&host(Ok(b"shor")), ReadRequest::array_buffer(blob(5)), &limits);
    assert_eq!(error.expect_err("short"), "NotReadableError");
}

#[test]
fn long_source_throws_not_readable_error() {
    let limits = FileApiLimits::default();
    let error = read_sync(&host(Ok(b"toolong!")), ReadRequest::text(blob(5), None), &limits);
    assert_eq!(error.expect_err("long"), "NotReadableError");
}

#[test]
fn failing_source_throws_not_readable_error() {
    let limits = FileApiLimits::default();
    let failing = host(Err(FileApiError::FileLocked));
    let error = read_sync(&failing, ReadRequest::binary_string(blob(3)), &limits);
    assert_eq!(error.expect_err("failing"), "NotReadableError");
    let error = read_sync(&failing, ReadRequest::data_url(blob(3)), &limits);
    assert_eq!(error.expect_err("failing"), "NotReadableError");
}

#[test]
fn rejected_sync_preflight_performs_zero_source_reads() {
    let limits = FileApiLimits {
        max_sync_read_bytes: 64,
        ..FileApiLimits::default()
    };
    let source = host(Ok(&[9; 128]));
    let error = read_sync(&source, ReadRequest::array_buffer(blob(128)), &limits);
    assert_eq!(error.expect_err("over the limit"), "QuotaExceededError");
    assert_eq!(source.reads.get(), 0, "rejected preflight must not read from the source");
}

#[test]
fn sync_success_paths_match_async_packaging() {
    let limits = FileApiLimits::default();
    let source = host(Ok(b"hi"));
    let ab = read_sync(&source, ReadRequest::array_buffer(blob(2)), &limits).expect("buffer");
    let bs = read_sync(&source, ReadRequest::binary_string(blob(2)), &limits).expect("binary");
    let tx = read_sync(&source, ReadRequest::text(blob(2), None), &limits).expect("text");
    let du = read_sync(&source, ReadRequest::data_url(blob(2)), &limits).expect("url");
    let (is_buffer, byte_length) = match &ab {
        FileReaderResult::Bytes(bytes) => (true, bytes.len()),
        _ => (false, 0),
    };
    let binary: Vec<char> = match &bs {
        FileReaderResult::BinaryString(text) => text.chars().collect(),
        other => panic!("no binary string: {other:?}"),
    };
    let text = match tx {
        FileReaderResult::Text(text) => text,
        other => panic!("no text: {other:?}"),
    };
    let url = match du {
        FileReaderResult::Text(text) => text,
        other => panic!("no url: {other:?}"),
    };
    assert_eq!(
        format!(
            "{}:{}:{}:{}:{}:{}:{}",
            is_buffer, byte_length, binary.len(), binary[0] as u32, binary[1] as u32, text, url
        ),
        "true:2:2:104:105:hi:data:;base64,aGk=",
        "sync packaging must match the async representations"
    );
}

#[test]
fn a_sync_data_url_is_measured_first() {
    let limits = FileApiLimits {
        max_data_url_output: 16,
        ..FileApiLimits::default()
    };
    let source = host(Ok(b"hi"));
    let error = read_sync(&source, ReadRequest::data_url(blob(2)), &limits);
    assert_eq!(error.expect_err("too long"), "QuotaExceededError");
    assert_eq!(source.reads.get(), 0);
    let exact = FileApiLimits {
        max_data_url_output: 17,
        ..limits
    };
    assert!(read_sync(&source, ReadRequest::data_url(blob(2)), &exact).is_ok());
}

#[test]
fn a_sync_read_materializes_no_more_than_any_other() {
    let limits = FileApiLimits {
        max_materialize_bytes: 1,
        ..FileApiLimits::default()
    };
    let source = host(Ok(b"hi"));
    for request in [
        ReadRequest::array_buffer(blob(2)),
        ReadRequest::binary_string(blob(2)),
        ReadRequest::text(blob(2), None),
        ReadRequest::data_url(blob(2)),
    ] {
        let error = read_bytes_sync(&request, &limits).expect_err("over the ceiling");
        assert_eq!(error.name, "QuotaExceededError");
        assert_eq!(read_sync(&source, request, &limits).expect_err("refused"), "QuotaExceededError");
    }
    assert_eq!(source.reads.get(), 0);
    let exact = FileApiLimits {
        max_materialize_bytes: 2,
        ..limits
    };
    assert!(read_sync(&source, ReadRequest::array_buffer(blob(2)), &exact).is_ok());
}
