//! Synchronous reads for worker environments.
//!
//! Everything that can be refused is refused before the source is touched;
//! results are packaged exactly as those of `FileReader`.

use vstd::prelude::*;

use crate::blob::BlobData;
use crate::dom::{map_core_error, mapped_error};
use crate::error::{DomException, FileApiError, ResourceLimitKind};
use crate::filereader::{
    data_url_fits, package_failure, packaged, FileReaderResult, ReadKind, ReadRequest,
};
use crate::limits::FileApiLimits;
use crate::reader_course::is_result;
use crate::package::{
    data_url_len, data_url_size, decode_text, decode_text_refused, package_binary_string,
    package_data_url,
};

verus! {

/// Why a synchronous read is refused before the source is touched, if it is:
/// the blob is over the ceiling of synchronous reads, its data URL would be
/// over its own, or the bytes are more than may be materialized.
pub open spec fn sync_refusal(data: BlobData, kind: ReadKind, limits: FileApiLimits) -> Option<
    (Seq<char>, Seq<char>),
> {
    if data.spec_size() > limits.max_sync_read_bytes {
        Some(("QuotaExceededError"@, "the read exceeds the synchronous read limit"@))
    } else if kind == ReadKind::DataUrl && !data_url_fits(data, limits) {
        Some(("QuotaExceededError"@, "data URL output exceeds the configured limit"@))
    } else if data.spec_size() > limits.max_materialize_bytes {
        Some(mapped_error(FileApiError::ResourceLimit(ResourceLimitKind::MaterializeBytes)))
    } else {
        None
    }
}

/// Tests whether a synchronous read may touch its source.
pub fn read_bytes_sync(request: &ReadRequest, limits: &FileApiLimits) -> (result: Result<
    (),
    DomException,
>)
    ensures
        match result {
            Ok(_) => sync_refusal(request.data, request.kind, *limits) is None,
            Err(exception) => sync_refusal(request.data, request.kind, *limits) == Some(
                exception@,
            ),
        },
{
    if request.data.size() > limits.max_sync_read_bytes {
        return Err(
            DomException {
                name: "QuotaExceededError",
                message: "the read exceeds the synchronous read limit",
            },
        );
    }
    if request.kind == ReadKind::DataUrl {
        let fits = match data_url_len(request.data.media_type(), request.data.size()) {
            Some(length) => length <= limits.max_data_url_output,
            None => false,
        };
        if !fits {
            return Err(
                DomException {
                    name: "QuotaExceededError",
                    message: "data URL output exceeds the configured limit",
                },
            );
        }
    }
    if request.data.size() > limits.max_materialize_bytes {
        return Err(
            map_core_error(FileApiError::ResourceLimit(ResourceLimitKind::MaterializeBytes)),
        );
    }
    Ok(())
}

/// Settles a synchronous read with what reading its source came to.
///
/// A failed source is thrown under its mapped name; the bytes are packaged as
/// the request says. A text fails only where the allocator refused room for it.
pub fn settle_sync(
    request: &ReadRequest,
    limits: &FileApiLimits,
    read: Result<Vec<u8>, FileApiError>,
) -> (result: Result<FileReaderResult, DomException>)
    ensures
        match read {
            Err(error) => result matches Err(exception) && exception@ == mapped_error(error),
            Ok(bytes) => match result {
                Ok(packed) => packed@ == packaged(
                    request.kind,
                    request.encoding.spec_name(),
                    request.media_type@,
                    bytes@,
                ),
                Err(exception) => exists|error: FileApiError|
                    #![trigger mapped_error(error)]
                    exception@ == mapped_error(error) && package_failure(
                        request.kind,
                        request.media_type@,
                        bytes@,
                        limits.max_data_url_output,
                        decode_text_refused(request.encoding.spec_name(), bytes@),
                        error,
                    ),
            },
        },
{
    let bytes = match read {
        Ok(bytes) => bytes,
        Err(error) => {
            return Err(map_core_error(error));
        },
    };
    match request.kind {
        ReadKind::ArrayBuffer => Ok(FileReaderResult::Bytes(bytes)),
        ReadKind::BinaryString => Ok(
            FileReaderResult::BinaryString(package_binary_string(bytes.as_slice())),
        ),
        ReadKind::Text => match decode_text(&request.encoding, bytes.as_slice()) {
            Ok(text) => Ok(FileReaderResult::Text(text)),
            Err(error) => Err(map_core_error(error)),
        },
        ReadKind::DataUrl => {
            match package_data_url(
                request.media_type.as_str(),
                bytes.as_slice(),
                limits.max_data_url_output,
            ) {
                Ok(text) => Ok(FileReaderResult::Text(text)),
                Err(error) => Err(map_core_error(error)),
            }
        },
    }
}

/// An accepted data URL read never fails in packaging, as far as memory
/// reaches: the length that was tested beforehand is the length that is made.
pub proof fn lemma_accepted_data_url_is_packaged(
    request: ReadRequest,
    limits: FileApiLimits,
    bytes: Seq<u8>,
    error: FileApiError,
)
    requires
        request.kind == ReadKind::DataUrl,
        request.media_type@ == request.data.spec_media_type(),
        sync_refusal(request.data, request.kind, limits) is None,
        bytes.len() == request.data.spec_size(),
        data_url_size(request.media_type@, bytes.len() as int) <= isize::MAX,
    ensures
        !package_failure(
            request.kind,
            request.media_type@,
            bytes,
            limits.max_data_url_output,
            decode_text_refused(request.encoding.spec_name(), bytes),
            error,
        ),
{
}

/// A synchronous read is refused exactly where the blob is above a ceiling: that of
/// synchronous reads, that of materialized bytes or, for a data URL, that of its
/// length. Every refusal is a matter of quota.
pub proof fn lemma_sync_reads_keep_their_ceilings(
    request: ReadRequest,
    limits: FileApiLimits,
    result: Result<(), DomException>,
    length: Option<u64>,
    media_type: &str,
)
    requires
        call_ensures(read_bytes_sync, (&request, &limits), result),
        media_type@ == request.data.spec_media_type(),
        call_ensures(data_url_len, (media_type, request.data.spec_size()), length),
    ensures
        ({
            let size = request.data.spec_size();
            let url_fits = length matches Some(total) && total <= limits.max_data_url_output;
            result is Ok <==> size <= limits.max_sync_read_bytes && size
                <= limits.max_materialize_bytes && (request.kind == ReadKind::DataUrl ==> url_fits)
        }),
        result matches Err(exception) ==> exception.name@ == "QuotaExceededError"@,
{
}

/// A synchronous read gives what an asynchronous one gives of the same bytes; a
/// source that failed is thrown as it would be reported.
pub proof fn lemma_sync_reads_give_the_same(
    request: ReadRequest,
    limits: FileApiLimits,
    read: Result<Vec<u8>, FileApiError>,
    result: Result<FileReaderResult, DomException>,
    failure: FileApiError,
    reported: DomException,
)
    requires
        call_ensures(settle_sync, (&request, &limits, read), result),
        call_ensures(map_core_error, (failure,), reported),
    ensures
        read matches Ok(bytes) && result is Ok ==> is_result(
            request.kind,
            request.encoding.spec_name(),
            request.media_type@,
            read->Ok_0@,
            result->Ok_0@,
        ),
        read is Ok && (request.kind == ReadKind::ArrayBuffer || request.kind
            == ReadKind::BinaryString) ==> result is Ok,
        read == Err::<Vec<u8>, FileApiError>(failure) ==> (result matches Err(exception)
            && exception@ == reported@),
{
    if read is Ok && result is Ok && request.kind == ReadKind::BinaryString {
        let bytes = read->Ok_0@;
        let text = result->Ok_0@->BinaryString_0;
        assert forall|i: int| 0 <= i < text.len() implies (#[trigger] text[i]) as u32
            == bytes[i] by {
            crate::package::lemma_byte_char(bytes[i]);
        }
    }
}

} // verus!
