//! Lists of files.

use vstd::prelude::*;

use crate::error::{range_error, JsError, JsErrorKind};
use crate::number::{f64_to_unsigned_long, unsigned_long_of};

verus! {

/// The most files of a list: the last array index is two below `2^32`.
pub const MAX_FILES: usize = 4294967294;

/// The number of files of a list; the files themselves stand in the indexed
/// properties of the list object.
#[derive(Debug, PartialEq, Eq, Structural)]
pub struct FileListNative {
    len: usize,
}

impl FileListNative {
    /// The number of files.
    pub closed spec fn spec_len(self) -> usize {
        self.len
    }

    /// Every position of the list is an array index.
    pub open spec fn wf(self) -> bool {
        self.spec_len() <= MAX_FILES
    }

    /// A list of `count` files, unless they are too many to index.
    pub fn create(count: usize) -> (result: Result<FileListNative, JsError>)
        ensures
            match result {
                Ok(list) => list.wf() && list.spec_len() == count,
                Err(error) => count > MAX_FILES && error@ == (
                    JsErrorKind::Range,
                    "too many files in the FileList"@,
                ),
            },
    {
        if count > MAX_FILES {
            return Err(range_error("too many files in the FileList"));
        }
        Ok(FileListNative { len: count })
    }

    /// The number of files.
    pub fn len(&self) -> (count: usize)
        ensures
            count == self.spec_len(),
    {
        self.len
    }

    /// The position that `item` looks at for an argument, given by the bit
    /// pattern of its number; none where the list ends before it.
    pub fn item(&self, index: u64) -> (position: Option<u32>)
        ensures
            match position {
                Some(at) => at == unsigned_long_of(index) && at < self.spec_len(),
                None => unsigned_long_of(index) >= self.spec_len(),
            },
    {
        let index: u32 = f64_to_unsigned_long(index);
        if index as u64 >= self.len as u64 {
            return None;
        }
        Some(index)
    }
}


/// A list of so many files has that length, and finds a file at exactly the
/// places below it; the place is the number that the index converts to.
pub proof fn lemma_lists_find_their_places(
    count: usize,
    made: Result<FileListNative, JsError>,
    len: usize,
    index: u64,
    at: u32,
    found: Option<u32>,
)
    requires
        call_ensures(FileListNative::create, (count,), made),
        made matches Ok(list) ==> {
            &&& call_ensures(FileListNative::len, (&list,), len)
            &&& call_ensures(FileListNative::item, (&list, index), found)
        },
        call_ensures(f64_to_unsigned_long, (index,), at),
    ensures
        made is Ok <==> count <= MAX_FILES,
        made is Ok ==> len == count,
        made is Ok ==> found == if at < count {
            Some(at)
        } else {
            None
        },
{
}

} // verus!
