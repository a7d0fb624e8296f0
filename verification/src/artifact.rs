//! Telling artifacts from other files of a build output directory.
//!
//! An artifact is a JSON file that describes one compiled contract. Its
//! file name, without the ending `.json`, is the contract's name; the ABI
//! and the bytecode come from the file's content, which the caller decodes.

use vstd::prelude::*;
use vstd::utf8::{decode_utf8, valid_utf8};
use crate::abi::{AbiRecord, AbiRecordView};
use crate::path::{PathSeq, WatchPath};

verus! {

/// What the content of an artifact file holds, once decoded.
#[derive(Debug, Clone, PartialEq, Eq)]
pub struct ArtifactFile {
    /// The contract's interface, as JSON text.
    pub abi: String,
    /// The compiled bytecode.
    pub code: Vec<u8>,
}

/// What a file event means for the repository.
#[derive(Debug, Clone, PartialEq, Eq)]
pub enum Change {
    /// The file is an artifact: file this record under its path.
    Upsert(AbiRecord),
    /// The file is no artifact, or no longer one: take out what is filed
    /// under its path.
    Remove(WatchPath),
}

/// The ending of an artifact's file name: `.json`, in bytes.
pub open spec fn artifact_suffix() -> Seq<u8> {
    seq![46u8, 106u8, 115u8, 111u8, 110u8]
}

/// The file name of `path` without the artifact ending. There is none
/// where the path is empty, the file name does not end in `.json`, or
/// nothing stands before the ending.
pub open spec fn artifact_stem(path: PathSeq) -> Option<Seq<u8>> {
    if path.len() == 0 {
        None
    } else {
        let file = path.last();
        let n = file.len() - 5;
        if n > 0 && file.subrange(n, file.len() as int) == artifact_suffix() {
            Some(file.subrange(0, n))
        } else {
            None
        }
    }
}

/// The contract name that the path of an artifact gives: the stem of its
/// file name, where that is text.
pub open spec fn artifact_name(path: PathSeq) -> Option<Seq<char>> {
    match artifact_stem(path) {
        Some(stem) => if valid_utf8(stem) {
            Some(decode_utf8(stem))
        } else {
            None
        },
        None => None,
    }
}

/// What a file at `path` with the given decoded content means: a record
/// where the path names a contract and the content could be decoded, else
/// nothing.
pub open spec fn record_of(path: PathSeq, abi: Seq<char>, code: Seq<u8>) -> Option<AbiRecordView> {
    match artifact_name(path) {
        Some(name) => Some(AbiRecordView { path, name, abi, code }),
        None => None,
    }
}

/// Calls `String::from_utf8` of the standard library, which turns bytes
/// into text. It is taken to give text exactly for bytes that are valid
/// UTF-8, and then the characters that they encode.
#[verifier::external_body]
fn text_from_utf8(bytes: Vec<u8>) -> (r: Option<String>)
    ensures
        r is Some <==> valid_utf8(bytes@),
        r matches Some(s) ==> s@ == decode_utf8(bytes@),
{
    match String::from_utf8(bytes) {
        Ok(s) => Some(s),
        Err(_) => None,
    }
}

/// The file name of `path` without the artifact ending.
pub fn stem_of(path: &WatchPath) -> (r: Option<Vec<u8>>)
    ensures
        match r {
            Some(stem) => artifact_stem(path@) == Some(stem@),
            None => artifact_stem(path@) is None,
        },
{
    let depth = path.components.len();
    if depth == 0 {
        return None;
    }
    let file = &path.components[depth - 1];
    assert(file@ == path@.last());
    let len = file.len();
    if len <= 5 {
        return None;
    }
    let n = len - 5;
    if file[n] != 46u8 || file[n + 1] != 106u8 || file[n + 2] != 115u8 || file[n + 3] != 111u8 || file[n + 4]
        != 110u8 {
        assert(file@.subrange(n as int, len as int)[0] == file@[n as int]);
        assert(file@.subrange(n as int, len as int)[1] == file@[n + 1]);
        assert(file@.subrange(n as int, len as int)[2] == file@[n + 2]);
        assert(file@.subrange(n as int, len as int)[3] == file@[n + 3]);
        assert(file@.subrange(n as int, len as int)[4] == file@[n + 4]);
        return None;
    }
    assert(file@.subrange(n as int, len as int) =~= artifact_suffix());
    let mut stem: Vec<u8> = Vec::new();
    let mut i: usize = 0;
    while i < n
        invariant
            i <= n < file@.len(),
            stem@ == file@.subrange(0, i as int),
        decreases n - i,
    {
        stem.push(file[i]);
        assert(stem@ == file@.subrange(0, i + 1));
        i += 1;
    }
    Some(stem)
}

/// The contract name that the path of an artifact gives.
pub fn name_of(path: &WatchPath) -> (r: Option<String>)
    ensures
        match r {
            Some(name) => artifact_name(path@) == Some(name@),
            None => artifact_name(path@) is None,
        },
{
    match stem_of(path) {
        Some(stem) => text_from_utf8(stem),
        None => None,
    }
}

/// Decides what a file event means for the repository. `decoded` is the
/// content of the file at `path`, or `None` where the file is gone, cannot
/// be read, or does not hold what an artifact holds.
pub fn classify(path: WatchPath, decoded: Option<ArtifactFile>) -> (change: Change)
    ensures
        match change {
            Change::Upsert(record) => decoded is Some && record_of(path@, decoded->0.abi@, decoded->0.code@) == Some(
                record@,
            ),
            Change::Remove(p) => p@ == path@ && (decoded is None || artifact_name(path@) is None),
        },
{
    match decoded {
        Some(file) => {
            match name_of(&path) {
                Some(name) => Change::Upsert(AbiRecord { path, name, abi: file.abi, code: file.code }),
                None => Change::Remove(path),
            }
        },
        None => Change::Remove(path),
    }
}

} // verus!
