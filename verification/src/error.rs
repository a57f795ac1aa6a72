//! What can go wrong while a checkpoint is indexed and read.

use vstd::prelude::*;

use crate::path;
use crate::path::FilePath;

verus! {

/// `safetensors::SafeTensorError`, the reason for which a header was refused.
#[verifier::external_type_specification]
#[verifier::external_body]
pub struct ExSafeTensorError(safetensors::SafeTensorError);

/// The errors of this crate. Each carries what is needed to act on it: the
/// path, the tensor or block, the offsets.
#[derive(Debug)]
pub enum LoaderError {
    /// The header of `path` declares more bytes than the configured limit.
    HeaderTooLarge { path: FilePath, declared: u64, limit: u64 },
    /// `path` is smaller than the length prefix of a header.
    HeaderTooSmall { path: FilePath },
    /// The header of `path` could not be parsed or is not valid.
    InvalidHeader { path: FilePath, source: safetensors::SafeTensorError },
    /// The byte range of a tensor cannot be computed without overflow.
    OffsetOverflow { path: FilePath, tensor: String },
    /// The byte range of a tensor does not lie within its file.
    OutOfBounds { path: FilePath, tensor: String, start: u64, end: u64, file_len: u64 },
    /// A shard path in an index is rejected.
    UnsafeShardPath { index_path: FilePath, raw: String, reason: &'static str },
    /// The index lists a tensor for a shard that does not contain it.
    TensorMissingFromShard { index_path: FilePath, shard_path: FilePath, tensor: String },
    /// A shard contains a tensor that the index does not list for it.
    TensorMissingFromIndex { index_path: FilePath, shard_path: FilePath, tensor: String },
    /// Two shards contain a tensor of the same name.
    DuplicateTensorName { tensor: String, first_path: FilePath, second_path: FilePath },
    /// A directory holds no shard.
    NoShardsFound { dir: FilePath },
    /// A directory holds several candidates, and nothing tells which is meant.
    AmbiguousDirectory { dir: FilePath, reason: &'static str, candidates: Vec<FilePath> },
    /// A path is neither a shard nor an index nor a directory.
    UnsupportedInput { path: FilePath },
    TensorNotFound(String),
    /// No tensor matched this block id.
    BlockNotFound(String),
    /// A block was handed to a model that did not produce it.
    BlockFromDifferentModel { block_id: String },
    /// A block needs more bytes than the destination has.
    DestinationTooSmall { needed: u64, got: u64 },
    UnknownFamily(String),
    InvalidUsage(String),
}

/// What a [`LoaderError`] says, apart from why a header was refused.
#[verifier::ext_equal]
pub enum ErrorView {
    HeaderTooLarge { path: Seq<u8>, declared: u64, limit: u64 },
    HeaderTooSmall { path: Seq<u8> },
    InvalidHeader { path: Seq<u8> },
    OffsetOverflow { path: Seq<u8>, tensor: Seq<char> },
    OutOfBounds { path: Seq<u8>, tensor: Seq<char>, start: u64, end: u64, file_len: u64 },
    UnsafeShardPath { index_path: Seq<u8>, raw: Seq<char>, reason: Seq<char> },
    TensorMissingFromShard { index_path: Seq<u8>, shard_path: Seq<u8>, tensor: Seq<char> },
    TensorMissingFromIndex { index_path: Seq<u8>, shard_path: Seq<u8>, tensor: Seq<char> },
    DuplicateTensorName { tensor: Seq<char>, first_path: Seq<u8>, second_path: Seq<u8> },
    NoShardsFound { dir: Seq<u8> },
    AmbiguousDirectory { dir: Seq<u8>, reason: Seq<char>, candidates: Seq<Seq<u8>> },
    UnsupportedInput { path: Seq<u8> },
    TensorNotFound(Seq<char>),
    BlockNotFound(Seq<char>),
    BlockFromDifferentModel { block_id: Seq<char> },
    DestinationTooSmall { needed: u64, got: u64 },
    UnknownFamily(Seq<char>),
    InvalidUsage(Seq<char>),
}

impl View for LoaderError {
    type V = ErrorView;

    open spec fn view(&self) -> ErrorView {
        match self {
            LoaderError::HeaderTooLarge { path, declared, limit } => ErrorView::HeaderTooLarge {
                path: path@,
                declared: *declared,
                limit: *limit,
            },
            LoaderError::HeaderTooSmall { path } => ErrorView::HeaderTooSmall { path: path@ },
            LoaderError::InvalidHeader { path, source: _ } => ErrorView::InvalidHeader {
                path: path@,
            },
            LoaderError::OffsetOverflow { path, tensor } => ErrorView::OffsetOverflow {
                path: path@,
                tensor: tensor@,
            },
            LoaderError::OutOfBounds { path, tensor, start, end, file_len } => {
                ErrorView::OutOfBounds {
                    path: path@,
                    tensor: tensor@,
                    start: *start,
                    end: *end,
                    file_len: *file_len,
                }
            },
            LoaderError::UnsafeShardPath { index_path, raw, reason } => ErrorView::UnsafeShardPath {
                index_path: index_path@,
                raw: raw@,
                reason: reason@,
            },
            LoaderError::TensorMissingFromShard { index_path, shard_path, tensor } => {
                ErrorView::TensorMissingFromShard {
                    index_path: index_path@,
                    shard_path: shard_path@,
                    tensor: tensor@,
                }
            },
            LoaderError::TensorMissingFromIndex { index_path, shard_path, tensor } => {
                ErrorView::TensorMissingFromIndex {
                    index_path: index_path@,
                    shard_path: shard_path@,
                    tensor: tensor@,
                }
            },
            LoaderError::DuplicateTensorName { tensor, first_path, second_path } => {
                ErrorView::DuplicateTensorName {
                    tensor: tensor@,
                    first_path: first_path@,
                    second_path: second_path@,
                }
            },
            LoaderError::NoShardsFound { dir } => ErrorView::NoShardsFound { dir: dir@ },
            LoaderError::AmbiguousDirectory { dir, reason, candidates } => {
                ErrorView::AmbiguousDirectory {
                    dir: dir@,
                    reason: reason@,
                    candidates: path::path_views(candidates@),
                }
            },
            LoaderError::UnsupportedInput { path } => ErrorView::UnsupportedInput { path: path@ },
            LoaderError::TensorNotFound(name) => ErrorView::TensorNotFound(name@),
            LoaderError::BlockNotFound(id) => ErrorView::BlockNotFound(id@),
            LoaderError::BlockFromDifferentModel { block_id } => {
                ErrorView::BlockFromDifferentModel { block_id: block_id@ }
            },
            LoaderError::DestinationTooSmall { needed, got } => ErrorView::DestinationTooSmall {
                needed: *needed,
                got: *got,
            },
            LoaderError::UnknownFamily(label) => ErrorView::UnknownFamily(label@),
            LoaderError::InvalidUsage(text) => ErrorView::InvalidUsage(text@),
        }
    }
}

/// An error is seen as what it is, each number, path and name under its own name.
pub proof fn lemma_error_seen(e: LoaderError)
    ensures
        e matches LoaderError::HeaderTooLarge { path, declared, limit } ==> e@ == (
        ErrorView::HeaderTooLarge { path: path@, declared, limit }),
        e matches LoaderError::HeaderTooSmall { path } ==> e@ == (ErrorView::HeaderTooSmall {
            path: path@,
        }),
        e matches LoaderError::InvalidHeader { path, .. } ==> e@ == (ErrorView::InvalidHeader {
            path: path@,
        }),
        e matches LoaderError::OffsetOverflow { path, tensor } ==> e@ == (
        ErrorView::OffsetOverflow { path: path@, tensor: tensor@ }),
        e matches LoaderError::OutOfBounds { path, tensor, start, end, file_len } ==> e@ == (
        ErrorView::OutOfBounds { path: path@, tensor: tensor@, start, end, file_len }),
        e matches LoaderError::UnsafeShardPath { index_path, raw, reason } ==> e@ == (
        ErrorView::UnsafeShardPath { index_path: index_path@, raw: raw@, reason: reason@ }),
        e matches LoaderError::TensorMissingFromShard { index_path, shard_path, tensor } ==> e@ == (
        ErrorView::TensorMissingFromShard {
            index_path: index_path@,
            shard_path: shard_path@,
            tensor: tensor@,
        }),
        e matches LoaderError::TensorMissingFromIndex { index_path, shard_path, tensor } ==> e@ == (
        ErrorView::TensorMissingFromIndex {
            index_path: index_path@,
            shard_path: shard_path@,
            tensor: tensor@,
        }),
        e matches LoaderError::DuplicateTensorName { tensor, first_path, second_path } ==> e@ == (
        ErrorView::DuplicateTensorName {
            tensor: tensor@,
            first_path: first_path@,
            second_path: second_path@,
        }),
        e matches LoaderError::NoShardsFound { dir } ==> e@ == (ErrorView::NoShardsFound {
            dir: dir@,
        }),
        e matches LoaderError::AmbiguousDirectory { dir, reason, candidates } ==> e@ == (
        ErrorView::AmbiguousDirectory {
            dir: dir@,
            reason: reason@,
            candidates: candidates@.map_values(|p: FilePath| p@),
        }),
        e matches LoaderError::UnsupportedInput { path } ==> e@ == (ErrorView::UnsupportedInput {
            path: path@,
        }),
        e matches LoaderError::TensorNotFound(name) ==> e@ == ErrorView::TensorNotFound(name@),
        e matches LoaderError::BlockNotFound(id) ==> e@ == ErrorView::BlockNotFound(id@),
        e matches LoaderError::BlockFromDifferentModel { block_id } ==> e@ == (
        ErrorView::BlockFromDifferentModel { block_id: block_id@ }),
        e matches LoaderError::DestinationTooSmall { needed, got } ==> e@ == (
        ErrorView::DestinationTooSmall { needed, got }),
{
}

pub type Result<T> = std::result::Result<T, LoaderError>;

} // verus!
