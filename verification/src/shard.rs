//! One shard of a checkpoint: a file's bytes and where its data begins.

use vstd::prelude::*;

use crate::error::{ErrorView, LoaderError};
use crate::header;
use crate::header::{read_declared_len, read_header, Header, HEADER_LEN_PREFIX};
use crate::path::FilePath;

verus! {

/// An opened shard. It borrows the bytes of its file, usually from a memory
/// map, and copies none of them; they must not change while it lives.
#[derive(Debug)]
pub struct Shard<'a> {
    pub path: FilePath,
    bytes: &'a [u8],
    /// Where the tensors' bytes begin: behind the length prefix and the header.
    data_start: u64,
}

/// What a [`Shard`] is made of.
#[verifier::ext_equal]
pub struct ShardView {
    pub path: Seq<u8>,
    pub bytes: Seq<u8>,
    pub data_start: u64,
}

impl<'a> View for Shard<'a> {
    type V = ShardView;

    closed spec fn view(&self) -> ShardView {
        ShardView { path: self.path@, bytes: self.bytes@, data_start: self.data_start }
    }
}

/// What the shards of a list are made of.
pub open spec fn shard_views(shards: Seq<Shard>) -> Seq<ShardView> {
    shards.map_values(|s: Shard| s@)
}

/// Why a file is refused as a shard, if it is.
pub open spec fn open_error(path: Seq<u8>, bytes: Seq<u8>, max_header_bytes: u64) -> Option<
    ErrorView,
> {
    if bytes.len() < 8 {
        Some(ErrorView::HeaderTooSmall { path })
    } else if header::declared_len(bytes) > max_header_bytes {
        Some(
            ErrorView::HeaderTooLarge {
                path,
                declared: header::declared_len(bytes) as u64,
                limit: max_header_bytes,
            },
        )
    } else if header::readable_header(bytes) is None {
        Some(ErrorView::InvalidHeader { path })
    } else {
        None
    }
}

/// A file that is not refused, as a shard.
pub open spec fn opened(path: Seq<u8>, bytes: Seq<u8>) -> ShardView {
    ShardView { path, bytes, data_start: (8 + header::declared_len(bytes)) as u64 }
}

/// The file has a valid header, whose tensors do not overlap, and the data of the
/// shard begins behind it.
pub open spec fn framed(shard: ShardView) -> bool {
    &&& header::readable_header(shard.bytes) is Some
    &&& 8 + header::declared_len(shard.bytes) <= shard.bytes.len()
    &&& shard.data_start == 8 + header::declared_len(shard.bytes)
    &&& header::apart(header::tensors_of(shard.bytes))
}

/// The byte range of a tensor in its file, from its range in the data section.
pub open spec fn absolute(
    shard: ShardView,
    tensor: Seq<char>,
    rel_start: u64,
    rel_end: u64,
) -> Result<(u64, u64), ErrorView> {
    if shard.data_start + rel_start > u64::MAX || shard.data_start + rel_end > u64::MAX {
        Err(ErrorView::OffsetOverflow { path: shard.path, tensor })
    } else {
        Ok(((shard.data_start + rel_start) as u64, (shard.data_start + rel_end) as u64))
    }
}

impl<'a> Shard<'a> {
    /// Opens a file whose bytes are at hand. The length that the header declares
    /// is held against `max_header_bytes` before any of the header is parsed.
    /// Also gives the tensors that the header declares.
    pub fn open(path: &FilePath, bytes: &'a [u8], max_header_bytes: u64) -> (r: Result<
        (Shard<'a>, Header),
        LoaderError,
    >)
        ensures
            match r {
                Ok((shard, found)) => {
                    &&& open_error(path@, bytes@, max_header_bytes) is None
                    &&& shard@ == opened(path@, bytes@)
                    &&& header::header_view(found) == header::tensors_of(bytes@)
                    &&& 8 + header::declared_len(bytes@) <= bytes@.len()
                    &&& forall|name: Seq<char>| #[trigger]
                        header::header_view(found).contains_key(name) ==> header::fits(
                            header::header_view(found)[name],
                            bytes@.len() - shard@.data_start,
                        )
                    &&& header::apart(header::header_view(found))
                },
                Err(e) => open_error(path@, bytes@, max_header_bytes) == Some(e@),
            },
    {
        if (bytes.len() as u64) < HEADER_LEN_PREFIX {
            return Err(LoaderError::HeaderTooSmall { path: path.clone() });
        }
        let declared = read_declared_len(bytes);
        if declared > max_header_bytes {
            return Err(
                LoaderError::HeaderTooLarge {
                    path: path.clone(),
                    declared,
                    limit: max_header_bytes,
                },
            );
        }
        match read_header(bytes) {
            Err(source) => Err(LoaderError::InvalidHeader { path: path.clone(), source }),
            Ok((header_len, found)) => {
                proof {
                    header::lemma_typed_contents(
                        (header::readable_header(bytes@)->0).1,
                        header::header_view(found),
                    );
                }
                match Shard::with_header_len(path, bytes, header_len) {
                    Ok(shard) => Ok((shard, found)),
                    Err(e) => Err(e),
                }
            },
        }
    }

    /// A shard whose header is known to be `header_len` bytes long.
    pub fn with_header_len(path: &FilePath, bytes: &'a [u8], header_len: usize) -> (r: Result<
        Shard<'a>,
        LoaderError,
    >)
        ensures
            match r {
                Ok(shard) => 8 + header_len <= u64::MAX && shard@ == (ShardView {
                    path: path@,
                    bytes: bytes@,
                    data_start: (8 + header_len) as u64,
                }),
                Err(e) => 8 + header_len > u64::MAX && e@ == (ErrorView::OffsetOverflow {
                    path: path@,
                    tensor: Seq::empty(),
                }),
            },
    {
        match HEADER_LEN_PREFIX.checked_add(header_len as u64) {
            Some(data_start) => Ok(Shard { path: path.clone(), bytes, data_start }),
            None => {
                let tensor = String::new();
                assert(tensor@ =~= Seq::<char>::empty());
                Err(LoaderError::OffsetOverflow { path: path.clone(), tensor })
            },
        }
    }

    /// The byte range in the file for a range in the data section.
    pub fn absolute_range(&self, tensor: &str, rel_start: u64, rel_end: u64) -> (r: Result<
        (u64, u64),
        LoaderError,
    >)
        ensures
            match r {
                Ok(range) => absolute(self@, tensor@, rel_start, rel_end) == Ok::<_, ErrorView>(
                    range,
                ),
                Err(e) => absolute(self@, tensor@, rel_start, rel_end) == Err::<(u64, u64), _>(e@),
            },
    {
        match self.data_start.checked_add(rel_start) {
            Some(start) => match self.data_start.checked_add(rel_end) {
                Some(end) => Ok((start, end)),
                None => Err(
                    LoaderError::OffsetOverflow {
                        path: self.path.clone(),
                        tensor: tensor.to_owned(),
                    },
                ),
            },
            None => Err(
                LoaderError::OffsetOverflow { path: self.path.clone(), tensor: tensor.to_owned() },
            ),
        }
    }

    /// The bytes from `start` up to `end` of the file, borrowed.
    pub fn byte_range(&self, tensor: &str, start: u64, end: u64) -> (r: Result<
        &'a [u8],
        LoaderError,
    >)
        ensures
            match r {
                Ok(bytes) => start <= end <= self@.bytes.len() && bytes@ == self@.bytes.subrange(
                    start as int,
                    end as int,
                ),
                Err(e) => !(start <= end <= self@.bytes.len()) && e@ == (ErrorView::OutOfBounds {
                    path: self@.path,
                    tensor: tensor@,
                    start,
                    end,
                    file_len: self@.bytes.len() as u64,
                }),
            },
    {
        let file_len = self.bytes.len() as u64;
        if start > end || end > file_len {
            return Err(
                LoaderError::OutOfBounds {
                    path: self.path.clone(),
                    tensor: tensor.to_owned(),
                    start,
                    end,
                    file_len,
                },
            );
        }
        Ok(vstd::slice::slice_subrange(self.bytes, start as usize, end as usize))
    }

    /// The bytes of a file can be counted.
    pub proof fn lemma_len(&self)
        ensures
            self@.bytes.len() <= usize::MAX,
    {
        assert(self.bytes.len() == self.bytes@.len());
    }

    pub fn path(&self) -> (r: &FilePath)
        ensures
            r@ == self@.path,
    {
        &self.path
    }

    pub fn file_len(&self) -> (r: u64)
        ensures
            r == self@.bytes.len(),
    {
        self.bytes.len() as u64
    }

    /// Where the data section begins.
    pub fn data_start(&self) -> (r: u64)
        ensures
            r == self@.data_start,
    {
        self.data_start
    }
}

/// Shards are seen one by one.
pub proof fn lemma_shards_seen(shards: Seq<Shard<'_>>, i: int)
    requires
        0 <= i < shards.len(),
    ensures
        shard_views(shards).len() == shards.len(),
        shard_views(shards)[i] == shards[i]@,
{
}

} // verus!
