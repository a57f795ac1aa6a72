//! What the commands of the command line report, apart from how it is printed.

use vstd::prelude::*;
use vstd::string::StringExecFns;

use crate::block;
use crate::block::{Block, BlockConfig, BlockView, ConfigView};
use crate::checksum;
use crate::checksum::{ChecksumView, TensorChecksum, ALGORITHM};
use crate::descriptor::{DescriptorView, Dtype, ShardId, TensorDescriptor};
use crate::error::{ErrorView, LoaderError};
use crate::model;
use crate::model::{CopiedBlock, Model, ModelView};
use crate::model_laws;
use crate::path::FilePath;

verus! {

/// A named block configuration.
#[derive(Clone, Copy, PartialEq, Eq, Structural, Debug)]
pub enum Preset {
    Flux,
    Generic,
}

/// The families of a preset.
pub open spec fn preset_families(preset: Preset) -> Seq<Seq<char>> {
    match preset {
        Preset::Flux => seq!["transformer_blocks"@, "single_transformer_blocks"@],
        Preset::Generic => seq![
            "transformer_blocks"@,
            "single_transformer_blocks"@,
            "blocks"@,
            "layers"@,
        ],
    }
}

/// Makes a block configuration from a preset and an optional shared prefix.
pub fn build_config(preset: Preset, model_prefix: Option<&str>) -> (r: BlockConfig)
    ensures
        r@ == (ConfigView {
            model_prefix: match model_prefix {
                Some(p) => Some(p@),
                None => None,
            },
            families: preset_families(preset),
        }),
{
    let config = match preset {
        Preset::Flux => BlockConfig::flux(),
        Preset::Generic => BlockConfig::generic(),
    };
    match model_prefix {
        Some(p) => config.with_model_prefix(p),
        None => config,
    }
}

/// One tensor as it is reported.
#[derive(Debug)]
pub struct TensorRecord {
    pub name: String,
    pub dtype: Dtype,
    pub shape: Vec<usize>,
    pub shard_id: ShardId,
    /// The path of the shard, if the model has a shard with this id.
    pub shard_path: Option<FilePath>,
    pub file_offset: u64,
    pub byte_len: u64,
}

/// What a [`TensorRecord`] says.
#[verifier::ext_equal]
pub struct RecordView {
    pub name: Seq<char>,
    pub dtype: Dtype,
    pub shape: Seq<usize>,
    pub shard_id: ShardId,
    pub shard_path: Option<Seq<u8>>,
    pub file_offset: u64,
    pub byte_len: u64,
}

impl View for TensorRecord {
    type V = RecordView;

    open spec fn view(&self) -> RecordView {
        RecordView {
            name: self.name@,
            dtype: self.dtype,
            shape: self.shape@,
            shard_id: self.shard_id,
            shard_path: match self.shard_path {
                Some(p) => Some(p@),
                None => None,
            },
            file_offset: self.file_offset,
            byte_len: self.byte_len,
        }
    }
}

/// What the records of a list say.
pub open spec fn record_views(rs: Seq<TensorRecord>) -> Seq<RecordView> {
    rs.map_values(|r: TensorRecord| r@)
}

/// A tensor as it is reported.
pub open spec fn record_of(m: ModelView, d: DescriptorView) -> RecordView {
    RecordView {
        name: d.name,
        dtype: d.dtype,
        shape: d.shape,
        shard_id: d.shard_id,
        shard_path: if d.shard_id < m.catalog.shards.len() {
            Some(m.catalog.shards[d.shard_id as int].path)
        } else {
            None
        },
        file_offset: d.file_offset,
        byte_len: d.byte_len,
    }
}

/// Reports one tensor, with the path of its shard.
pub fn tensor_record(model: &Model, d: &TensorDescriptor) -> (r: TensorRecord)
    ensures
        r@ == record_of(model@, d@),
{
    let paths = model.shard_paths();
    let shard_path = if d.shard_id < paths.len() {
        Some(paths[d.shard_id].clone())
    } else {
        None
    };
    let shape = d.shape.clone();
    assert(shape@ =~= d.shape@);
    TensorRecord {
        name: d.name.clone(),
        dtype: d.dtype,
        shape,
        shard_id: d.shard_id,
        shard_path,
        file_offset: d.file_offset,
        byte_len: d.byte_len,
    }
}

/// Reports all tensors of a model, in the order of their names.
pub fn inspect(model: &Model) -> (r: Vec<TensorRecord>)
    ensures
        record_views(r@) == model@.listed().map_values(|d: DescriptorView| record_of(model@, d)),
{
    let ds = model.descriptors();
    let mut out: Vec<TensorRecord> = Vec::new();
    let mut i: usize = 0;
    while i < ds.len()
        invariant
            i <= ds@.len(),
            ds@.len() == model@.listed().len(),
            forall|j: int| 0 <= j < ds@.len() ==> (#[trigger] ds@[j])@ == model@.listed()[j],
            out@.len() == i,
            forall|j: int|
                0 <= j < i ==> (#[trigger] out@[j])@ == record_of(model@, model@.listed()[j]),
        decreases ds@.len() - i,
    {
        out.push(tensor_record(model, ds[i]));
        i = i + 1;
    }
    assert(record_views(out@) =~= model@.listed().map_values(
        |d: DescriptorView| record_of(model@, d),
    ));
    out
}

/// A block as it is reported, with a copy of its bytes where one was asked for.
#[derive(Debug)]
pub struct BlockReport {
    pub block: Block,
    pub copied: Option<CopiedBlock>,
}

/// Finds one block and copies it if asked to.
pub fn report_block(model: &Model, config: &BlockConfig, id: &str, copy: bool) -> (r: Result<
    BlockReport,
    LoaderError,
>)
    requires
        copy ==> forall|b: BlockView| #[trigger]
            block::grouped(model@.listed(), config@).contains(b) && b.id == id@
                ==> model::total_bytes(b.tensors) <= isize::MAX,
    ensures
        match r {
            Ok(report) => {
                &&& exists|found: BlockView| #[trigger]
                    block::grouped(model@.listed(), config@).contains(found) && found.id == id@
                        && report.block@ == model::stamped(found, model@.id)
                &&& match report.copied {
                    Some(c) => {
                        &&& copy
                        &&& c.buffer@ == model_laws::joined_data(model@, report.block@.tensors)
                        &&& model::layout_views(c.layout@) == model::layout_of(
                            report.block@.tensors,
                        )
                        &&& c.bytes_copied == model::total_bytes(report.block@.tensors)
                    },
                    None => !copy,
                }
            },
            Err(e) => e@ == ErrorView::BlockNotFound(id@) && forall|found: BlockView| #[trigger]
                block::grouped(model@.listed(), config@).contains(found) ==> found.id != id@,
        },
{
    let block = match model.block(config, id) {
        Ok(b) => b,
        Err(e) => {
            return Err(e);
        },
    };
    if !copy {
        return Ok(BlockReport { block, copied: None });
    }
    proof {
        let found = choose|found: BlockView| #[trigger]
            block::grouped(model@.listed(), config@).contains(found) && found.id == id@ && block@
                == model::stamped(found, model@.id);
        model_laws::lemma_own_block_consistent(model@, config@, found);
        model_laws::lemma_own_block_readable(model@, config@, found);
        model_laws::lemma_own_block_copyable(
            model@,
            config@,
            found,
            model::total_bytes(found.tensors) as int,
        );
        let empty = Seq::new(model::total_bytes(found.tensors), |i: int| 0u8);
        model_laws::lemma_copy_is_concatenation(model@, empty, found.tensors);
        model_laws::lemma_joined_len(model@, found.tensors);
        assert(model::copied(model@, empty, found.tensors) =~= model_laws::joined_data(
            model@,
            found.tensors,
        ));
    }
    match model.copy_block(&block) {
        Ok(c) => Ok(BlockReport { block, copied: Some(c) }),
        Err(e) => Err(e),
    }
}

/// What a verification says when neither a block nor a tensor was named.
pub const NO_TARGET: &'static str = "verify requires either --block <id> or --tensor <name>";

/// The checksums of a block or of one tensor.
#[derive(Debug)]
pub struct VerifyReport {
    pub target: String,
    pub checksums: Vec<TensorChecksum>,
    pub total_bytes: u64,
}

/// How many bytes some checksums are of together.
pub open spec fn checked_bytes(cs: Seq<ChecksumView>) -> nat
    decreases cs.len(),
{
    if cs.len() == 0 {
        0
    } else {
        checked_bytes(cs.drop_last()) + cs.last().bytes as nat
    }
}

fn sum_checked(cs: &Vec<TensorChecksum>) -> (r: u64)
    requires
        checked_bytes(checksum::checksum_views(cs@)) <= u64::MAX,
    ensures
        r == checked_bytes(checksum::checksum_views(cs@)),
{
    let ghost all = checksum::checksum_views(cs@);
    let mut total: u64 = 0;
    let mut i: usize = 0;
    assert(all.take(0) =~= Seq::<ChecksumView>::empty());
    while i < cs.len()
        invariant
            i <= cs@.len(),
            all == checksum::checksum_views(cs@),
            checked_bytes(all) <= u64::MAX,
            total == checked_bytes(all.take(i as int)),
        decreases cs@.len() - i,
    {
        proof {
            assert(all[i as int] == cs@[i as int]@);
            assert(all.take(i + 1).drop_last() =~= all.take(i as int));
            lemma_checked_prefix(all, i + 1);
        }
        total = total + cs[i].bytes;
        i = i + 1;
    }
    assert(all.take(i as int) =~= all);
    total
}

proof fn lemma_checked_prefix(cs: Seq<ChecksumView>, k: int)
    requires
        0 <= k <= cs.len(),
    ensures
        checked_bytes(cs.take(k)) <= checked_bytes(cs),
    decreases cs.len(),
{
    if k == cs.len() {
        assert(cs.take(k) =~= cs);
    } else {
        assert(cs.drop_last().take(k) =~= cs.take(k));
        lemma_checked_prefix(cs.drop_last(), k);
    }
}

/// The checksums of a block of a model.
pub open spec fn block_checksums(m: ModelView, b: BlockView) -> Seq<ChecksumView> {
    b.tensors.map_values(|d: DescriptorView| checksum::checksum_of(d.name, m.data(d.name)))
}

/// Computes the checksums of a tensor, or of a block where no tensor is named.
pub fn verify(
    model: &Model,
    config: &BlockConfig,
    block_id: Option<&str>,
    tensor: Option<&str>,
) -> (r: Result<VerifyReport, LoaderError>)
    requires
        tensor is None && block_id is Some ==> forall|b: BlockView| #[trigger]
            block::grouped(model@.listed(), config@).contains(b) && b.id == block_id->0@
                ==> checked_bytes(block_checksums(model@, b)) <= u64::MAX,
    ensures
        match (tensor, block_id) {
            (Some(name), _) => match r {
                Ok(v) => {
                    &&& model@.has(name@)
                    &&& v.target@ == "tensor:"@ + name@
                    &&& checksum::checksum_views(v.checksums@) == seq![
                        checksum::checksum_of(name@, model@.data(name@)),
                    ]
                    &&& v.total_bytes == model@.data(name@).len()
                },
                Err(e) => !model@.has(name@) && e@ == ErrorView::TensorNotFound(name@),
            },
            (None, Some(id)) => match r {
                Ok(v) => exists|b: BlockView| #[trigger]
                    block::grouped(model@.listed(), config@).contains(b) && b.id == id@
                        && v.target@ == "block:"@ + id@ && checksum::checksum_views(v.checksums@)
                        == block_checksums(model@, b) && v.total_bytes == checked_bytes(
                        block_checksums(model@, b),
                    ),
                Err(e) => e@ == ErrorView::BlockNotFound(id@) && forall|b: BlockView| #[trigger]
                    block::grouped(model@.listed(), config@).contains(b) ==> b.id != id@,
            },
            (None, None) => r matches Err(e) && e@ == ErrorView::InvalidUsage(NO_TARGET@),
        },
{
    match tensor {
        Some(name) => {
            let c = match model.checksum_tensor(name) {
                Ok(c) => c,
                Err(e) => {
                    return Err(e);
                },
            };
            let mut target = String::from_str("tensor:");
            target.append(name);
            let total_bytes: u64 = c.bytes;
            proof {
                model_laws::lemma_data_len(model@, name@);
            }
            let checksums = vec![c];
            assert(checksum::checksum_views(checksums@) =~= seq![
                checksum::checksum_of(name@, model@.data(name@)),
            ]);
            Ok(VerifyReport { target, checksums, total_bytes })
        },
        None => match block_id {
            None => Err(LoaderError::InvalidUsage(NO_TARGET.to_owned())),
            Some(id) => {
                let block = match model.block(config, id) {
                    Ok(b) => b,
                    Err(e) => {
                        return Err(e);
                    },
                };
                let ghost found = choose|found: BlockView| #[trigger]
                    block::grouped(model@.listed(), config@).contains(found) && found.id == id@
                        && block@ == model::stamped(found, model@.id);
                proof {
                    model_laws::lemma_own_block_readable(model@, config@, found);
                }
                let mut target = String::from_str("block:");
                target.append(id);
                match model.checksum_block(&block) {
                    Ok(checksums) => {
                        assert(checksum::checksum_views(checksums@) =~= block_checksums(
                            model@,
                            found,
                        ));
                        let total_bytes = sum_checked(&checksums);
                        Ok(VerifyReport { target, checksums, total_bytes })
                    },
                    Err(e) => Err(e),
                }
            },
        },
    }
}

impl VerifyReport {
    /// The algorithm of the checksums.
    pub fn algorithm(&self) -> (r: &'static str)
        ensures
            r@ == if self.checksums@.len() > 0 {
                self.checksums@[0].algorithm@
            } else {
                ALGORITHM@
            },
    {
        if self.checksums.len() > 0 {
            self.checksums[0].algorithm
        } else {
            ALGORITHM
        }
    }
}

/// Records are seen one by one, each field under its own name.
pub proof fn lemma_records_seen(rs: Seq<TensorRecord>, i: int)
    requires
        0 <= i < rs.len(),
    ensures
        record_views(rs).len() == rs.len(),
        record_views(rs)[i].name == rs[i].name@,
        record_views(rs)[i].dtype == rs[i].dtype,
        record_views(rs)[i].shape == rs[i].shape@,
        record_views(rs)[i].shard_id == rs[i].shard_id,
        record_views(rs)[i].file_offset == rs[i].file_offset,
        record_views(rs)[i].byte_len == rs[i].byte_len,
        record_views(rs)[i].shard_path is Some <==> rs[i].shard_path is Some,
        rs[i].shard_path matches Some(p) ==> record_views(rs)[i].shard_path == Some(p@),
{
}

} // verus!
