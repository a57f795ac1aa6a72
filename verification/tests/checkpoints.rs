//! Checkpoints from opening to reading, on a file system in memory.

use std::collections::{BTreeMap, BTreeSet, HashSet};

use safetensors::tensor::TensorView;
use streamloader::cli::{build_config, inspect, report_block, verify, Preset};
use streamloader::discovery::{DirEntry, IndexJson, Listing};
use streamloader::name_map::NameMap;
use streamloader::opening::Opening;
use streamloader::{
    BlockConfig, BlockFamily, Dtype, FilePath, LoaderError, Model, ModelIds, OpenOptions,
    UNASSIGNED,
};

struct FakeTensor {
    name: String,
    dtype: safetensors::Dtype,
    shape: Vec<usize>,
    data: Vec<u8>,
}

/// A ramp of numbers that depends on the seed.
fn f32_tensor(name: &str, shape: Vec<usize>, seed: u32) -> FakeTensor {
    let n: usize = shape.iter().product();
    let mut data = Vec::with_capacity(n * 4);
    for i in 0..n {
        let v = seed as f32 + (i as f32) * 0.5;
        data.extend_from_slice(&v.to_le_bytes());
    }
    FakeTensor {
        name: name.to_string(),
        dtype: safetensors::Dtype::F32,
        shape,
        data,
    }
}

fn scalar_f32(name: &str, value: f32) -> FakeTensor {
    FakeTensor {
        name: name.to_string(),
        dtype: safetensors::Dtype::F32,
        shape: vec![],
        data: value.to_le_bytes().to_vec(),
    }
}

fn empty_tensor(name: &str, shape: Vec<usize>) -> FakeTensor {
    FakeTensor {
        name: name.to_string(),
        dtype: safetensors::Dtype::F32,
        shape,
        data: Vec::new(),
    }
}

fn safetensors_bytes(tensors: &[FakeTensor]) -> Vec<u8> {
    let mut sorted: Vec<&FakeTensor> = tensors.iter().collect();
    sorted.sort_by(|a, b| a.name.cmp(&b.name));
    let views: Vec<(String, TensorView)> = sorted
        .iter()
        .map(|t| {
            let view = TensorView::new(t.dtype, t.shape.clone(), &t.data)
                .expect("shape, type and data must agree");
            (t.name.clone(), view)
        })
        .collect();
    safetensors::serialize(views, None).expect("serialize")
}

/// Files, indexes and links by absolute path.
#[derive(Default)]
struct Disk {
    files: BTreeMap<String, Vec<u8>>,
    indexes: BTreeMap<String, Vec<(String, String)>>,
    links: BTreeMap<String, String>,
    dirs: BTreeSet<String>,
}

fn text_of(path: &FilePath) -> String {
    String::from_utf8(path.as_bytes().to_vec()).unwrap()
}

fn parent_of(path: &str) -> &str {
    let at = path.rfind('/').unwrap();
    &path[..at]
}

impl Disk {
    fn write(&mut self, path: &str, tensors: &[FakeTensor]) -> Vec<u8> {
        let bytes = safetensors_bytes(tensors);
        self.files.insert(path.to_string(), bytes.clone());
        bytes
    }

    fn write_index(&mut self, path: &str, map: &[(&str, &str)]) {
        let map = map
            .iter()
            .map(|(name, raw)| (name.to_string(), raw.to_string()))
            .collect();
        self.indexes.insert(path.to_string(), map);
    }

    /// One file per shard and an index of them all. Gives the index's path.
    fn write_sharded(&mut self, dir: &str, shards: Vec<(&str, Vec<FakeTensor>)>) -> String {
        let mut map = Vec::new();
        for (filename, tensors) in &shards {
            self.write(&format!("{dir}/{filename}"), tensors);
            for t in tensors {
                map.push((t.name.clone(), filename.to_string()));
            }
        }
        let index_path = format!("{dir}/model.safetensors.index.json");
        self.indexes.insert(index_path.clone(), map);
        index_path
    }

    fn is_file(&self, path: &str) -> bool {
        self.files.contains_key(path)
            || self.indexes.contains_key(path)
            || self.links.contains_key(path)
    }

    fn all_paths(&self) -> Vec<String> {
        let mut all: Vec<String> = Vec::new();
        all.extend(self.links.keys().cloned());
        all.extend(self.indexes.keys().cloned());
        all.extend(self.files.keys().cloned());
        all
    }

    fn listing(&self, path: &str) -> Listing {
        if self.is_file(path) {
            return Listing::File;
        }
        let mut entries = Vec::new();
        for p in self.all_paths() {
            if parent_of(&p) == path {
                entries.push(DirEntry {
                    path: FilePath::from_text(&p),
                    is_file: true,
                });
            }
        }
        if entries.is_empty() && !self.dirs.contains(path) {
            return Listing::Other;
        }
        Listing::Directory(entries)
    }

    fn index(&self, path: &str) -> IndexJson {
        let mut weight_map: NameMap<String> = NameMap::new();
        for (name, raw) in &self.indexes[path] {
            weight_map.insert(name, raw.clone());
        }
        IndexJson { weight_map }
    }

    fn real_path(&self, path: &str) -> String {
        match self.links.get(path) {
            Some(target) => target.clone(),
            None => path.to_string(),
        }
    }

    fn open_with<'a>(
        &'a self,
        path: &str,
        opts: &OpenOptions,
        ids: &mut ModelIds,
    ) -> Result<Model<'a>, LoaderError> {
        let mut state = Model::open_with(&FilePath::from_text(path), opts);
        loop {
            state = match state {
                Opening::Listing(s) => {
                    let listing = self.listing(&text_of(s.path()));
                    s.listed(&listing)?
                }
                Opening::Index(s) => {
                    let index = self.index(&text_of(s.path()));
                    s.parsed(&index)?
                }
                Opening::ShardPath(s) => {
                    let boundary = self.real_path(&text_of(&s.boundary()));
                    let shard = self.real_path(&text_of(&s.candidate()));
                    s.resolved(&FilePath::from_text(&boundary), &FilePath::from_text(&shard))?
                }
                Opening::Bytes(s) => {
                    let bytes = &self.files[&text_of(s.path())];
                    s.mapped(bytes)?
                }
                Opening::Id(s) => return Ok(s.identified(ids.take())),
            };
        }
    }

    fn open(&self, path: &str) -> Result<Model<'_>, LoaderError> {
        self.open_with(path, &OpenOptions::default(), &mut ModelIds::new())
    }
}

fn flux_like_shards() -> Vec<(&'static str, Vec<FakeTensor>)> {
    vec![
        (
            "shard-00001-of-00002.safetensors",
            vec![
                f32_tensor("transformer_blocks.2.attn.qkv.weight", vec![4, 4], 2),
                f32_tensor("transformer_blocks.2.attn.qkv.bias", vec![4], 20),
                f32_tensor("transformer_blocks.10.attn.qkv.weight", vec![4, 4], 10),
                f32_tensor("single_transformer_blocks.0.proj.weight", vec![4, 4], 100),
                scalar_f32("shared.time_embed.scale", 1.5),
            ],
        ),
        (
            "shard-00002-of-00002.safetensors",
            vec![
                f32_tensor("transformer_blocks.2.mlp.fc1.weight", vec![4, 8], 21),
                f32_tensor("transformer_blocks.10.attn.qkv.bias", vec![4], 101),
                f32_tensor("single_transformer_blocks.0.proj.bias", vec![4], 101),
            ],
        ),
    ]
}

fn flux_disk() -> (Disk, String) {
    let mut disk = Disk::default();
    let index_path = disk.write_sharded("/ckpt", flux_like_shards());
    (disk, index_path)
}

#[test]
fn numeric_ordering_and_flux_family_order() {
    let (disk, index_path) = flux_disk();
    let model = disk.open(&index_path).unwrap();
    let blocks = model.blocks(&BlockConfig::flux());

    let ids: Vec<&str> = blocks.iter().map(|b| b.id.as_str()).collect();
    assert_eq!(
        ids,
        vec![
            "transformer_blocks.2",
            "transformer_blocks.10",
            "single_transformer_blocks.0",
            UNASSIGNED,
        ]
    );
}

#[test]
fn shared_unassigned_and_explicit_prefix_selection() {
    let (disk, index_path) = flux_disk();
    let model = disk.open(&index_path).unwrap();
    let config = BlockConfig::flux();
    let blocks = model.blocks(&config);
    let unassigned = blocks.iter().find(|b| b.id == UNASSIGNED).unwrap();
    let names: Vec<&str> = unassigned.tensors.iter().map(|d| d.name.as_str()).collect();
    assert_eq!(names, vec!["shared.time_embed.scale"]);

    let fetched = model.block(&config, UNASSIGNED).unwrap();
    assert_eq!(fetched.tensors.len(), 1);
}

#[test]
fn exact_block_matching_1_does_not_include_10() {
    let mut disk = Disk::default();
    let index_path = disk.write_sharded(
        "/ckpt",
        vec![(
            "shard.safetensors",
            vec![
                f32_tensor("transformer_blocks.1.weight", vec![2], 1),
                f32_tensor("transformer_blocks.10.weight", vec![2], 10),
            ],
        )],
    );
    let model = disk.open(&index_path).unwrap();

    let config = BlockConfig::flux();
    let block1 = model.block(&config, "transformer_blocks.1").unwrap();
    assert_eq!(block1.tensors.len(), 1);
    assert_eq!(block1.tensors[0].name, "transformer_blocks.1.weight");

    let block10 = model.block(&config, "transformer_blocks.10").unwrap();
    assert_eq!(block10.tensors.len(), 1);
    assert_eq!(block10.tensors[0].name, "transformer_blocks.10.weight");
}

#[test]
fn nonexistent_block_is_an_error() {
    let (disk, index_path) = flux_disk();
    let model = disk.open(&index_path).unwrap();
    let config = BlockConfig::flux();
    let err = model.block(&config, "transformer_blocks.999").unwrap_err();
    assert!(matches!(err, LoaderError::BlockNotFound(_)));
}

#[test]
fn generic_preset_covers_blocks_and_layers_conventions() {
    let mut disk = Disk::default();
    let index_path = disk.write_sharded(
        "/ckpt",
        vec![(
            "shard.safetensors",
            vec![
                f32_tensor("blocks.3.weight", vec![2], 1),
                f32_tensor("layers.5.weight", vec![2], 2),
            ],
        )],
    );
    let model = disk.open(&index_path).unwrap();

    let blocks = model.blocks(&BlockConfig::generic());
    let ids: Vec<&str> = blocks.iter().map(|b| b.id.as_str()).collect();
    assert!(ids.contains(&"blocks.3"));
    assert!(ids.contains(&"layers.5"));
}

#[test]
fn explicit_model_prefix_does_not_strip_unrelated_names() {
    let mut disk = Disk::default();
    let index_path = disk.write_sharded(
        "/ckpt",
        vec![(
            "shard.safetensors",
            vec![
                f32_tensor("model.layers.0.weight", vec![2], 1),
                f32_tensor("other_model.layers.0.weight", vec![2], 2),
            ],
        )],
    );
    let model = disk.open(&index_path).unwrap();

    let config = BlockConfig::new(vec![BlockFamily::new("layers")]).with_model_prefix("model");
    let block = model.block(&config, "layers.0").unwrap();
    let names: Vec<&str> = block.tensors.iter().map(|d| d.name.as_str()).collect();
    assert_eq!(names, vec!["model.layers.0.weight"]);

    let blocks = model.blocks(&config);
    let unassigned = blocks.iter().find(|b| b.id == UNASSIGNED).unwrap();
    assert_eq!(
        unassigned
            .tensors
            .iter()
            .map(|d| d.name.as_str())
            .collect::<Vec<_>>(),
        vec!["other_model.layers.0.weight"]
    );
}

#[test]
fn multi_shard_valid_weight_map() {
    let mut disk = Disk::default();
    let index_path = disk.write_sharded(
        "/ckpt",
        vec![
            (
                "shard-a.safetensors",
                vec![f32_tensor("layers.0.weight", vec![2], 1)],
            ),
            (
                "shard-b.safetensors",
                vec![f32_tensor("layers.1.weight", vec![2], 2)],
            ),
        ],
    );

    let model = disk.open(&index_path).unwrap();
    assert_eq!(model.tensor_count(), 2);
    assert!(model.tensor_bytes("layers.0.weight").is_ok());
    assert!(model.tensor_bytes("layers.1.weight").is_ok());

    let model2 = disk.open("/ckpt").unwrap();
    assert_eq!(model2.tensor_count(), 2);
}

#[test]
fn block_spans_shards_and_nonadjacent_ranges() {
    let (disk, index_path) = flux_disk();
    let model = disk.open(&index_path).unwrap();
    let config = BlockConfig::flux();
    let block = model.block(&config, "transformer_blocks.2").unwrap();

    let names: Vec<&str> = block.tensors.iter().map(|d| d.name.as_str()).collect();
    assert!(names.contains(&"transformer_blocks.2.attn.qkv.weight"));
    assert!(names.contains(&"transformer_blocks.2.attn.qkv.bias"));
    assert!(names.contains(&"transformer_blocks.2.mlp.fc1.weight"));

    let shard_ids: HashSet<_> = block.tensors.iter().map(|d| d.shard_id).collect();
    assert!(
        shard_ids.len() >= 2,
        "block should span more than one shard"
    );

    let views = model.block_views(&block).unwrap();
    assert_eq!(views.len(), block.tensors.len());
    for (name, bytes) in views {
        let d = block.tensors.iter().find(|d| d.name == name).unwrap();
        assert_eq!(bytes.len() as u64, d.byte_len);
    }
}

#[test]
fn implicit_multi_shard_directory_rejected_by_default() {
    let mut disk = Disk::default();
    disk.write(
        "/ckpt/part1.safetensors",
        &[f32_tensor("layers.0.weight", vec![2], 1)],
    );
    disk.write(
        "/ckpt/part2.safetensors",
        &[f32_tensor("layers.1.weight", vec![2], 2)],
    );
    let err = disk.open("/ckpt").unwrap_err();
    assert!(matches!(err, LoaderError::AmbiguousDirectory { .. }));
}

fn implicit() -> OpenOptions {
    OpenOptions {
        allow_implicit_multi_shard: true,
        ..Default::default()
    }
}

#[test]
fn implicit_shards_directory_without_index_with_explicit_opt_in() {
    let mut disk = Disk::default();
    disk.write(
        "/ckpt/part1.safetensors",
        &[f32_tensor("layers.0.weight", vec![2], 1)],
    );
    disk.write(
        "/ckpt/part2.safetensors",
        &[f32_tensor("layers.1.weight", vec![2], 2)],
    );
    let model = disk
        .open_with("/ckpt", &implicit(), &mut ModelIds::new())
        .unwrap();
    assert_eq!(model.tensor_count(), 2);
}

#[test]
fn implicit_shards_reject_duplicate_names_even_with_opt_in() {
    let mut disk = Disk::default();
    disk.write(
        "/ckpt/part1.safetensors",
        &[f32_tensor("layers.0.weight", vec![2], 1)],
    );
    disk.write(
        "/ckpt/part2.safetensors",
        &[f32_tensor("layers.0.weight", vec![2], 999)],
    );
    let err = disk
        .open_with("/ckpt", &implicit(), &mut ModelIds::new())
        .unwrap_err();
    assert!(matches!(err, LoaderError::DuplicateTensorName { .. }));
}

#[test]
fn known_tensor_bytes_shapes_dtypes() {
    let mut disk = Disk::default();
    let t = f32_tensor("layers.0.weight", vec![2, 3], 7);
    let expected_bytes = t.data.clone();
    disk.write("/ckpt/model.safetensors", &[t]);

    let model = disk.open("/ckpt/model.safetensors").unwrap();
    assert_eq!(model.tensor_count(), 1);

    let d = model.descriptor("layers.0.weight").unwrap();
    assert_eq!(d.dtype, Dtype::F32);
    assert_eq!(d.shape, vec![2, 3]);
    assert_eq!(d.byte_len, 24);

    let bytes = model.tensor_bytes("layers.0.weight").unwrap();
    assert_eq!(bytes, expected_bytes.as_slice());
}

#[test]
fn empty_and_scalar_tensors() {
    let mut disk = Disk::default();
    disk.write(
        "/ckpt/model.safetensors",
        &[
            scalar_f32("layers.0.scale", 3.5),
            empty_tensor("layers.0.empty", vec![0, 4]),
        ],
    );
    let model = disk.open("/ckpt/model.safetensors").unwrap();

    let scalar = model.descriptor("layers.0.scale").unwrap();
    assert!(scalar.shape.is_empty());
    assert_eq!(scalar.byte_len, 4);
    assert_eq!(model.tensor_bytes("layers.0.scale").unwrap().len(), 4);

    let empty = model.descriptor("layers.0.empty").unwrap();
    assert_eq!(empty.shape, vec![0, 4]);
    assert_eq!(empty.byte_len, 0);
    assert_eq!(model.tensor_bytes("layers.0.empty").unwrap().len(), 0);
}

#[test]
fn multiple_instances_same_names_different_data() {
    let mut disk = Disk::default();
    disk.write(
        "/ckpt/a.safetensors",
        &[f32_tensor("layers.0.weight", vec![2], 1)],
    );
    disk.write(
        "/ckpt/b.safetensors",
        &[f32_tensor("layers.0.weight", vec![2], 99)],
    );
    let model_a = disk.open("/ckpt/a.safetensors").unwrap();
    let model_b = disk.open("/ckpt/b.safetensors").unwrap();

    let bytes_a = model_a.tensor_bytes("layers.0.weight").unwrap();
    let bytes_b = model_b.tensor_bytes("layers.0.weight").unwrap();
    assert_ne!(bytes_a, bytes_b);
}

#[test]
fn tensor_not_found_is_a_clean_error() {
    let mut disk = Disk::default();
    disk.write(
        "/ckpt/model.safetensors",
        &[f32_tensor("layers.0.weight", vec![2], 1)],
    );
    let model = disk.open("/ckpt/model.safetensors").unwrap();
    let err = model.tensor_bytes("does.not.exist").unwrap_err();
    assert!(matches!(err, LoaderError::TensorNotFound(_)));
}

#[test]
fn missing_tensor_declared_in_index_but_absent_from_shard() {
    let mut disk = Disk::default();
    disk.write(
        "/ckpt/shard.safetensors",
        &[f32_tensor("layers.0.weight", vec![2], 1)],
    );
    disk.write_index(
        "/ckpt/model.safetensors.index.json",
        &[
            ("layers.0.weight", "shard.safetensors"),
            ("layers.999.weight", "shard.safetensors"),
        ],
    );
    let err = disk.open("/ckpt/model.safetensors.index.json").unwrap_err();
    assert!(matches!(err, LoaderError::TensorMissingFromShard { .. }));
}

#[test]
fn inconsistent_index_missing_a_tensor_that_the_shard_actually_has() {
    let mut disk = Disk::default();
    disk.write(
        "/ckpt/shard.safetensors",
        &[
            f32_tensor("layers.0.weight", vec![2], 1),
            f32_tensor("layers.1.weight", vec![2], 2),
        ],
    );
    disk.write_index(
        "/ckpt/model.safetensors.index.json",
        &[("layers.0.weight", "shard.safetensors")],
    );
    let err = disk.open("/ckpt/model.safetensors.index.json").unwrap_err();
    match err {
        LoaderError::TensorMissingFromIndex { tensor, .. } => {
            assert_eq!(tensor, "layers.1.weight");
        }
        other => panic!("unexpected {other:?}"),
    }
}

#[test]
fn truncated_file_is_rejected() {
    let mut disk = Disk::default();
    let path = "/ckpt/model.safetensors";
    let bytes = disk.write(path, &[f32_tensor("layers.0.weight", vec![4, 4], 1)]);
    disk.files
        .insert(path.to_string(), bytes[..bytes.len() - 4].to_vec());
    let err = disk.open(path).unwrap_err();
    assert!(matches!(err, LoaderError::InvalidHeader { .. }));
}

#[test]
fn malformed_header_bytes_are_rejected() {
    let mut disk = Disk::default();
    let path = "/ckpt/model.safetensors";
    let mut bytes = Vec::new();
    bytes.extend_from_slice(&(1000u64).to_le_bytes());
    bytes.extend_from_slice(b"not json");
    disk.files.insert(path.to_string(), bytes);
    let err = disk.open(path).unwrap_err();
    assert!(matches!(err, LoaderError::InvalidHeader { .. }));
}

#[test]
fn header_smaller_than_length_prefix_is_rejected() {
    let mut disk = Disk::default();
    let path = "/ckpt/model.safetensors";
    disk.files.insert(path.to_string(), vec![1, 2, 3]);
    let err = disk.open(path).unwrap_err();
    assert!(matches!(err, LoaderError::HeaderTooSmall { .. }));
}

#[test]
fn declared_header_larger_than_configured_limit_is_rejected() {
    let mut disk = Disk::default();
    let path = "/ckpt/model.safetensors";
    let mut bytes = Vec::new();
    bytes.extend_from_slice(&(10_000_000_000u64).to_le_bytes());
    bytes.extend_from_slice(b"{}");
    disk.files.insert(path.to_string(), bytes);
    let opts = OpenOptions {
        max_header_bytes: 1024,
        ..Default::default()
    };
    let err = disk
        .open_with(path, &opts, &mut ModelIds::new())
        .unwrap_err();
    match err {
        LoaderError::HeaderTooLarge {
            declared, limit, ..
        } => {
            assert_eq!(declared, 10_000_000_000);
            assert_eq!(limit, 1024);
        }
        other => panic!("unexpected {other:?}"),
    }
}

#[test]
fn duplicate_tensor_names_across_implicit_shards_are_rejected() {
    let mut disk = Disk::default();
    disk.write(
        "/ckpt/a.safetensors",
        &[f32_tensor("layers.0.weight", vec![2], 1)],
    );
    disk.write(
        "/ckpt/b.safetensors",
        &[f32_tensor("layers.0.weight", vec![2], 2)],
    );
    let err = disk
        .open_with("/ckpt", &implicit(), &mut ModelIds::new())
        .unwrap_err();
    match err {
        LoaderError::DuplicateTensorName {
            tensor,
            first_path,
            second_path,
        } => {
            assert_eq!(tensor, "layers.0.weight");
            assert_eq!(text_of(&first_path), "/ckpt/a.safetensors");
            assert_eq!(text_of(&second_path), "/ckpt/b.safetensors");
        }
        other => panic!("unexpected {other:?}"),
    }
}

#[test]
fn implicit_multi_shard_without_opt_in_is_ambiguous_not_merged() {
    let mut disk = Disk::default();
    disk.write(
        "/ckpt/a.safetensors",
        &[f32_tensor("layers.0.weight", vec![2], 1)],
    );
    disk.write(
        "/ckpt/b.safetensors",
        &[f32_tensor("layers.1.weight", vec![2], 2)],
    );
    let err = disk.open("/ckpt").unwrap_err();
    match err {
        LoaderError::AmbiguousDirectory {
            dir, candidates, ..
        } => {
            assert_eq!(text_of(&dir), "/ckpt");
            let names: Vec<String> = candidates.iter().map(text_of).collect();
            assert_eq!(names, vec!["/ckpt/a.safetensors", "/ckpt/b.safetensors"]);
        }
        other => panic!("unexpected {other:?}"),
    }
}

#[test]
fn absolute_shard_path_in_index_is_rejected() {
    let mut disk = Disk::default();
    disk.write(
        "/ckpt/shard.safetensors",
        &[f32_tensor("layers.0.weight", vec![2], 1)],
    );
    disk.write_index(
        "/ckpt/model.safetensors.index.json",
        &[("layers.0.weight", "/etc/passwd")],
    );
    let err = disk.open("/ckpt/model.safetensors.index.json").unwrap_err();
    assert!(matches!(err, LoaderError::UnsafeShardPath { .. }));
}

#[test]
fn parent_dir_traversal_in_index_is_rejected() {
    let mut disk = Disk::default();
    disk.write("/outside.safetensors", &[f32_tensor("secret", vec![1], 1)]);
    disk.write_index(
        "/checkpoint/model.safetensors.index.json",
        &[("layers.0.weight", "../outside.safetensors")],
    );
    let err = disk
        .open("/checkpoint/model.safetensors.index.json")
        .unwrap_err();
    assert!(matches!(err, LoaderError::UnsafeShardPath { .. }));
}

#[test]
fn trusted_root_explicitly_widens_the_symlink_boundary() {
    let mut disk = Disk::default();
    disk.write(
        "/hub/blobs/deadbeef",
        &[f32_tensor("layers.0.weight", vec![2], 1)],
    );
    let snapshot = "/hub/snapshots/abc123/transformer";
    disk.links.insert(
        format!("{snapshot}/model.safetensors"),
        "/hub/blobs/deadbeef".to_string(),
    );
    let index_path = format!("{snapshot}/model.safetensors.index.json");
    disk.write_index(&index_path, &[("layers.0.weight", "model.safetensors")]);

    let err = disk.open(&index_path).unwrap_err();
    assert!(matches!(err, LoaderError::UnsafeShardPath { .. }));

    let opts = OpenOptions {
        trusted_root: Some(FilePath::from_text("/hub")),
        ..Default::default()
    };
    let model = disk
        .open_with(&index_path, &opts, &mut ModelIds::new())
        .unwrap();
    assert_eq!(model.tensor_count(), 1);
}

#[test]
fn symlink_escape_in_index_is_rejected() {
    let mut disk = Disk::default();
    disk.write("/outside.safetensors", &[f32_tensor("secret", vec![1], 1)]);
    disk.links.insert(
        "/checkpoint/shard.safetensors".to_string(),
        "/outside.safetensors".to_string(),
    );
    disk.write_index(
        "/checkpoint/model.safetensors.index.json",
        &[("layers.0.weight", "shard.safetensors")],
    );
    let err = disk
        .open("/checkpoint/model.safetensors.index.json")
        .unwrap_err();
    assert!(matches!(err, LoaderError::UnsafeShardPath { .. }));
}

#[test]
fn ambiguous_directory_with_multiple_index_files_is_rejected() {
    let mut disk = Disk::default();
    disk.write_sharded(
        "/ckpt",
        vec![(
            "a.safetensors",
            vec![f32_tensor("layers.0.weight", vec![2], 1)],
        )],
    );
    disk.write_index("/ckpt/diffusion_pytorch_model.safetensors.index.json", &[]);
    let err = disk.open("/ckpt").unwrap_err();
    assert!(matches!(err, LoaderError::AmbiguousDirectory { .. }));
}

#[test]
fn empty_directory_reports_no_shards_found() {
    let mut disk = Disk::default();
    disk.dirs.insert("/ckpt".to_string());
    let err = disk.open("/ckpt").unwrap_err();
    assert!(matches!(err, LoaderError::NoShardsFound { .. }));
}

fn one_block_disk(seed: u32) -> (Disk, String) {
    let mut disk = Disk::default();
    let index_path = disk.write_sharded(
        "/ckpt",
        vec![(
            "shard.safetensors",
            vec![
                f32_tensor("transformer_blocks.0.weight", vec![4], seed),
                f32_tensor("transformer_blocks.0.bias", vec![2], seed + 1),
            ],
        )],
    );
    (disk, index_path)
}

#[test]
fn block_views_rejects_a_block_from_a_different_model() {
    let mut ids = ModelIds::new();
    let opts = OpenOptions::default();
    let (disk_a, path_a) = one_block_disk(1);
    let (disk_b, path_b) = one_block_disk(2);
    let model_a = disk_a.open_with(&path_a, &opts, &mut ids).unwrap();
    let model_b = disk_b.open_with(&path_b, &opts, &mut ids).unwrap();

    let config = BlockConfig::flux();
    let block_from_b = model_b.block(&config, "transformer_blocks.0").unwrap();
    let err = model_a.block_views(&block_from_b).unwrap_err();
    assert!(matches!(err, LoaderError::BlockFromDifferentModel { .. }));
}

#[test]
fn copy_block_rejects_a_block_from_a_different_model() {
    let mut ids = ModelIds::new();
    let opts = OpenOptions::default();
    let (disk_a, path_a) = one_block_disk(1);
    let (disk_b, path_b) = one_block_disk(2);
    let model_a = disk_a.open_with(&path_a, &opts, &mut ids).unwrap();
    let model_b = disk_b.open_with(&path_b, &opts, &mut ids).unwrap();

    let config = BlockConfig::flux();
    let block_from_b = model_b.block(&config, "transformer_blocks.0").unwrap();
    let err = model_a.copy_block(&block_from_b).unwrap_err();
    assert!(matches!(err, LoaderError::BlockFromDifferentModel { .. }));
}

#[test]
fn copy_block_into_rejects_a_block_from_a_different_model() {
    let mut ids = ModelIds::new();
    let opts = OpenOptions::default();
    let (disk_a, path_a) = one_block_disk(1);
    let (disk_b, path_b) = one_block_disk(2);
    let model_a = disk_a.open_with(&path_a, &opts, &mut ids).unwrap();
    let model_b = disk_b.open_with(&path_b, &opts, &mut ids).unwrap();

    let config = BlockConfig::flux();
    let block_from_b = model_b.block(&config, "transformer_blocks.0").unwrap();
    let mut buf = vec![0u8; 1024];
    let err = model_a
        .copy_block_into(&block_from_b, &mut buf)
        .unwrap_err();
    assert!(matches!(err, LoaderError::BlockFromDifferentModel { .. }));
    assert!(buf.iter().all(|b| *b == 0));
}

#[test]
fn checksum_block_rejects_a_block_from_a_different_model() {
    let mut ids = ModelIds::new();
    let opts = OpenOptions::default();
    let (disk_a, path_a) = one_block_disk(1);
    let (disk_b, path_b) = one_block_disk(2);
    let model_a = disk_a.open_with(&path_a, &opts, &mut ids).unwrap();
    let model_b = disk_b.open_with(&path_b, &opts, &mut ids).unwrap();

    let config = BlockConfig::flux();
    let block_from_b = model_b.block(&config, "transformer_blocks.0").unwrap();
    let err = model_a.checksum_block(&block_from_b).unwrap_err();
    assert!(matches!(err, LoaderError::BlockFromDifferentModel { .. }));
}

#[test]
fn same_model_own_block_works_normally() {
    let (disk, path) = one_block_disk(1);
    let model = disk.open(&path).unwrap();
    let block = model
        .block(&BlockConfig::flux(), "transformer_blocks.0")
        .unwrap();
    assert!(model.block_views(&block).is_ok());
    assert!(model.copy_block(&block).is_ok());
    assert!(model.checksum_block(&block).is_ok());
}

#[test]
fn two_models_of_the_same_checkpoint_have_distinct_ids() {
    let mut disk = Disk::default();
    let index_path = disk.write_sharded(
        "/ckpt",
        vec![(
            "shard.safetensors",
            vec![f32_tensor("layers.0.weight", vec![2], 1)],
        )],
    );
    let mut ids = ModelIds::new();
    let opts = OpenOptions::default();
    let model1 = disk.open_with(&index_path, &opts, &mut ids).unwrap();
    let model2 = disk.open_with(&index_path, &opts, &mut ids).unwrap();
    assert_ne!(model1.id(), model2.id());

    let config = BlockConfig::generic();
    let block_from_1 = model1.block(&config, "layers.0").unwrap();
    let err = model2.block_views(&block_from_1).unwrap_err();
    assert!(matches!(err, LoaderError::BlockFromDifferentModel { .. }));
}

#[test]
fn copy_block_into_matches_copy_block() {
    let (disk, path) = one_block_disk(7);
    let model = disk.open(&path).unwrap();
    let block = model
        .block(&BlockConfig::flux(), "transformer_blocks.0")
        .unwrap();

    let via_copy_block = model.copy_block(&block).unwrap();

    let mut buf = vec![0xAAu8; via_copy_block.buffer.len()];
    let layout = model.copy_block_into(&block, &mut buf).unwrap();

    assert_eq!(buf, via_copy_block.buffer);
    assert_eq!(layout.len(), via_copy_block.layout.len());
    for (a, b) in layout.iter().zip(via_copy_block.layout.iter()) {
        assert_eq!(a.name, b.name);
        assert_eq!(a.offset, b.offset);
        assert_eq!(a.len, b.len);
    }
}

#[test]
fn copy_block_into_rejects_too_small_destination() {
    let (disk, path) = one_block_disk(1);
    let model = disk.open(&path).unwrap();
    let block = model
        .block(&BlockConfig::flux(), "transformer_blocks.0")
        .unwrap();

    let mut tiny = vec![0u8; 1];
    let err = model.copy_block_into(&block, &mut tiny).unwrap_err();
    match err {
        LoaderError::DestinationTooSmall { needed, got } => {
            assert_eq!(needed, 24);
            assert_eq!(got, 1);
        }
        other => panic!("unexpected {other:?}"),
    }
    assert_eq!(tiny, vec![0]);
}

#[test]
fn find_block_does_not_build_unrelated_blocks() {
    let mut disk = Disk::default();
    let index_path = disk.write_sharded(
        "/ckpt",
        vec![(
            "shard.safetensors",
            vec![
                f32_tensor("transformer_blocks.1.weight", vec![2], 1),
                f32_tensor("transformer_blocks.2.weight", vec![2], 2),
                f32_tensor("single_transformer_blocks.0.weight", vec![2], 3),
            ],
        )],
    );
    let model = disk.open(&index_path).unwrap();
    let block = model
        .block(&BlockConfig::flux(), "transformer_blocks.1")
        .unwrap();
    assert_eq!(block.tensors.len(), 1);
    assert_eq!(block.tensors[0].name, "transformer_blocks.1.weight");
}

#[test]
fn inspecting_lists_every_tensor_of_every_shard() {
    let (disk, _) = flux_disk();
    let model = disk.open("/ckpt").unwrap();
    assert_eq!(inspect(&model).len(), 8);
    assert_eq!(model.shard_paths().len(), 2);
}

#[test]
fn verifying_gives_an_independently_computed_hash() {
    let mut disk = Disk::default();
    disk.write_sharded(
        "/ckpt",
        vec![(
            "shard.safetensors",
            vec![f32_tensor("layers.0.weight", vec![4], 42)],
        )],
    );
    let expected_bytes = f32_tensor("layers.0.weight", vec![4], 42).data;
    let expected_hex = blake3::hash(&expected_bytes).to_hex().to_string();
    let model = disk.open("/ckpt").unwrap();
    let config = build_config(Preset::Generic, None);
    let report = verify(&model, &config, None, Some("layers.0.weight")).unwrap();
    assert_eq!(report.algorithm(), "blake3");
    assert_eq!(report.checksums[0].hex, expected_hex);
    assert_eq!(report.checksums[0].bytes, 16);
}

#[test]
fn a_copied_block_reports_its_size() {
    let (disk, _) = flux_disk();
    let model = disk.open("/ckpt").unwrap();
    let config = build_config(Preset::Flux, None);
    let report = report_block(&model, &config, "transformer_blocks.2", true).unwrap();
    assert_eq!(report.copied.unwrap().bytes_copied, 64 + 16 + 128);
    assert!(report_block(&model, &config, "transformer_blocks.9999", false).is_err());
}

#[test]
fn shards_of_an_index_open_in_the_order_of_their_paths() {
    let (disk, index_path) = flux_disk();
    let model = disk.open(&index_path).unwrap();
    let paths: Vec<String> = model.shard_paths().into_iter().map(text_of).collect();
    assert_eq!(
        paths,
        vec![
            "/ckpt/shard-00001-of-00002.safetensors",
            "/ckpt/shard-00002-of-00002.safetensors"
        ]
    );
    for (shard_id, (_, tensors)) in flux_like_shards().iter().enumerate() {
        for t in tensors {
            assert_eq!(model.descriptor(&t.name).unwrap().shard_id, shard_id);
            assert_eq!(model.tensor_bytes(&t.name).unwrap(), t.data.as_slice());
        }
    }
}

#[test]
fn a_path_rejected_as_written_is_never_looked_up() {
    let mut disk = Disk::default();
    disk.write_index(
        "/ckpt/model.safetensors.index.json",
        &[("layers.0.weight", "../nowhere.safetensors")],
    );
    let state = Model::open(&FilePath::from_text("/ckpt/model.safetensors.index.json"));
    let Opening::Listing(s) = state else {
        panic!("a listing comes first");
    };
    let Opening::Index(s) = s.listed(&Listing::File).unwrap() else {
        panic!("an index comes next");
    };
    let index = disk.index(&text_of(s.path()));
    let err = s.parsed(&index).unwrap_err();
    assert!(matches!(err, LoaderError::UnsafeShardPath { .. }));
}

#[test]
fn an_index_of_nothing_opens_as_an_empty_model() {
    let mut disk = Disk::default();
    disk.write_index("/ckpt/model.safetensors.index.json", &[]);
    let model = disk.open("/ckpt").unwrap();
    assert_eq!(model.tensor_count(), 0);
    assert!(model.shard_paths().is_empty());
    assert!(model.blocks(&BlockConfig::generic()).is_empty());
}
