//! Reading, copying and checking the tensors of opened models.

use safetensors::tensor::TensorView;
use streamloader::block::group_blocks;
use streamloader::cli::{
    build_config, inspect, report_block, tensor_record, verify, Preset, NO_TARGET,
};
use streamloader::discovery::{DirEntry, Listing};
use streamloader::model::sum_bytes;
use streamloader::opening::Opening;
use streamloader::{
    Block, BlockConfig, BlockFamily, Dtype, FilePath, LoaderError, Model, ModelIds, OpenOptions,
    TensorChecksum, TensorDescriptor, UNASSIGNED,
};

fn file(tensors: &[(&str, Vec<u8>)]) -> Vec<u8> {
    let views: Vec<(&str, TensorView)> = tensors
        .iter()
        .map(|(name, data)| {
            let view = TensorView::new(safetensors::Dtype::U8, vec![data.len()], data).unwrap();
            (*name, view)
        })
        .collect();
    safetensors::serialize(views, None).unwrap()
}

fn open(bytes: &[u8], id: u64) -> Model<'_> {
    let mut state = Model::open(&FilePath::from_text("/m.safetensors"));
    loop {
        state = match state {
            Opening::Listing(s) => s.listed(&Listing::File).unwrap(),
            Opening::Bytes(s) => s.mapped(bytes).unwrap(),
            Opening::Id(s) => return s.identified(id),
            other => panic!("unexpected {other:?}"),
        };
    }
}

fn sample() -> Vec<u8> {
    file(&[
        ("layers.0.a", vec![1, 2, 3]),
        ("layers.0.b", vec![]),
        ("layers.0.c", vec![4, 5]),
        ("layers.1.a", vec![6]),
        ("norm", vec![7, 8, 9, 10]),
    ])
}

#[test]
fn the_usual_options() {
    let o = OpenOptions::default();
    assert_eq!(o.max_header_bytes, 64 * 1024 * 1024);
    assert!(o.trusted_root.is_none());
    assert!(!o.allow_implicit_multi_shard);
}

#[test]
fn ids_count_up_from_one() {
    let mut ids = ModelIds::new();
    assert_eq!(ids.take(), 1);
    assert_eq!(ids.take(), 2);
    assert_eq!(ids.take(), 3);
}

#[test]
fn a_model_lists_its_tensors_by_name() {
    let bytes = sample();
    let m = open(&bytes, 5);
    assert_eq!(m.id(), 5);
    assert_eq!(m.root_input().as_bytes(), b"/m.safetensors");
    assert_eq!(m.tensor_count(), 5);
    assert_eq!(m.shard_paths().len(), 1);
    let names: Vec<&str> = m.descriptors().iter().map(|d| d.name.as_str()).collect();
    assert_eq!(
        names,
        vec!["layers.0.a", "layers.0.b", "layers.0.c", "layers.1.a", "norm"]
    );
    assert!(m.descriptor("nothing").is_none());
    assert_eq!(m.tensor_bytes("layers.0.c").unwrap(), &[4, 5]);
    for d in m.descriptors() {
        let r = d.file_range();
        assert_eq!(
            m.tensor_bytes(&d.name).unwrap(),
            &bytes[r.start as usize..r.end as usize]
        );
    }
}

#[test]
fn blocks_of_a_model_carry_its_id_and_cover_it() {
    let bytes = sample();
    let m = open(&bytes, 5);
    let blocks = m.blocks(&BlockConfig::generic());
    assert!(blocks.iter().all(|b| b.model_id == 5));
    let mut covered: Vec<&str> = blocks
        .iter()
        .flat_map(|b| b.tensors.iter().map(|d| d.name.as_str()))
        .collect();
    covered.sort();
    let names: Vec<&str> = m.descriptors().iter().map(|d| d.name.as_str()).collect();
    assert_eq!(covered, names);
    assert_eq!(m.block(&BlockConfig::generic(), "layers.1").unwrap().model_id, 5);
}

#[test]
fn a_copy_is_the_tensors_one_behind_the_other() {
    let bytes = sample();
    let m = open(&bytes, 1);
    let b = m.block(&BlockConfig::generic(), "layers.0").unwrap();
    assert_eq!(sum_bytes(&b.tensors), 5);
    let c = m.copy_block(&b).unwrap();
    assert_eq!(c.buffer, vec![1, 2, 3, 4, 5]);
    assert_eq!(c.bytes_copied, 5);
    let layout: Vec<(&str, u64, u64)> = c
        .layout
        .iter()
        .map(|l| (l.name.as_str(), l.offset, l.len))
        .collect();
    assert_eq!(
        layout,
        vec![
            ("layers.0.a", 0, 3),
            ("layers.0.b", 3, 0),
            ("layers.0.c", 3, 2)
        ]
    );
    for (l, (name, data)) in c.layout.iter().zip(m.block_views(&b).unwrap()) {
        assert_eq!(l.name, name);
        assert_eq!(
            &c.buffer[l.offset as usize..(l.offset + l.len) as usize],
            data
        );
    }
}

#[test]
fn views_borrow_the_bytes_of_the_file() {
    let bytes = sample();
    let m = open(&bytes, 1);
    let b = m.block(&BlockConfig::generic(), "layers.0").unwrap();
    for _ in 0..40 {
        for (d, (_, data)) in b.tensors.iter().zip(m.block_views(&b).unwrap()) {
            let r = d.file_range();
            assert!(std::ptr::eq(
                data,
                &bytes[r.start as usize..r.end as usize]
            ));
        }
    }
}

#[test]
fn a_larger_destination_keeps_its_tail() {
    let bytes = sample();
    let m = open(&bytes, 1);
    let b = m.block(&BlockConfig::generic(), "layers.0").unwrap();
    let mut dest = vec![0xEE; 8];
    m.copy_block_into(&b, &mut dest).unwrap();
    assert_eq!(dest, vec![1, 2, 3, 4, 5, 0xEE, 0xEE, 0xEE]);
    let mut exact = vec![0xEE; 5];
    m.copy_block_into(&b, &mut exact).unwrap();
    assert_eq!(exact, vec![1, 2, 3, 4, 5]);
}

#[test]
fn blocks_without_a_model_are_refused() {
    let bytes = sample();
    let m = open(&bytes, 1);
    let ds: Vec<TensorDescriptor> = m.descriptors().into_iter().cloned().collect();
    let blocks = group_blocks(&ds, &BlockConfig::generic());
    for b in &blocks {
        match m.block_views(b).unwrap_err() {
            LoaderError::BlockFromDifferentModel { block_id } => assert_eq!(block_id, b.id),
            other => panic!("unexpected {other:?}"),
        }
    }
}

#[test]
fn a_block_that_names_a_missing_tensor_is_refused() {
    let bytes = sample();
    let m = open(&bytes, 1);
    let lost = TensorDescriptor {
        name: "gone".to_string(),
        dtype: Dtype::U8,
        shape: vec![0],
        shard_id: 0,
        file_offset: 0,
        byte_len: 0,
    };
    let b = Block {
        id: "x".to_string(),
        family: "x".to_string(),
        index: None,
        tensors: vec![lost],
        model_id: 1,
    };
    assert!(matches!(
        m.block_views(&b).unwrap_err(),
        LoaderError::TensorNotFound(n) if n == "gone"
    ));
    assert!(matches!(
        m.checksum_block(&b).unwrap_err(),
        LoaderError::TensorNotFound(n) if n == "gone"
    ));
    assert!(matches!(
        m.copy_block(&b).unwrap_err(),
        LoaderError::TensorNotFound(n) if n == "gone"
    ));
}

#[test]
fn checksums_of_tensors_and_blocks() {
    let bytes = sample();
    let m = open(&bytes, 1);
    let one = m.checksum_tensor("layers.0.a").unwrap();
    assert_eq!(one.hex, blake3::hash(&[1, 2, 3]).to_hex().to_string());
    assert_eq!(one.bytes, 3);
    assert!(matches!(
        m.checksum_tensor("gone").unwrap_err(),
        LoaderError::TensorNotFound(n) if n == "gone"
    ));
    let b = m.block(&BlockConfig::generic(), "layers.0").unwrap();
    let all: Vec<TensorChecksum> = m.checksum_block(&b).unwrap();
    let got: Vec<(&str, u64)> = all.iter().map(|c| (c.name.as_str(), c.bytes)).collect();
    assert_eq!(
        got,
        vec![("layers.0.a", 3), ("layers.0.b", 0), ("layers.0.c", 2)]
    );
    assert_eq!(all[0].hex, one.hex);
}

#[test]
fn a_model_of_several_files() {
    let a = file(&[("layers.0.a", vec![1, 2])]);
    let b = file(&[("layers.0.b", vec![3])]);
    let opts = OpenOptions {
        allow_implicit_multi_shard: true,
        ..Default::default()
    };
    let mut state = Model::open_with(&FilePath::from_text("/d"), &opts);
    let m = loop {
        state = match state {
            Opening::Listing(s) => {
                let entries = ["/d/b.safetensors", "/d/a.safetensors"]
                    .iter()
                    .map(|p| DirEntry {
                        path: FilePath::from_text(p),
                        is_file: true,
                    })
                    .collect();
                s.listed(&Listing::Directory(entries)).unwrap()
            }
            Opening::Bytes(s) => {
                let bytes = if s.path().as_bytes() == b"/d/a.safetensors" {
                    &a
                } else {
                    &b
                };
                s.mapped(bytes).unwrap()
            }
            Opening::Id(s) => break s.identified(1),
            other => panic!("unexpected {other:?}"),
        };
    };
    let paths: Vec<&[u8]> = m.shard_paths().iter().map(|p| p.as_bytes()).collect();
    assert_eq!(
        paths,
        vec![
            b"/d/a.safetensors".as_slice(),
            b"/d/b.safetensors".as_slice()
        ]
    );
    let block = m.block(&BlockConfig::generic(), "layers.0").unwrap();
    assert_eq!(m.copy_block(&block).unwrap().buffer, vec![1, 2, 3]);
    let ids: Vec<usize> = inspect(&m).iter().map(|r| r.shard_id).collect();
    assert_eq!(ids, vec![0, 1]);
}

#[test]
fn presets_and_prefixes() {
    let name = "model.layers.4.w";
    assert_eq!(build_config(Preset::Generic, None).match_name(name), None);
    assert_eq!(
        build_config(Preset::Generic, Some("model")).match_name(name),
        Some(("layers", 4))
    );
    assert_eq!(
        build_config(Preset::Flux, Some("model")).match_name(name),
        None
    );
    assert_eq!(
        build_config(Preset::Flux, None).match_name("single_transformer_blocks.1.w"),
        Some(("single_transformer_blocks", 1))
    );
}

#[test]
fn tensors_are_reported_with_their_shard() {
    let bytes = sample();
    let m = open(&bytes, 1);
    let records = inspect(&m);
    assert_eq!(records.len(), 5);
    assert_eq!(records[4].name, "norm");
    assert_eq!(records[4].dtype, Dtype::U8);
    assert_eq!(records[4].shape, vec![4]);
    assert_eq!(records[4].byte_len, 4);
    assert_eq!(
        records[4].shard_path.as_ref().unwrap().as_bytes(),
        b"/m.safetensors"
    );
    let mut d = m.descriptor("norm").unwrap().clone();
    d.shard_id = 7;
    assert!(tensor_record(&m, &d).shard_path.is_none());
}

#[test]
fn blocks_are_reported_with_a_copy_on_request() {
    let bytes = sample();
    let m = open(&bytes, 1);
    let c = BlockConfig::generic();
    let plain = report_block(&m, &c, "layers.0", false).unwrap();
    assert_eq!(plain.block.tensors.len(), 3);
    assert!(plain.copied.is_none());
    let full = report_block(&m, &c, UNASSIGNED, true).unwrap();
    assert_eq!(full.copied.unwrap().buffer, vec![7, 8, 9, 10]);
    assert!(matches!(
        report_block(&m, &c, "layers.9", true).unwrap_err(),
        LoaderError::BlockNotFound(id) if id == "layers.9"
    ));
}

#[test]
fn verification_of_a_block_or_a_tensor() {
    let bytes = sample();
    let m = open(&bytes, 1);
    let c = BlockConfig::new(vec![BlockFamily::new("layers")]);
    let v = verify(&m, &c, Some("layers.0"), None).unwrap();
    assert_eq!(v.target, "block:layers.0");
    assert_eq!(v.checksums.len(), 3);
    assert_eq!(v.total_bytes, 5);
    assert_eq!(v.algorithm(), "blake3");
    let v = verify(&m, &c, Some("layers.0"), Some("norm")).unwrap();
    assert_eq!(v.target, "tensor:norm");
    assert_eq!(v.total_bytes, 4);
    assert_eq!(
        v.checksums[0].hex,
        blake3::hash(&[7, 8, 9, 10]).to_hex().to_string()
    );
    assert!(matches!(
        verify(&m, &c, None, Some("gone")).unwrap_err(),
        LoaderError::TensorNotFound(n) if n == "gone"
    ));
    assert!(matches!(
        verify(&m, &c, Some("layers.7"), None).unwrap_err(),
        LoaderError::BlockNotFound(n) if n == "layers.7"
    ));
    assert!(matches!(
        verify(&m, &c, None, None).unwrap_err(),
        LoaderError::InvalidUsage(text) if text == NO_TARGET
    ));
}

#[test]
fn provenance_goes_by_the_id_of_the_model() {
    let bytes = sample();
    let a = open(&bytes, 1);
    let b = open(&bytes, 2);
    let c = BlockConfig::generic();
    let own = a.block(&c, "layers.0").unwrap();
    let foreign = b.block(&c, "layers.0").unwrap();
    assert!(a.check_provenance(&own).is_ok());
    let ds: Vec<TensorDescriptor> = a.descriptors().into_iter().cloned().collect();
    let unstamped = group_blocks(&ds, &c).remove(0);
    for blk in [&foreign, &unstamped] {
        let mut tiny = [0u8; 1];
        let errors = [
            a.check_provenance(blk).unwrap_err(),
            a.block_views(blk).unwrap_err(),
            a.copy_block(blk).unwrap_err(),
            a.copy_block_into(blk, &mut tiny).unwrap_err(),
            a.checksum_block(blk).unwrap_err(),
        ];
        for e in errors {
            assert!(matches!(
                e,
                LoaderError::BlockFromDifferentModel { block_id } if block_id == blk.id
            ));
        }
    }
}

#[test]
fn tensors_of_a_shard_do_not_overlap() {
    let bytes = sample();
    let m = open(&bytes, 1);
    let ds = m.descriptors();
    for x in &ds {
        for y in &ds {
            if x.name != y.name {
                let (p, q) = (x.file_range(), y.file_range());
                assert!(p.end <= q.start || q.end <= p.start);
            }
        }
    }
}
