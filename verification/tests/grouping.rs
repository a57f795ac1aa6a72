//! Matching tensor names to blocks, and grouping them.

use streamloader::block::{find_block, group_blocks};
use streamloader::name_map::NameMap;
use streamloader::text::{compare_text, decimal_text, read_number, same_text, to_chars, Placement};
use streamloader::{BlockConfig, BlockFamily, Dtype, TensorDescriptor, UNASSIGNED};

fn tensor(name: &str) -> TensorDescriptor {
    TensorDescriptor {
        name: name.to_string(),
        dtype: Dtype::F32,
        shape: vec![1],
        shard_id: 0,
        file_offset: 0,
        byte_len: 4,
    }
}

fn tensors(names: &[&str]) -> Vec<TensorDescriptor> {
    names.iter().map(|n| tensor(n)).collect()
}

fn names(ds: &[TensorDescriptor]) -> Vec<&str> {
    ds.iter().map(|d| d.name.as_str()).collect()
}

fn config(labels: &[&str]) -> BlockConfig {
    BlockConfig::new(labels.iter().map(|l| BlockFamily::new(l)).collect())
}

#[test]
fn a_name_matches_label_and_number() {
    let c = config(&["blocks"]);
    assert_eq!(c.match_name("blocks.3.weight"), Some(("blocks", 3)));
    assert_eq!(c.match_name("blocks.3"), Some(("blocks", 3)));
    assert_eq!(c.match_name("blocks.007.weight"), Some(("blocks", 7)));
    assert_eq!(c.match_name("blocks.0."), Some(("blocks", 0)));
}

#[test]
fn names_that_match_no_family() {
    let c = config(&["blocks"]);
    for name in [
        "",
        "blocks",
        "blocks.",
        "blocks..weight",
        "blocks.x.weight",
        "blocks.1x.weight",
        "blocks.+1.weight",
        "blocks.-1.weight",
        "blocks3.weight",
        "my.blocks.3.weight",
        "myblocks.3.weight",
        "weight",
    ] {
        assert_eq!(c.match_name(name), None, "{name}");
    }
}

#[test]
fn an_index_must_fit_in_64_bits() {
    let c = config(&["blocks"]);
    assert_eq!(
        c.match_name("blocks.18446744073709551615.w"),
        Some(("blocks", u64::MAX))
    );
    assert_eq!(c.match_name("blocks.18446744073709551616.w"), None);
    assert_eq!(c.match_name("blocks.99999999999999999999999.w"), None);
}

#[test]
fn labels_of_several_segments_match_segment_by_segment() {
    let c = config(&["model.patch_blocks"]);
    assert_eq!(
        c.match_name("model.patch_blocks.4.attn"),
        Some(("model.patch_blocks", 4))
    );
    assert_eq!(c.match_name("model.patch.4.attn"), None);
    assert_eq!(c.match_name("patch_blocks.4.attn"), None);
}

#[test]
fn the_first_family_that_matches_wins() {
    let c = config(&["a", "a.1"]);
    assert_eq!(c.match_name("a.1.2.w"), Some(("a", 1)));
    let c = config(&["a.1", "a"]);
    assert_eq!(c.match_name("a.1.2.w"), Some(("a.1", 2)));
    assert_eq!(c.match_name("a.1.w"), Some(("a", 1)));
}

#[test]
fn only_the_configured_prefix_is_stripped() {
    let c = config(&["layers"]).with_model_prefix("model");
    assert_eq!(c.match_name("model.layers.2.w"), Some(("layers", 2)));
    assert_eq!(c.match_name("layers.2.w"), Some(("layers", 2)));
    assert_eq!(c.match_name("model.model.layers.2.w"), None);
    assert_eq!(c.match_name("modellayers.2.w"), None);
    assert_eq!(c.match_name("other.layers.2.w"), None);
}

#[test]
fn block_ids_are_label_and_decimal_number() {
    assert_eq!(
        BlockConfig::block_id("transformer_blocks", 12),
        "transformer_blocks.12"
    );
    assert_eq!(BlockConfig::block_id("a.1", 0), "a.1.0");
    assert_eq!(
        BlockConfig::block_id("b", u64::MAX),
        "b.18446744073709551615"
    );
    assert_ne!(
        BlockConfig::block_id("a", 11),
        BlockConfig::block_id("a.1", 1)
    );
}

#[test]
fn grouping_is_a_partition_in_the_configured_order() {
    let ds = tensors(&[
        "b.10.x", "a.2.y", "free", "b.2.x", "a.2.x", "a.010.z", "a.10.y", "b.2.w",
    ]);
    let blocks = group_blocks(&ds, &config(&["b", "a"]));
    let ids: Vec<&str> = blocks.iter().map(|b| b.id.as_str()).collect();
    assert_eq!(ids, vec!["b.2", "b.10", "a.2", "a.10", UNASSIGNED]);
    assert_eq!(names(&blocks[0].tensors), vec!["b.2.x", "b.2.w"]);
    assert_eq!(names(&blocks[1].tensors), vec!["b.10.x"]);
    assert_eq!(names(&blocks[2].tensors), vec!["a.2.y", "a.2.x"]);
    assert_eq!(names(&blocks[3].tensors), vec!["a.010.z", "a.10.y"]);
    assert_eq!(names(&blocks[4].tensors), vec!["free"]);
    assert_eq!(blocks[3].family, "a");
    assert_eq!(blocks[3].index, Some(10));
    assert_eq!(blocks[4].family, UNASSIGNED);
    assert_eq!(blocks[4].index, None);
    assert!(blocks.iter().all(|b| b.model_id == 0));
    assert_eq!(
        blocks.iter().map(|b| b.tensors.len()).sum::<usize>(),
        ds.len()
    );
}

#[test]
fn nothing_unassigned_means_no_such_block() {
    let ds = tensors(&["a.1.x"]);
    let blocks = group_blocks(&ds, &config(&["a", "b"]));
    assert_eq!(blocks.len(), 1);
    assert!(find_block(&ds, &config(&["a", "b"]), UNASSIGNED).is_none());
    assert!(group_blocks(&[], &config(&["a"])).is_empty());
}

#[test]
fn a_found_block_is_the_grouped_one() {
    let ds = tensors(&["b.10.x", "a.2.y", "free", "b.2.x", "a.1.3.x"]);
    let c = config(&["b", "a.1", "a"]);
    for grouped in group_blocks(&ds, &c) {
        let found = find_block(&ds, &c, &grouped.id).unwrap();
        assert_eq!(found.id, grouped.id);
        assert_eq!(found.family, grouped.family);
        assert_eq!(found.index, grouped.index);
        assert_eq!(names(&found.tensors), names(&grouped.tensors));
    }
}

#[test]
fn only_exact_ids_are_found() {
    let ds = tensors(&["layers.1.x", "layers.10.x"]);
    let c = config(&["layers"]);
    assert_eq!(
        names(&find_block(&ds, &c, "layers.1").unwrap().tensors),
        vec!["layers.1.x"]
    );
    for id in [
        "layers.01",
        "layers.+1",
        "layers.1.x",
        "layers.",
        "layers",
        "layers.2",
        "",
        "Layers.1",
    ] {
        assert!(find_block(&ds, &c, id).is_none(), "{id}");
    }
}

#[test]
fn file_ranges_follow_from_offset_and_length() {
    let mut d = tensor("t");
    d.file_offset = 100;
    d.byte_len = 28;
    assert_eq!(d.file_range(), 100..128);
}

#[test]
fn numbers_as_text() {
    assert_eq!(decimal_text(0), "0");
    assert_eq!(decimal_text(1009), "1009");
    assert_eq!(decimal_text(u64::MAX), "18446744073709551615");
    let s = to_chars("x12.y");
    assert_eq!(read_number(&s, 1, 3), Some(12));
    assert_eq!(read_number(&s, 1, 4), None);
    assert_eq!(read_number(&s, 1, 1), None);
}

#[test]
fn text_order_is_that_of_code_points() {
    assert!(matches!(compare_text("a", "b"), Placement::Before));
    assert!(matches!(compare_text("a", "a"), Placement::Same));
    assert!(matches!(compare_text("ab", "a"), Placement::After));
    assert!(matches!(compare_text("a.10", "a.2"), Placement::Before));
    assert!(matches!(compare_text("Z", "a"), Placement::Before));
    assert!(matches!(
        compare_text("\u{e9}", "\u{10000}"),
        Placement::Before
    ));
    assert!(same_text("weight", "weight"));
    assert!(!same_text("weight", "weights"));
}

#[test]
fn a_name_map_lists_its_keys_in_order() {
    let mut m: NameMap<u8> = NameMap::new();
    for (i, k) in ["m", "a", "z", "m", "b"].iter().enumerate() {
        m.insert(k, i as u8);
    }
    let keys: Vec<&str> = (0..m.len()).map(|i| m.key_at(i)).collect();
    assert_eq!(keys, vec!["a", "b", "m", "z"]);
    assert_eq!(m.get("m"), Some(&3));
    assert_eq!(*m.value_at(3), 2);
    assert_eq!(m.get("c"), None);
}

#[test]
fn a_repeated_label_counts_where_it_comes_first() {
    let ds = vec![TensorDescriptor {
        name: "layers.0.w".to_string(),
        dtype: Dtype::F32,
        shape: vec![2],
        shard_id: 0,
        file_offset: 16,
        byte_len: 8,
    }];
    let blocks = group_blocks(&ds, &config(&["layers", "layers"]));
    assert_eq!(blocks.len(), 1);
    assert_eq!(blocks[0].id, "layers.0");
    assert_eq!(blocks[0].tensors, ds);

    let ds = tensors(&["b.1.x", "a.2.x", "a.1.x", "free"]);
    let blocks = group_blocks(&ds, &config(&["a", "b", "a", "b"]));
    let ids: Vec<&str> = blocks.iter().map(|b| b.id.as_str()).collect();
    assert_eq!(ids, vec!["a.1", "a.2", "b.1", UNASSIGNED]);
    assert_eq!(
        blocks.iter().map(|b| b.tensors.len()).sum::<usize>(),
        ds.len()
    );
}

#[test]
fn a_cloned_configuration_matches_alike() {
    let c = config(&["layers", "blocks"]).with_model_prefix("model");
    let copy = c.clone();
    for name in ["model.layers.3.w", "blocks.1.w", "model.x", "other.layers.3.w"] {
        assert_eq!(copy.match_name(name), c.match_name(name));
    }
}
