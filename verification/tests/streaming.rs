//! The engine: planning, residency, the ring and what is exported.

use safetensors::tensor::TensorView;
use streamloader::discovery::Listing;
use streamloader::dlpack::{cuda_export, DlDtype, DL_CUDA};
use streamloader::engine::{
    block_pinned_start_offset, device_bytes, RustEngine, Stats, Transfer,
};
use streamloader::engine_plan::{
    dl_dtype, engine_config, order_blocks, BlockMeta, EngineError, EnginePlan, TensorMeta,
};
use streamloader::opening::Opening;
use streamloader::residency::{choose_resident, positions_by_size};
use streamloader::{BlockConfig, Dtype, FilePath, Model, UNASSIGNED};

fn file(tensors: &[(&str, safetensors::Dtype, Vec<u8>)]) -> Vec<u8> {
    let views: Vec<(&str, TensorView)> = tensors
        .iter()
        .map(|(name, dtype, data)| {
            let shape = vec![data.len() * 8 / dtype.bitsize()];
            (*name, TensorView::new(*dtype, shape, data).unwrap())
        })
        .collect();
    safetensors::serialize(views, None).unwrap()
}

fn bytes_file(tensors: &[(&str, Vec<u8>)]) -> Vec<u8> {
    let all: Vec<(&str, safetensors::Dtype, Vec<u8>)> = tensors
        .iter()
        .map(|(n, d)| (*n, safetensors::Dtype::U8, d.clone()))
        .collect();
    file(&all)
}

fn open(bytes: &[u8]) -> Model<'_> {
    let mut state = Model::open(&FilePath::from_text("/m.safetensors"));
    loop {
        state = match state {
            Opening::Listing(s) => s.listed(&Listing::File).unwrap(),
            Opening::Bytes(s) => s.mapped(bytes).unwrap(),
            Opening::Id(s) => return s.identified(1),
            other => panic!("unexpected {other:?}"),
        };
    }
}

/// Three blocks of 4, 2 and 4 bytes and 3 shared bytes.
fn sample() -> Vec<u8> {
    bytes_file(&[
        ("blocks.0.a", vec![1, 2]),
        ("blocks.0.b", vec![3, 4]),
        ("blocks.1.a", vec![5, 6]),
        ("blocks.2.a", vec![7, 8, 9, 10]),
        ("embed", vec![11, 12, 13]),
    ])
}

fn families() -> Vec<String> {
    vec!["blocks".to_string()]
}

fn engine(model: &Model, slots: usize, resident_budget: u64) -> (RustEngine, Vec<u8>) {
    let labels = families();
    let plan = EnginePlan::new(model, Some(&labels), u64::MAX).unwrap();
    let mut pinned = vec![0u8; plan.pinned_bytes() as usize];
    let engine = RustEngine::new(&plan, &mut pinned, slots, resident_budget).unwrap();
    (engine, pinned)
}

fn fetch(engine: &mut RustEngine, id: &str) -> Transfer {
    let t = engine.issue_transfer(id).unwrap();
    engine.finish_transfer();
    t
}

#[test]
fn the_engine_groups_by_flux_unless_told_otherwise() {
    assert_eq!(
        engine_config(None).match_name("transformer_blocks.3.w"),
        Some(("transformer_blocks", 3))
    );
    assert_eq!(engine_config(None).match_name("blocks.3.w"), None);
    let labels = families();
    let c = engine_config(Some(&labels));
    assert_eq!(c.match_name("blocks.3.w"), Some(("blocks", 3)));
    assert_eq!(c.match_name("transformer_blocks.3.w"), None);
}

#[test]
fn shared_tensors_come_first() {
    let bytes = sample();
    let m = open(&bytes);
    let labels = families();
    let blocks = order_blocks(m.blocks(&engine_config(Some(&labels))));
    let ids: Vec<&str> = blocks.iter().map(|b| b.id.as_str()).collect();
    assert_eq!(ids, vec![UNASSIGNED, "blocks.0", "blocks.1", "blocks.2"]);
    let flux = order_blocks(m.blocks(&BlockConfig::generic()));
    assert_eq!(flux[0].id, UNASSIGNED);
}

#[test]
fn a_budget_that_is_too_small_is_refused() {
    let bytes = sample();
    let m = open(&bytes);
    let labels = families();
    match EnginePlan::new(&m, Some(&labels), 12).unwrap_err() {
        EngineError::BudgetExceeded { needed, budget } => {
            assert_eq!((needed, budget), (13, 12));
        }
        other => panic!("unexpected {other:?}"),
    }
    let plan = EnginePlan::new(&m, Some(&labels), 13).unwrap();
    assert_eq!(plan.pinned_bytes(), 13);
}

#[test]
fn the_pinned_buffer_holds_the_blocks_in_order() {
    let bytes = sample();
    let m = open(&bytes);
    let labels = families();
    let plan = EnginePlan::new(&m, Some(&labels), 100).unwrap();
    let mut pinned = vec![0u8; 13];
    let layout = plan.fill(&mut pinned).unwrap();
    assert_eq!(pinned, vec![11, 12, 13, 1, 2, 3, 4, 5, 6, 7, 8, 9, 10]);
    assert_eq!(layout.shared_bytes, 3);
    assert_eq!(layout.block_order, vec!["blocks.0", "blocks.1", "blocks.2"]);
    assert_eq!(layout.blocks.len(), 4);
    let b = layout.blocks.get("blocks.0").unwrap();
    assert_eq!(b.total_bytes, 4);
    let places: Vec<(&str, u64, u64)> = b
        .tensors
        .iter()
        .map(|t| (t.name.as_str(), t.pinned_offset, t.len))
        .collect();
    assert_eq!(places, vec![("blocks.0.a", 3, 2), ("blocks.0.b", 5, 2)]);
    assert_eq!(block_pinned_start_offset(b), 3);
}

#[test]
fn types_that_cannot_be_exported_fail_at_the_start() {
    let bytes = file(&[
        ("blocks.0.a", safetensors::Dtype::F32, vec![0; 4]),
        ("blocks.1.a", safetensors::Dtype::F8_E4M3, vec![0; 2]),
    ]);
    let m = open(&bytes);
    let labels = families();
    let plan = EnginePlan::new(&m, Some(&labels), 100).unwrap();
    let mut pinned = vec![0u8; 6];
    match plan.fill(&mut pinned).unwrap_err() {
        EngineError::UnsupportedDtype { name, dtype } => {
            assert_eq!(name, "blocks.1.a");
            assert_eq!(dtype, Dtype::F8_E4M3);
        }
        other => panic!("unexpected {other:?}"),
    }
    assert!(matches!(
        RustEngine::new(&plan, &mut pinned, 1, 0).unwrap_err(),
        EngineError::UnsupportedDtype { .. }
    ));
}

#[test]
fn exported_types_keep_their_size() {
    let pairs = [
        (Dtype::F32, DlDtype::F32, (2, 32)),
        (Dtype::F16, DlDtype::F16, (2, 16)),
        (Dtype::BF16, DlDtype::Bf16, (4, 16)),
        (Dtype::F64, DlDtype::F64, (2, 64)),
        (Dtype::I64, DlDtype::I64, (0, 64)),
        (Dtype::I32, DlDtype::I32, (0, 32)),
        (Dtype::I16, DlDtype::I16, (0, 16)),
        (Dtype::I8, DlDtype::I8, (0, 8)),
        (Dtype::U8, DlDtype::U8, (1, 8)),
        (Dtype::BOOL, DlDtype::Bool, (6, 8)),
    ];
    for (dtype, dl, code_bits) in pairs {
        assert_eq!(dl_dtype("t", dtype).unwrap(), dl);
        assert_eq!(dl.code_bits(), code_bits);
        assert_eq!(dl.code_bits().1 as usize, dtype.bitsize());
    }
    for dtype in [Dtype::U16, Dtype::U32, Dtype::U64, Dtype::F4, Dtype::C64] {
        assert_eq!(DlDtype::of(dtype), None);
        assert!(matches!(
            dl_dtype("t", dtype).unwrap_err(),
            EngineError::UnsupportedDtype { name, dtype: d } if name == "t" && d == dtype
        ));
    }
}

#[test]
fn an_export_describes_a_compact_cuda_tensor() {
    let e = cuda_export(4096, 1, &[2, 3, 5], DlDtype::Bf16);
    assert_eq!(e.device_ptr, 4096);
    assert_eq!(e.device_type, DL_CUDA);
    assert_eq!(e.device_id, 1);
    assert_eq!(e.ndim, 3);
    assert_eq!((e.code, e.bits, e.lanes), (4, 16, 1));
    assert_eq!(e.shape, vec![2, 3, 5]);
    assert_eq!(e.byte_offset, 0);
    assert_eq!(cuda_export(0, 0, &[], DlDtype::U8).ndim, 0);
}

#[test]
fn the_largest_blocks_that_fit_stay() {
    let sizes = vec![4, 9, 4, 7, 1];
    assert_eq!(positions_by_size(&sizes), vec![1, 3, 0, 2, 4]);
    assert_eq!(choose_resident(&sizes, 0), (vec![], 0));
    assert_eq!(choose_resident(&sizes, 8), (vec![3, 4], 8));
    assert_eq!(choose_resident(&sizes, 13), (vec![1, 0], 13));
    assert_eq!(choose_resident(&sizes, 25), (vec![1, 3, 0, 2, 4], 25));
    assert_eq!(choose_resident(&sizes, 24), (vec![1, 3, 0, 2], 24));
    assert_eq!(choose_resident(&vec![0, 2], 0), (vec![], 0));
    assert_eq!(choose_resident(&vec![0, 2], 1), (vec![0], 0));
    assert_eq!(
        choose_resident(&vec![u64::MAX, 1], u64::MAX),
        (vec![0], u64::MAX)
    );
}

#[test]
fn an_engine_at_its_start() {
    let bytes = sample();
    let m = open(&bytes);
    let (e, pinned) = engine(&m, 2, 0);
    assert_eq!(pinned.len(), 13);
    assert_eq!(
        e.stats(),
        Stats {
            pinned_bytes: 13,
            vram_bytes: 3 + 2 * 4,
            ..Default::default()
        }
    );
    assert_eq!(e.block_ids(), vec!["blocks.0", "blocks.1", "blocks.2"]);
    assert!(e.resident_block_ids().is_empty());
    assert_eq!(e.slot_count(), 2);
    assert_eq!(e.slot_bytes(), 4);
    assert_eq!(e.shared_bytes(), 3);
    assert_eq!(e.shared_source(), Some((0, 3)));
    assert!(e.timings().is_empty());
}

#[test]
fn an_engine_has_at_least_one_slot() {
    let bytes = sample();
    let m = open(&bytes);
    let (e, _) = engine(&m, 0, 100);
    assert_eq!(e.slot_count(), 1);
    assert_eq!(e.slot_bytes(), 0);
    assert_eq!(e.stats().vram_bytes, 3 + 10 + 1);
    assert_eq!(e.stats().resident_bytes, 10);
    assert_eq!(
        e.resident_block_ids(),
        vec!["blocks.0", "blocks.1", "blocks.2"]
    );
}

#[test]
fn the_ring_takes_turns_and_remembers() {
    let bytes = sample();
    let m = open(&bytes);
    let (mut e, _) = engine(&m, 2, 0);
    assert!(matches!(
        fetch(&mut e, "blocks.0"),
        Transfer::Copy { slot: 0, wait: false, pinned_offset: 3, bytes: 4 }
    ));
    assert!(matches!(
        fetch(&mut e, "blocks.1"),
        Transfer::Copy { slot: 1, wait: false, pinned_offset: 7, bytes: 2 }
    ));
    assert!(matches!(fetch(&mut e, "blocks.0"), Transfer::Cached { slot: 0 }));
    assert_eq!(e.mark_block_done("blocks.0").unwrap(), Some(0));
    e.record_done(0);
    assert!(matches!(
        fetch(&mut e, "blocks.2"),
        Transfer::Copy { slot: 0, wait: true, pinned_offset: 9, bytes: 4 }
    ));
    assert!(matches!(
        e.mark_block_done("blocks.0").unwrap_err(),
        EngineError::BlockNotResident(id) if id == "blocks.0"
    ));
    assert!(matches!(
        fetch(&mut e, "blocks.0"),
        Transfer::Copy { slot: 1, wait: false, pinned_offset: 3, bytes: 4 }
    ));
    let s = e.stats();
    assert_eq!(s.bytes_h2d, 4 + 2 + 4 + 4);
    assert_eq!(s.transfer_count, 4);
    assert_eq!(s.cache_hits, 1);
    assert_eq!(s.resident_hits, 0);
    let copies: Vec<(&str, u64, bool)> = e
        .timings()
        .iter()
        .map(|t| (t.id.as_str(), t.bytes, t.resident))
        .collect();
    assert_eq!(
        copies,
        vec![
            ("blocks.0", 4, false),
            ("blocks.1", 2, false),
            ("blocks.2", 4, false),
            ("blocks.0", 4, false)
        ]
    );
}

#[test]
fn a_copy_that_failed_is_not_recorded() {
    let bytes = sample();
    let m = open(&bytes);
    let (mut e, _) = engine(&m, 2, 0);
    e.issue_transfer("blocks.0").unwrap();
    assert_eq!(e.stats().transfer_count, 0);
    assert!(matches!(
        e.issue_transfer("blocks.0").unwrap(),
        Transfer::Copy { slot: 1, .. }
    ));
    e.finish_transfer();
    assert_eq!(e.stats().transfer_count, 1);
    e.finish_transfer();
    assert_eq!(e.stats().transfer_count, 1);
    assert!(matches!(
        e.issue_transfer("nothing").unwrap_err(),
        EngineError::UnknownBlock(id) if id == "nothing"
    ));
}

#[test]
fn resident_blocks_are_never_streamed() {
    let bytes = sample();
    let m = open(&bytes);
    let (mut e, _) = engine(&m, 1, 4);
    assert_eq!(e.resident_block_ids(), vec!["blocks.0"]);
    assert_eq!(e.resident_count(), 1);
    assert_eq!(e.resident_source(0), (3, 4));
    assert_eq!(e.slot_bytes(), 4);
    assert_eq!(e.stats().resident_bytes, 4);
    assert!(matches!(fetch(&mut e, "blocks.0"), Transfer::Resident { at: 0 }));
    assert!(matches!(fetch(&mut e, "blocks.0"), Transfer::Resident { at: 0 }));
    assert_eq!(e.mark_block_done("blocks.0").unwrap(), None);
    assert_eq!(e.stats().resident_hits, 2);
    assert_eq!(e.stats().transfer_count, 0);
    assert!(matches!(fetch(&mut e, "blocks.1"), Transfer::Copy { slot: 0, .. }));
    assert!(matches!(fetch(&mut e, "blocks.2"), Transfer::Copy { slot: 0, .. }));
}

#[test]
fn slots_are_sized_by_what_is_still_streamed() {
    let bytes = sample();
    let m = open(&bytes);
    let (e, _) = engine(&m, 3, 8);
    assert_eq!(e.resident_block_ids(), vec!["blocks.0", "blocks.2"]);
    assert_eq!(e.slot_bytes(), 2);
    assert_eq!(e.stats().vram_bytes, 3 + 8 + 3 * 2);
}

#[test]
fn distances_to_the_next_use_wrap_round() {
    let bytes = sample();
    let m = open(&bytes);
    let (e, _) = engine(&m, 1, 0);
    let d: Vec<(String, u64)> = e.next_use_distances("blocks.1").unwrap();
    assert_eq!(
        d,
        vec![
            ("blocks.0".to_string(), 2),
            ("blocks.1".to_string(), 0),
            ("blocks.2".to_string(), 1)
        ]
    );
    assert!(matches!(
        e.next_use_distances(UNASSIGNED).unwrap_err(),
        EngineError::UnknownBlock(id) if id == UNASSIGNED
    ));
}

#[test]
fn exports_point_into_the_slot() {
    let bytes = sample();
    let m = open(&bytes);
    let (e, _) = engine(&m, 1, 0);
    let ts = e.build_tensors("blocks.0", 1000).unwrap();
    let got: Vec<(&str, u64)> = ts.iter().map(|t| (t.name.as_str(), t.device_ptr)).collect();
    assert_eq!(got, vec![("blocks.0.a", 1000), ("blocks.0.b", 1002)]);
    assert_eq!(ts[0].dtype, DlDtype::U8);
    assert_eq!(ts[0].shape, vec![2]);
    assert!(matches!(
        e.build_tensors("nothing", 0).unwrap_err(),
        EngineError::UnknownBlock(id) if id == "nothing"
    ));
    let shared = e.get_shared(500).unwrap();
    assert_eq!(shared.len(), 1);
    assert_eq!((shared[0].name.as_str(), shared[0].device_ptr), ("embed", 500));
}

#[test]
fn a_model_without_shared_tensors() {
    let bytes = bytes_file(&[("blocks.0.a", vec![1, 2])]);
    let m = open(&bytes);
    let (e, pinned) = engine(&m, 1, 0);
    assert_eq!(pinned, vec![1, 2]);
    assert_eq!(e.shared_source(), None);
    assert!(e.get_shared(0).unwrap().is_empty());
    assert_eq!(e.stats().vram_bytes, 2);
}

#[test]
fn the_start_of_a_block_is_its_least_offset() {
    let tensor = |pinned_offset| TensorMeta {
        name: "t".to_string(),
        pinned_offset,
        len: 1,
        dtype: Dtype::U8,
        shape: vec![1],
    };
    let mut meta = BlockMeta {
        id: "b".to_string(),
        tensors: vec![tensor(9), tensor(4), tensor(6)],
        total_bytes: 6,
    };
    assert_eq!(block_pinned_start_offset(&meta), 4);
    meta.tensors.clear();
    assert_eq!(block_pinned_start_offset(&meta), 0);
}

#[test]
fn a_block_stays_while_fewer_blocks_than_slots_follow() {
    let bytes = sample();
    let m = open(&bytes);
    let (mut e, _) = engine(&m, 3, 0);
    fetch(&mut e, "blocks.0");
    fetch(&mut e, "blocks.1");
    fetch(&mut e, "blocks.2");
    assert!(matches!(fetch(&mut e, "blocks.0"), Transfer::Cached { slot: 0 }));
    let (mut e, _) = engine(&m, 1, 0);
    fetch(&mut e, "blocks.0");
    fetch(&mut e, "blocks.1");
    assert!(matches!(fetch(&mut e, "blocks.0"), Transfer::Copy { .. }));
}

#[test]
fn an_exported_address_shows_the_tensor() {
    let bytes = sample();
    let m = open(&bytes);
    let (mut e, pinned) = engine(&m, 1, 0);
    for id in ["blocks.0", "blocks.1", "blocks.2"] {
        let Transfer::Copy { pinned_offset, bytes: size, .. } = fetch(&mut e, id) else {
            panic!("one slot holds one block");
        };
        let slot = &pinned[pinned_offset as usize..(pinned_offset + size) as usize];
        for t in e.build_tensors(id, 64).unwrap() {
            let want = m.tensor_bytes(&t.name).unwrap();
            let at = (t.device_ptr - 64) as usize;
            assert_eq!(&slot[at..at + want.len()], want);
        }
    }
}

#[test]
fn without_a_budget_not_even_an_empty_block_stays() {
    let bytes = file(&[("blocks.0.a", safetensors::Dtype::F32, vec![])]);
    let m = open(&bytes);
    let (e, _) = engine(&m, 1, 0);
    assert_eq!(e.block_ids(), vec!["blocks.0"]);
    assert!(e.resident_block_ids().is_empty());
    assert_eq!(e.resident_count(), 0);
    let (e, _) = engine(&m, 1, 1);
    assert_eq!(e.resident_block_ids(), vec!["blocks.0"]);
}

#[test]
fn shared_tensors_never_go_to_the_ring() {
    let bytes = bytes_file(&[
        ("blocks.0.a", vec![1, 2, 3, 4]),
        ("embed", vec![5, 6, 7, 8, 9, 10, 11, 12]),
    ]);
    let m = open(&bytes);
    let (mut e, pinned) = engine(&m, 1, 0);
    assert_eq!(e.slot_bytes(), 4);
    assert!(matches!(
        e.mark_block_done(UNASSIGNED).unwrap_err(),
        EngineError::BlockNotResident(id) if id == UNASSIGNED
    ));
    assert!(matches!(fetch(&mut e, UNASSIGNED), Transfer::Shared));
    assert_eq!(e.mark_block_done(UNASSIGNED).unwrap(), None);
    assert_eq!(e.stats().bytes_h2d, 0);
    assert_eq!(e.stats().transfer_count, 0);
    let (offset, size) = e.shared_source().unwrap();
    assert_eq!(&pinned[offset as usize..(offset + size) as usize], m.tensor_bytes("embed").unwrap());
    assert!(matches!(
        fetch(&mut e, "blocks.0"),
        Transfer::Copy { slot: 0, bytes: 4, .. }
    ));
    assert!(matches!(fetch(&mut e, UNASSIGNED), Transfer::Shared));
    assert!(matches!(fetch(&mut e, "blocks.0"), Transfer::Cached { slot: 0 }));
    assert_eq!(e.mark_block_done(UNASSIGNED).unwrap(), None);
    assert_eq!(e.mark_block_done("blocks.0").unwrap(), Some(0));
    let bytes = bytes_file(&[("blocks.0.a", vec![1])]);
    let m = open(&bytes);
    let (mut e, _) = engine(&m, 1, 0);
    assert!(matches!(
        e.issue_transfer(UNASSIGNED).unwrap_err(),
        EngineError::UnknownBlock(id) if id == UNASSIGNED
    ));
    assert!(matches!(
        e.mark_block_done(UNASSIGNED).unwrap_err(),
        EngineError::BlockNotResident(id) if id == UNASSIGNED
    ));
}

#[test]
fn a_slot_never_reported_done_is_copied_to_without_a_wait() {
    let bytes = sample();
    let m = open(&bytes);
    let (mut e, _) = engine(&m, 1, 0);
    fetch(&mut e, "blocks.0");
    assert!(matches!(
        fetch(&mut e, "blocks.1"),
        Transfer::Copy { slot: 0, wait: false, .. }
    ));
    let slot = e.mark_block_done("blocks.1").unwrap().unwrap();
    e.record_done(slot);
    assert!(matches!(
        fetch(&mut e, "blocks.2"),
        Transfer::Copy { slot: 0, wait: true, .. }
    ));
}

#[test]
fn a_plan_holds_all_bytes_of_the_model_however_they_are_grouped() {
    let bytes = sample();
    let m = open(&bytes);
    let all: u64 = m.descriptors().iter().map(|d| d.byte_len).sum();
    assert_eq!(all, 13);
    for labels in [vec!["blocks"], vec!["none"], vec!["blocks", "blocks"]] {
        let labels: Vec<String> = labels.iter().map(|l| l.to_string()).collect();
        let plan = EnginePlan::new(&m, Some(&labels), u64::MAX).unwrap();
        assert_eq!(plan.pinned_bytes(), all);
    }
}

#[test]
fn a_second_round_is_all_hits_and_one_more_block_evicts_the_first() {
    let bytes = sample();
    let m = open(&bytes);
    let (mut e, _) = engine(&m, 2, 0);
    fetch(&mut e, "blocks.0");
    fetch(&mut e, "blocks.1");
    for id in ["blocks.1", "blocks.0"] {
        assert!(matches!(fetch(&mut e, id), Transfer::Cached { .. }));
    }
    assert_eq!((e.stats().transfer_count, e.stats().cache_hits), (2, 2));
    assert!(matches!(fetch(&mut e, "blocks.2"), Transfer::Copy { slot: 0, .. }));
    assert_eq!(e.stats().transfer_count, 3);
    assert!(matches!(fetch(&mut e, "blocks.1"), Transfer::Cached { slot: 1 }));
    assert!(matches!(fetch(&mut e, "blocks.2"), Transfer::Cached { slot: 0 }));
    assert!(matches!(fetch(&mut e, "blocks.0"), Transfer::Copy { .. }));
}

#[test]
fn a_block_that_comes_back_shows_the_same_bytes() {
    let bytes = sample();
    let m = open(&bytes);
    let (mut e, pinned) = engine(&m, 2, 4);
    assert_eq!(e.resident_block_ids(), vec!["blocks.0"]);
    let mut ring = vec![vec![0xEEu8; e.slot_bytes() as usize]; e.slot_count()];
    let stays: Vec<Vec<u8>> = (0..e.resident_count())
        .map(|at| {
            let (offset, size) = e.resident_source(at);
            pinned[offset as usize..(offset + size) as usize].to_vec()
        })
        .collect();
    for id in ["blocks.1", "blocks.2", "blocks.0", "blocks.1", "blocks.2", "blocks.1"] {
        let buffer = match fetch(&mut e, id) {
            Transfer::Copy { slot, pinned_offset, bytes: size, .. } => {
                let from = pinned_offset as usize;
                ring[slot][..size as usize].copy_from_slice(&pinned[from..from + size as usize]);
                &ring[slot]
            }
            Transfer::Cached { slot } => &ring[slot],
            Transfer::Resident { at } => &stays[at],
            Transfer::Shared => panic!("no shared tensors were asked for"),
        };
        for t in e.build_tensors(id, 100).unwrap() {
            let want = m.tensor_bytes(&t.name).unwrap();
            let at = (t.device_ptr - 100) as usize;
            assert_eq!(&buffer[at..at + want.len()], want);
        }
        if let Some(slot) = e.mark_block_done(id).unwrap() {
            e.record_done(slot);
        }
    }
}

#[test]
fn device_memory_is_counted_before_it_is_taken() {
    let bytes = sample();
    let m = open(&bytes);
    let labels = families();
    let plan = EnginePlan::new(&m, Some(&labels), u64::MAX).unwrap();
    let mut pinned = vec![0u8; plan.pinned_bytes() as usize];
    let layout = plan.fill(&mut pinned).unwrap();
    assert_eq!(device_bytes(&layout, 2, 0), Some(3 + 2 * 4));
    assert_eq!(device_bytes(&layout, 3, 8), Some(3 + 8 + 3 * 2));
    assert_eq!(device_bytes(&layout, 0, 100), Some(3 + 10 + 1));
    assert_eq!(device_bytes(&layout, usize::MAX, 0), None);
    let e = RustEngine::from_layout(layout, plan.pinned_bytes(), 3, 8);
    assert_eq!(e.stats().vram_bytes, 3 + 8 + 3 * 2);
}
