//! Paths, headers, shards, checksums and what a path stands for.

use safetensors::tensor::TensorView;
use streamloader::catalog::Catalog;
use streamloader::checksum::{hex_text, ALGORITHM};
use streamloader::discovery::{
    check_shard_name, resolve_input, resolve_shard_path, shard_boundary, DirEntry, IndexJson,
    Input, Listing, ShardPlan, ABSOLUTE_PATH, OUTSIDE_ROOT, PATH_TRAVERSAL, SEVERAL_INDEXES,
    SEVERAL_SHARDS,
};
use streamloader::header::{read_declared_len, read_header};
use streamloader::name_map::NameMap;
use streamloader::path::sort_paths;
use streamloader::shard::Shard;
use streamloader::{Dtype, FilePath, LoaderError, TensorChecksum};

const MAX: u64 = 67_108_864;

fn path(s: &str) -> FilePath {
    FilePath::from_text(s)
}

fn text_of(p: &FilePath) -> String {
    String::from_utf8(p.as_bytes().to_vec()).unwrap()
}

fn entry(p: &str, is_file: bool) -> DirEntry {
    DirEntry {
        path: path(p),
        is_file,
    }
}

fn file_with_header(json: &str, data: &[u8]) -> Vec<u8> {
    let mut bytes = (json.len() as u64).to_le_bytes().to_vec();
    bytes.extend_from_slice(json.as_bytes());
    bytes.extend_from_slice(data);
    bytes
}

fn one_tensor_file(dtype: safetensors::Dtype, shape: Vec<usize>, data: &[u8]) -> Vec<u8> {
    let view = TensorView::new(dtype, shape, data).unwrap();
    safetensors::serialize(vec![("t", view)], None).unwrap()
}

#[test]
fn the_directory_of_a_path() {
    assert_eq!(text_of(&path("/a/b/c.json").directory()), "/a/b");
    assert_eq!(text_of(&path("/c.json").directory()), "/");
    assert_eq!(text_of(&path("c.json").directory()), ".");
    assert_eq!(text_of(&path("a/c.json").directory()), "a");
}

#[test]
fn joining_paths() {
    assert_eq!(text_of(&path("/a").join("b/c")), "/a/b/c");
    assert_eq!(text_of(&path("/").join("b")), "/b");
    assert_eq!(text_of(&path("/a").join("/b")), "/b");
    assert_eq!(text_of(&path("").join("b")), "b");
}

#[test]
fn lying_within_goes_by_whole_parts() {
    assert!(path("/a/b").starts_with(&path("/a")));
    assert!(path("/a").starts_with(&path("/a")));
    assert!(path("/a//b/./c").starts_with(&path("/a/b/")));
    assert!(path("/a").starts_with(&path("/")));
    assert!(!path("/ab").starts_with(&path("/a")));
    assert!(!path("/a").starts_with(&path("/a/b")));
    assert!(!path("a/b").starts_with(&path("/a")));
    assert!(!path("/a/b").starts_with(&path("a")));
}

#[test]
fn paths_sort_by_bytes() {
    let sorted = sort_paths(vec![path("/d/b"), path("/d/a2"), path("/d/a10"), path("/d/B")]);
    let names: Vec<String> = sorted.iter().map(text_of).collect();
    assert_eq!(names, vec!["/d/B", "/d/a10", "/d/a2", "/d/b"]);
    assert!(path("/d/a").is_before(&path("/d/ab")));
    assert!(!path("/d/a").is_before(&path("/d/a")));
    assert!(path("x.safetensors").ends_with(".safetensors"));
    assert!(!path("x").ends_with("xx"));
}

#[test]
fn the_declared_length_is_little_endian() {
    assert_eq!(read_declared_len(&[1, 2, 0, 0, 0, 0, 0, 0]), 513);
    assert_eq!(read_declared_len(&[255; 9]), u64::MAX);
    assert_eq!(read_declared_len(&[0, 0, 0, 0, 0, 0, 0, 1]), 1 << 56);
}

#[test]
fn a_header_is_read_as_it_was_written() {
    let data: Vec<u8> = (0..24).collect();
    let bytes = one_tensor_file(safetensors::Dtype::BF16, vec![3, 4], &data);
    let (n, header) = read_header(&bytes).unwrap();
    assert_eq!(n as u64, read_declared_len(&bytes));
    assert_eq!(header.len(), 1);
    let info = header.get("t").unwrap();
    assert_eq!(info.dtype, Dtype::BF16);
    assert_eq!(info.shape, vec![3, 4]);
    assert_eq!(info.data_offsets, (0, 24));
    assert_eq!(&bytes[8 + n..], data.as_slice());
}

#[test]
fn every_element_type_is_known_by_name_and_size() {
    let all = [
        (safetensors::Dtype::BOOL, Dtype::BOOL),
        (safetensors::Dtype::F4, Dtype::F4),
        (safetensors::Dtype::F6_E2M3, Dtype::F6_E2M3),
        (safetensors::Dtype::F6_E3M2, Dtype::F6_E3M2),
        (safetensors::Dtype::U8, Dtype::U8),
        (safetensors::Dtype::I8, Dtype::I8),
        (safetensors::Dtype::F8_E5M2, Dtype::F8_E5M2),
        (safetensors::Dtype::F8_E4M3, Dtype::F8_E4M3),
        (safetensors::Dtype::F8_E8M0, Dtype::F8_E8M0),
        (safetensors::Dtype::F8_E4M3FNUZ, Dtype::F8_E4M3FNUZ),
        (safetensors::Dtype::F8_E5M2FNUZ, Dtype::F8_E5M2FNUZ),
        (safetensors::Dtype::I16, Dtype::I16),
        (safetensors::Dtype::U16, Dtype::U16),
        (safetensors::Dtype::F16, Dtype::F16),
        (safetensors::Dtype::BF16, Dtype::BF16),
        (safetensors::Dtype::I32, Dtype::I32),
        (safetensors::Dtype::U32, Dtype::U32),
        (safetensors::Dtype::F32, Dtype::F32),
        (safetensors::Dtype::C64, Dtype::C64),
        (safetensors::Dtype::F64, Dtype::F64),
        (safetensors::Dtype::I64, Dtype::I64),
        (safetensors::Dtype::U64, Dtype::U64),
    ];
    for (theirs, ours) in all {
        assert_eq!(theirs.to_string(), ours.name());
        assert_eq!(theirs.bitsize(), ours.bitsize());
        assert_eq!(Dtype::from_name(ours.name()), Some(ours));
        let data = vec![7u8; ours.bitsize()];
        let bytes = one_tensor_file(theirs, vec![8], &data);
        let (_, header) = read_header(&bytes).unwrap();
        assert_eq!(header.get("t").unwrap().dtype, ours);
    }
    assert_eq!(Dtype::from_name("F128"), None);
}

#[test]
fn a_shard_knows_where_its_data_begins() {
    let data = [9u8; 8];
    let bytes = one_tensor_file(safetensors::Dtype::U8, vec![8], &data);
    let (shard, header) = Shard::open(&path("/s"), &bytes, MAX).unwrap();
    let n = read_declared_len(&bytes);
    assert_eq!(shard.data_start(), 8 + n);
    assert_eq!(shard.file_len(), bytes.len() as u64);
    assert_eq!(text_of(shard.path()), "/s");
    assert_eq!(header.get("t").unwrap().data_offsets, (0, 8));
    assert_eq!(
        shard.absolute_range("t", 0, 8).unwrap(),
        (8 + n, 16 + n)
    );
    assert_eq!(shard.byte_range("t", 8 + n, 16 + n).unwrap(), &data);
}

#[test]
fn byte_ranges_outside_the_file_are_refused() {
    let bytes = [0u8; 20];
    let shard = Shard::with_header_len(&path("/s"), &bytes, 4).unwrap();
    assert_eq!(shard.data_start(), 12);
    assert_eq!(shard.byte_range("t", 20, 20).unwrap().len(), 0);
    for (start, end) in [(0, 21), (5, 4), (u64::MAX, u64::MAX)] {
        match shard.byte_range("t", start, end).unwrap_err() {
            LoaderError::OutOfBounds {
                path,
                tensor,
                start: s,
                end: e,
                file_len,
            } => {
                assert_eq!(text_of(&path), "/s");
                assert_eq!(tensor, "t");
                assert_eq!((s, e, file_len), (start, end, 20));
            }
            other => panic!("unexpected {other:?}"),
        }
    }
}

#[test]
fn offsets_that_overflow_are_refused() {
    let bytes = [0u8; 20];
    let shard = Shard::with_header_len(&path("/s"), &bytes, 4).unwrap();
    for (start, end) in [(u64::MAX, u64::MAX), (0, u64::MAX - 11)] {
        match shard.absolute_range("t", start, end).unwrap_err() {
            LoaderError::OffsetOverflow { path, tensor } => {
                assert_eq!(text_of(&path), "/s");
                assert_eq!(tensor, "t");
            }
            other => panic!("unexpected {other:?}"),
        }
    }
    assert_eq!(
        shard.absolute_range("t", 0, u64::MAX - 12).unwrap(),
        (12, u64::MAX)
    );
    let err = Shard::with_header_len(&path("/s"), &bytes, usize::MAX).unwrap_err();
    match err {
        LoaderError::OffsetOverflow { tensor, .. } => assert_eq!(tensor, ""),
        other => panic!("unexpected {other:?}"),
    }
}

#[test]
fn a_header_whose_sizes_cannot_be_added_up_is_refused() {
    let each: u64 = (1 << 61) - 1;
    let mut parts = Vec::new();
    for k in 0..8u64 {
        parts.push(format!(
            "\"t{k}\":{{\"dtype\":\"U8\",\"shape\":[{each}],\"data_offsets\":[{},{}]}}",
            k * each,
            (k + 1) * each
        ));
    }
    let bytes = file_with_header(&format!("{{{}}}", parts.join(",")), &[]);
    let err = Shard::open(&path("/s"), &bytes, MAX).unwrap_err();
    match err {
        LoaderError::InvalidHeader { path, source } => {
            assert_eq!(text_of(&path), "/s");
            assert!(matches!(
                source,
                safetensors::SafeTensorError::MetadataIncompleteBuffer
            ));
        }
        other => panic!("unexpected {other:?}"),
    }
}

#[test]
fn headers_that_do_not_describe_their_file_are_refused() {
    let cases: [(&str, usize); 5] = [
        ("{\"t\":{\"dtype\":\"U8\",\"shape\":[4],\"data_offsets\":[0,4]}}", 5),
        ("{\"t\":{\"dtype\":\"U8\",\"shape\":[4],\"data_offsets\":[0,5]}}", 5),
        ("{\"t\":{\"dtype\":\"U8\",\"shape\":[4],\"data_offsets\":[1,5]}}", 5),
        ("{\"t\":{\"dtype\":\"X8\",\"shape\":[4],\"data_offsets\":[0,4]}}", 4),
        ("[]", 0),
    ];
    for (json, data_len) in cases {
        let bytes = file_with_header(json, &vec![0u8; data_len]);
        assert!(read_header(&bytes).is_err(), "{json}");
        assert!(matches!(
            Shard::open(&path("/s"), &bytes, MAX).unwrap_err(),
            LoaderError::InvalidHeader { .. }
        ));
    }
    let good = "{\"t\":{\"dtype\":\"U8\",\"shape\":[4],\"data_offsets\":[0,4]}}";
    assert!(read_header(&file_with_header(good, &[0; 4])).is_ok());
    assert!(read_header(&file_with_header("{}", &[])).is_ok());
}

#[test]
fn the_header_limit_is_inclusive() {
    let bytes = file_with_header("{}", &[]);
    assert!(Shard::open(&path("/s"), &bytes, 2).is_ok());
    assert!(matches!(
        Shard::open(&path("/s"), &bytes, 1).unwrap_err(),
        LoaderError::HeaderTooLarge {
            declared: 2,
            limit: 1,
            ..
        }
    ));
    assert!(matches!(
        Shard::open(&path("/s"), &[0; 7], MAX).unwrap_err(),
        LoaderError::HeaderTooSmall { .. }
    ));
}

#[test]
fn a_catalog_holds_each_name_once() {
    let bytes = one_tensor_file(safetensors::Dtype::U8, vec![8], &[1; 8]);
    let (first, header) = Shard::open(&path("/a"), &bytes, MAX).unwrap();
    let (second, again) = Shard::open(&path("/b"), &bytes, MAX).unwrap();
    let catalog = Catalog::new().add_shard(first, &header).unwrap();
    let d = catalog.tensors.get("t").unwrap();
    assert_eq!(d.shard_id, 0);
    assert_eq!(d.file_offset, 8 + read_declared_len(&bytes));
    assert_eq!(d.byte_len, 8);
    match catalog.add_shard(second, &again).unwrap_err() {
        LoaderError::DuplicateTensorName {
            tensor,
            first_path,
            second_path,
        } => {
            assert_eq!(tensor, "t");
            assert_eq!(text_of(&first_path), "/a");
            assert_eq!(text_of(&second_path), "/b");
        }
        other => panic!("unexpected {other:?}"),
    }
}

#[test]
fn listed_tensors_must_be_those_of_the_shard() {
    let bytes = one_tensor_file(safetensors::Dtype::U8, vec![8], &[1; 8]);
    let index = path("/i");
    let open = || Shard::open(&path("/a"), &bytes, MAX).unwrap();

    let (shard, header) = open();
    let listed = vec!["t".to_string()];
    let catalog = Catalog::new()
        .add_listed_shard(shard, &header, &listed, &index)
        .unwrap();
    assert_eq!(catalog.tensors.len(), 1);

    let (shard, header) = open();
    let listed = vec!["s".to_string(), "t".to_string()];
    match Catalog::new()
        .add_listed_shard(shard, &header, &listed, &index)
        .unwrap_err()
    {
        LoaderError::TensorMissingFromShard { tensor, .. } => assert_eq!(tensor, "s"),
        other => panic!("unexpected {other:?}"),
    }

    let (shard, header) = open();
    match Catalog::new()
        .add_listed_shard(shard, &header, &Vec::new(), &index)
        .unwrap_err()
    {
        LoaderError::TensorMissingFromIndex {
            index_path,
            shard_path,
            tensor,
        } => {
            assert_eq!(text_of(&index_path), "/i");
            assert_eq!(text_of(&shard_path), "/a");
            assert_eq!(tensor, "t");
        }
        other => panic!("unexpected {other:?}"),
    }
}

#[test]
fn hexadecimal_has_two_digits_for_each_byte() {
    assert_eq!(hex_text(&[]), "");
    assert_eq!(hex_text(&[0, 15, 16, 171, 255]), "000f10abff");
}

#[test]
fn checksums_are_blake3() {
    let c = TensorChecksum::of("t", b"");
    assert_eq!(c.name, "t");
    assert_eq!(c.algorithm, "blake3");
    assert_eq!(c.bytes, 0);
    assert_eq!(
        c.hex,
        "af1349b9f5f9a1a6a0404dea36dcc9499bcb25c9adc112b7cc9a93cae41f3262"
    );
    let c = TensorChecksum::of("t", b"abc");
    assert_eq!(c.bytes, 3);
    assert_eq!(
        c.hex,
        "6437b3ac38465133ffb63b75273a8db548c558465d79db03fd359c6cd5bd9d85"
    );
    assert_eq!(c.hex, blake3::hash(b"abc").to_hex().to_string());
}

#[test]
fn a_checksum_of_a_known_digest() {
    let c = TensorChecksum::from_digest("w", &[1, 254], 99);
    assert_eq!(c.name, "w");
    assert_eq!(c.hex, "01fe");
    assert_eq!(c.bytes, 99);
    assert_eq!(c.algorithm, ALGORITHM);
}

#[test]
fn a_file_is_a_shard_or_an_index_by_its_name() {
    let index = path("/d/m.safetensors.index.json");
    assert!(matches!(
        resolve_input(&index, &Listing::File, false).unwrap(),
        Input::Index(p) if p == index
    ));
    let shard = path("/d/m.safetensors");
    assert!(matches!(
        resolve_input(&shard, &Listing::File, false).unwrap(),
        Input::SingleFile(p) if p == shard
    ));
    for (p, listing) in [
        ("/d/m.bin", Listing::File),
        ("/d/m.safetensors.json", Listing::File),
        ("/d/m.safetensors", Listing::Other),
    ] {
        match resolve_input(&path(p), &listing, false).unwrap_err() {
            LoaderError::UnsupportedInput { path } => assert_eq!(text_of(&path), p),
            other => panic!("unexpected {other:?}"),
        }
    }
}

#[test]
fn an_index_in_a_directory_goes_first() {
    let listing = Listing::Directory(vec![
        entry("/d/b.safetensors", true),
        entry("/d/m.safetensors.index.json", true),
        entry("/d/a.safetensors", true),
        entry("/d/config.json", true),
    ]);
    match resolve_input(&path("/d"), &listing, false).unwrap() {
        Input::Index(p) => assert_eq!(text_of(&p), "/d/m.safetensors.index.json"),
        other => panic!("unexpected {other:?}"),
    }
}

#[test]
fn one_shard_in_a_directory_needs_no_index() {
    let listing = Listing::Directory(vec![
        entry("/d/a.safetensors", true),
        entry("/d/b.safetensors", false),
        entry("/d/x.safetensors.index.json", false),
    ]);
    match resolve_input(&path("/d"), &listing, false).unwrap() {
        Input::SingleFile(p) => assert_eq!(text_of(&p), "/d/a.safetensors"),
        other => panic!("unexpected {other:?}"),
    }
    let none = Listing::Directory(vec![entry("/d/b.safetensors", false)]);
    match resolve_input(&path("/d"), &none, true).unwrap_err() {
        LoaderError::NoShardsFound { dir } => assert_eq!(text_of(&dir), "/d"),
        other => panic!("unexpected {other:?}"),
    }
}

#[test]
fn several_candidates_come_sorted_whatever_the_listing_order() {
    let shards = |names: [&str; 3]| {
        Listing::Directory(names.iter().map(|n| entry(n, true)).collect())
    };
    for names in [
        ["/d/b.safetensors", "/d/a.safetensors", "/d/c.safetensors"],
        ["/d/c.safetensors", "/d/b.safetensors", "/d/a.safetensors"],
    ] {
        match resolve_input(&path("/d"), &shards(names), true).unwrap() {
            Input::ImplicitShards(ps) => {
                let got: Vec<String> = ps.iter().map(text_of).collect();
                assert_eq!(
                    got,
                    vec!["/d/a.safetensors", "/d/b.safetensors", "/d/c.safetensors"]
                );
            }
            other => panic!("unexpected {other:?}"),
        }
        match resolve_input(&path("/d"), &shards(names), false).unwrap_err() {
            LoaderError::AmbiguousDirectory {
                reason, candidates, ..
            } => {
                assert_eq!(reason, SEVERAL_SHARDS);
                assert_eq!(candidates.len(), 3);
            }
            other => panic!("unexpected {other:?}"),
        }
    }
    let two = Listing::Directory(vec![
        entry("/d/y.safetensors.index.json", true),
        entry("/d/x.safetensors.index.json", true),
    ]);
    match resolve_input(&path("/d"), &two, true).unwrap_err() {
        LoaderError::AmbiguousDirectory {
            reason, candidates, ..
        } => {
            assert_eq!(reason, SEVERAL_INDEXES);
            let got: Vec<String> = candidates.iter().map(text_of).collect();
            assert_eq!(
                got,
                vec!["/d/x.safetensors.index.json", "/d/y.safetensors.index.json"]
            );
        }
        other => panic!("unexpected {other:?}"),
    }
}

#[test]
fn shard_names_must_be_relative_and_must_not_climb() {
    let index = path("/d/i");
    for (raw, want) in [
        ("/etc/passwd", ABSOLUTE_PATH),
        ("/", ABSOLUTE_PATH),
        ("..", PATH_TRAVERSAL),
        ("../x", PATH_TRAVERSAL),
        ("a/../b", PATH_TRAVERSAL),
        ("a/..", PATH_TRAVERSAL),
    ] {
        match check_shard_name(&index, raw).unwrap_err() {
            LoaderError::UnsafeShardPath {
                index_path,
                raw: r,
                reason,
            } => {
                assert_eq!(text_of(&index_path), "/d/i");
                assert_eq!(r, raw);
                assert_eq!(reason, want);
            }
            other => panic!("unexpected {other:?}"),
        }
    }
    for raw in ["a", "a/b", "a..b", "...", "./a", ""] {
        assert!(check_shard_name(&index, raw).is_ok(), "{raw}");
    }
}

#[test]
fn shards_must_resolve_within_the_boundary() {
    let index = path("/d/i");
    let inside = resolve_shard_path(&index, "a", &path("/d"), &path("/d/x/a")).unwrap();
    assert_eq!(text_of(&inside), "/d/x/a");
    match resolve_shard_path(&index, "a", &path("/d"), &path("/dd/a")).unwrap_err() {
        LoaderError::UnsafeShardPath { reason, .. } => assert_eq!(reason, OUTSIDE_ROOT),
        other => panic!("unexpected {other:?}"),
    }
    assert!(resolve_shard_path(&index, "a", &path("/"), &path("/dd/a")).is_ok());
    match resolve_shard_path(&index, "../a", &path("/"), &path("/a")).unwrap_err() {
        LoaderError::UnsafeShardPath { reason, .. } => assert_eq!(reason, PATH_TRAVERSAL),
        other => panic!("unexpected {other:?}"),
    }
    assert_eq!(text_of(&shard_boundary(&path("/d"), None)), "/d");
    assert_eq!(
        text_of(&shard_boundary(&path("/d"), Some(&path("/t")))),
        "/t"
    );
}

#[test]
fn a_plan_sorts_the_names_of_an_index_by_shard() {
    let mut weight_map: NameMap<String> = NameMap::new();
    for (name, raw) in [("z", "b"), ("a", "c"), ("m", "b"), ("k", "a"), ("b", "b")] {
        weight_map.insert(name, raw.to_string());
    }
    let plan = ShardPlan::new(&IndexJson { weight_map });
    assert_eq!(plan.len(), 3);
    let got: Vec<(&str, Vec<&str>)> = (0..plan.len())
        .map(|i| {
            (
                plan.raw(i),
                plan.names(i).iter().map(|n| n.as_str()).collect(),
            )
        })
        .collect();
    assert_eq!(
        got,
        vec![
            ("a", vec!["k"]),
            ("b", vec!["b", "m", "z"]),
            ("c", vec!["a"])
        ]
    );
}
