use arx_core::chunktab::ChunkEntry;
use arx_core::codec::CodecId;
use arx_core::error::{ArxError, FormatError};
use arx_core::manifest::{ChunkRef, DirEntry, FileEntry, Manifest, Meta};
use arx_core::pack::{plan_pack, InputDir, InputFile, PackPlan};
use arx_core::paths::check_paths;
use arx_core::reader::{verify, Opened};
use arx_core::superblock::{Superblock, HEADER_LEN};
use arx_core::tail::TAIL_LEN;
use arx_core::writer::{derive_nonce, seal_region, write_image, PackOptions, Region};

use ciborium::value::Value;

fn opts(deterministic: bool, key: Option<[u8; 32]>) -> PackOptions {
    PackOptions { deterministic, min_gain_ppm: 0, aead_key: key, key_salt: [0u8; 32] }
}

fn file(path: &str, data: Vec<u8>) -> InputFile {
    InputFile { path: path.to_string(), mode: 0o100644, mtime: 1_700_000_000, data }
}

fn root_dir() -> InputDir {
    InputDir { path: String::new(), mode: 0o040755, mtime: 1_700_000_000 }
}

/// The manifest as CBOR, built value by value.
fn manifest_bytes(m: &Manifest) -> Vec<u8> {
    let files: Vec<Value> = m
        .files
        .iter()
        .map(|f| {
            let refs: Vec<Value> = f
                .chunk_refs
                .iter()
                .map(|r| {
                    Value::Map(vec![
                        (Value::Text("id".into()), Value::Integer(r.id.into())),
                        (Value::Text("u_size".into()), Value::Integer(r.u_size.into())),
                    ])
                })
                .collect();
            Value::Map(vec![
                (Value::Text("path".into()), Value::Text(f.path.clone())),
                (Value::Text("mode".into()), Value::Integer(f.mode.into())),
                (Value::Text("mtime".into()), Value::Integer(f.mtime.into())),
                (Value::Text("u_size".into()), Value::Integer(f.u_size.into())),
                (Value::Text("chunk_refs".into()), Value::Array(refs)),
            ])
        })
        .collect();
    let dirs: Vec<Value> = m
        .dirs
        .iter()
        .map(|d| {
            Value::Map(vec![
                (Value::Text("path".into()), Value::Text(d.path.clone())),
                (Value::Text("mode".into()), Value::Integer(d.mode.into())),
                (Value::Text("mtime".into()), Value::Integer(d.mtime.into())),
            ])
        })
        .collect();
    let v = Value::Map(vec![
        (Value::Text("files".into()), Value::Array(files)),
        (Value::Text("dirs".into()), Value::Array(dirs)),
        (
            Value::Text("meta".into()),
            Value::Map(vec![
                (Value::Text("created".into()), Value::Integer(m.meta.created.into())),
                (Value::Text("tool".into()), Value::Text(m.meta.tool.clone())),
            ]),
        ),
    ]);
    let mut out = Vec::new();
    ciborium::ser::into_writer(&v, &mut out).unwrap();
    out
}

fn pack(files: Vec<InputFile>, o: &PackOptions) -> (PackPlan, Vec<u8>) {
    let dirs = vec![root_dir()];
    let plan = plan_pack(&files, &dirs, 1_700_000_123, o);
    let mb = manifest_bytes(&plan.manifest);
    let img = write_image(&mb, &plan.chunks, o).unwrap();
    (plan, img)
}

fn pseudo_random(n: usize, seed: u64) -> Vec<u8> {
    let mut x = seed;
    let mut out = Vec::with_capacity(n);
    for _ in 0..n {
        x = x.wrapping_mul(6364136223846793005).wrapping_add(1442695040888963407);
        out.push((x >> 33) as u8);
    }
    out
}

fn read_back(img: &[u8], key: Option<[u8; 32]>, plan: &PackPlan) -> Vec<Vec<u8>> {
    let o = Opened::open(img, key, [0u8; 32]).unwrap();
    plan.manifest
        .files
        .iter()
        .map(|f| o.read_file(img, &f.chunk_refs, f.u_size).unwrap())
        .collect()
}

#[test]
fn empty_tree_scenario() {
    let o = opts(true, None);
    let (plan, img) = pack(Vec::new(), &o);
    let sb = Superblock::read_from(&img).unwrap();
    assert_eq!(sb.chunk_count, 0);
    assert!(sb.manifest_len > 0);
    assert_eq!(sb.chunk_table_off, HEADER_LEN + sb.manifest_len);
    assert_eq!(sb.data_off, sb.chunk_table_off);
    assert_eq!(img.len() as u64, sb.data_off + TAIL_LEN);
    assert_eq!(&img[img.len() - 120..img.len() - 112], b"ARXTAIL\0");
    assert!(verify(&img, None, [0u8; 32]).is_ok());
    assert_eq!(plan.manifest.meta.created, 0);
    assert_eq!(plan.manifest.dirs[0].mtime, 0);
}

#[test]
fn single_tiny_file_scenario() {
    let o = opts(true, None);
    let (plan, img) = pack(vec![file("hello.txt", b"hello".to_vec())], &o);
    let op = Opened::open(&img, None, [0u8; 32]).unwrap();
    assert_eq!(op.table.len(), 1);
    let e = op.table[0];
    assert_eq!(e.u_size, 5);
    assert_eq!(e.codec, 0);
    assert_eq!(e.c_size, 5);
    assert_eq!(e.data_off, op.sb.chunk_table_off + 32);
    let f = &plan.manifest.files[0];
    assert_eq!(f.path, "hello.txt");
    assert_eq!(f.mtime, 0);
    let content = op.read_file(&img, &f.chunk_refs, f.u_size).unwrap();
    assert_eq!(content, b"hello".to_vec());
    assert_eq!(*blake3::hash(&content).as_bytes(), *blake3::hash(b"hello").as_bytes());
    assert!(verify(&img, None, [0u8; 32]).is_ok());
}

#[test]
fn two_identical_files_scenario() {
    let o = opts(true, None);
    let zeros = vec![0u8; 1 << 20];
    let (plan, img) = pack(vec![file("a.bin", zeros.clone()), file("b.bin", zeros)], &o);
    let sb = Superblock::read_from(&img).unwrap();
    assert!(sb.chunk_count < 8);
    let a: Vec<u64> = plan.manifest.files[0].chunk_refs.iter().map(|r| r.id).collect();
    let b: Vec<u64> = plan.manifest.files[1].chunk_refs.iter().map(|r| r.id).collect();
    for id in &b {
        assert!(a.contains(id));
    }
    assert_eq!(a, b);
    assert!(verify(&img, None, [0u8; 32]).is_ok());
}

#[test]
fn encrypted_round_trip_scenario() {
    let key = [0u8; 32];
    let o = opts(true, Some(key));
    let data = pseudo_random(4 << 20, 42);
    let (plan, img) = pack(vec![file("rand.bin", data.clone())], &o);
    assert!(verify(&img, Some(key), [0u8; 32]).is_ok());
    assert_eq!(read_back(&img, Some(key), &plan), vec![data]);
    let sb = Superblock::read_from(&img).unwrap();
    let mut tampered = img.clone();
    tampered[(sb.data_off + 7) as usize] ^= 0x01;
    assert!(matches!(verify(&tampered, Some(key), [0u8; 32]), Err(ArxError::Format(FormatError::AuthFailed))));
}

#[test]
fn unsafe_path_refusal_scenario() {
    let m = Manifest {
        files: vec![FileEntry {
            path: "../evil".to_string(),
            mode: 0o644,
            mtime: 0,
            u_size: 0,
            chunk_refs: Vec::new(),
        }],
        dirs: Vec::new(),
        meta: Meta { created: 0, tool: "t".to_string() },
    };
    assert!(matches!(check_paths(&m), Err(ArxError::Format(FormatError::UnsafePath))));
    let m2 = Manifest {
        files: Vec::new(),
        dirs: vec![DirEntry { path: "/abs".to_string(), mode: 0, mtime: 0 }],
        meta: Meta { created: 0, tool: "t".to_string() },
    };
    assert!(matches!(check_paths(&m2), Err(ArxError::Format(FormatError::UnsafePath))));
}

#[test]
fn round_trip_property() {
    let files = vec![
        file("a.txt", b"alpha".to_vec()),
        file("dir/b.bin", pseudo_random(3 << 20, 5)),
        file("dir/c.zero", vec![0u8; 2 << 20]),
        file("empty", Vec::new()),
    ];
    let expected: Vec<Vec<u8>> = files.iter().map(|f| f.data.clone()).collect();
    for key in [None, Some([9u8; 32])] {
        let o = opts(false, key);
        let (plan, img) = pack(files.clone(), &o);
        assert_eq!(read_back(&img, key, &plan), expected);
        for (f, inp) in plan.manifest.files.iter().zip(files.iter()) {
            assert_eq!(f.mode, inp.mode);
            assert_eq!(f.mtime, inp.mtime);
            assert_eq!(f.chunk_refs.iter().map(|r| r.u_size).sum::<u64>(), f.u_size);
        }
    }
}

#[test]
fn determinism_property() {
    let files = vec![file("x", pseudo_random(1 << 20, 1)), file("y", vec![7u8; 300_000])];
    for key in [None, Some([3u8; 32])] {
        let o = opts(true, key);
        let (_, a) = pack(files.clone(), &o);
        let (_, b) = pack(files.clone(), &o);
        assert_eq!(a, b);
    }
}

#[test]
fn dedup_property() {
    let shared = pseudo_random(1 << 20, 77);
    let mut second = pseudo_random(300, 78);
    second.extend_from_slice(&shared);
    let o = opts(true, None);
    let (plan, _) = pack(vec![file("one", shared.clone()), file("two", shared)], &o);
    let hashes = &plan.chunks.hashes;
    for i in 0..hashes.len() {
        for j in i + 1..hashes.len() {
            assert_ne!(hashes[i], hashes[j]);
        }
    }
    assert_eq!(plan.manifest.files[0].chunk_refs, plan.manifest.files[1].chunk_refs);
    assert_eq!(plan.chunks.entries.len(), plan.manifest.files[0].chunk_refs.len());
    let (plan2, img2) = pack(vec![file("p", second.clone())], &o);
    assert_eq!(read_back(&img2, None, &plan2), vec![second]);
}

#[test]
fn verify_soundness_property() {
    let o = opts(true, None);
    let (_, img) = pack(vec![file("f", pseudo_random(200_000, 3)), file("g", vec![1u8; 100_000])], &o);
    assert!(verify(&img, None, [0u8; 32]).is_ok());
    let sb = Superblock::read_from(&img).unwrap();
    let positions = [
        HEADER_LEN as usize + 3,
        sb.chunk_table_off as usize + 2,
        sb.data_off as usize + 11,
        img.len() - 200,
    ];
    for p in positions {
        let mut t = img.clone();
        t[p] ^= 0x40;
        assert!(verify(&t, None, [0u8; 32]).is_err(), "flip at {p} went unnoticed");
    }
    let key = [5u8; 32];
    let ok = opts(true, Some(key));
    let (_, sealed) = pack(vec![file("f", pseudo_random(100_000, 4))], &ok);
    let ssb = Superblock::read_from(&sealed).unwrap();
    for p in [HEADER_LEN as usize + 1, ssb.chunk_table_off as usize + 1, ssb.data_off as usize + 1] {
        let mut t = sealed.clone();
        t[p] ^= 0x01;
        assert!(matches!(verify(&t, Some(key), [0u8; 32]), Err(ArxError::Format(FormatError::AuthFailed))));
    }
}

#[test]
fn codec_policy_property() {
    let o = opts(true, None);
    let (plan, _) = pack(vec![file("a_zero", vec![0u8; 500_000]), file("b_rand", pseudo_random(500_000, 9))], &o);
    let entries: &Vec<ChunkEntry> = &plan.chunks.entries;
    assert!(entries.len() >= 2);
    for (e, p) in entries.iter().zip(plan.chunks.payloads.iter()) {
        let c = p.len() as u64;
        if e.codec == 1 {
            assert!((e.u_size - c) * 1_000_000 >= e.u_size * 50_000);
        } else {
            assert_eq!(e.codec, 0);
            assert_eq!(c, e.u_size);
        }
    }
    assert_eq!(entries[0].codec, 1);
    assert_eq!(entries[entries.len() - 1].codec, 0);
}

#[test]
fn path_safety_property() {
    let o = opts(true, None);
    let (plan, _) = pack(vec![file("a/b/c.txt", b"1".to_vec()), file("top", b"2".to_vec())], &o);
    assert!(check_paths(&plan.manifest).is_ok());
}

#[test]
fn nonce_derivation_matches_blake3() {
    let salt = [7u8; 32];
    let n = derive_nonce(&salt, Region::ChunkData, 5);
    let mut input = salt.to_vec();
    input.push(3);
    input.extend_from_slice(&5u64.to_le_bytes());
    let h = blake3::hash(&input);
    assert_eq!(&n[..], &h.as_bytes()[..24]);
}

#[test]
fn sealed_region_is_tagged_ciphertext() {
    let key = Some([1u8; 32]);
    let sealed = seal_region(&key, &[0u8; 32], Region::Manifest, 0, b"manifest bytes");
    assert_eq!(sealed.len(), 14 + 16);
    assert_ne!(&sealed[..14], b"manifest bytes");
    let opened = arx_core::reader::open_region_bytes(&key, &[0u8; 32], Region::Manifest, 0, &sealed).unwrap();
    assert_eq!(opened, b"manifest bytes".to_vec());
    assert!(arx_core::reader::open_region_bytes(&key, &[0u8; 32], Region::ChunkTable, 0, &sealed).is_none());
    assert!(arx_core::reader::open_region_bytes(&Some([2u8; 32]), &[0u8; 32], Region::Manifest, 0, &sealed).is_none());
}

#[test]
fn open_errors() {
    let o = opts(true, None);
    let (plan, img) = pack(vec![file("f", b"abc".to_vec())], &o);
    let mut bad_layout = img.clone();
    bad_layout[16..24].copy_from_slice(&1u64.to_le_bytes());
    assert!(matches!(Opened::open(&bad_layout, None, [0u8; 32]), Err(ArxError::Format(FormatError::BadLayout))));
    let mut wrong_count = img.clone();
    wrong_count[24..32].copy_from_slice(&2u64.to_le_bytes());
    assert!(matches!(Opened::open(&wrong_count, None, [0u8; 32]), Err(ArxError::Format(FormatError::TableSizeMismatch))));
    let sb = Superblock::read_from(&img).unwrap();
    let mut oob = img.clone();
    let slot = sb.chunk_table_off as usize + 16;
    oob[slot..slot + 8].copy_from_slice(&1_000_000u64.to_le_bytes());
    assert!(matches!(Opened::open(&oob, None, [0u8; 32]), Err(ArxError::Format(FormatError::ChunkOutOfBounds))));
    let ks = opts(true, Some([1u8; 32]));
    let (_, sealed) = pack(vec![file("f", b"abc".to_vec())], &ks);
    assert!(matches!(Opened::open(&sealed, None, [0u8; 32]), Err(ArxError::Format(FormatError::KeyRequired))));
    assert!(matches!(Opened::open(&sealed, Some([2u8; 32]), [0u8; 32]), Err(ArxError::Format(FormatError::AuthFailed))));
    let op = Opened::open(&img, None, [0u8; 32]).unwrap();
    let f = &plan.manifest.files[0];
    assert!(matches!(op.read_file(&img, &f.chunk_refs, 4), Err(ArxError::Format(FormatError::SizeMismatch))));
    let bogus = vec![ChunkRef { id: 9, u_size: 1 }];
    assert!(matches!(op.read_file(&img, &bogus, 1), Err(ArxError::Format(FormatError::UnknownChunk))));
    assert!(matches!(op.compressed_size(&bogus), Err(ArxError::Format(FormatError::UnknownChunk))));
    assert_eq!(op.compressed_size(&f.chunk_refs).unwrap(), 3);
}

#[test]
fn chunk_decode_errors() {
    let o = opts(true, None);
    let (plan, img) = pack(vec![file("f", b"plain text".to_vec())], &o);
    let sb = Superblock::read_from(&img).unwrap();
    let refs = &plan.manifest.files[0].chunk_refs;
    let mut as_zstd = img.clone();
    as_zstd[sb.chunk_table_off as usize] = CodecId::Zstd.tag();
    let op = Opened::open(&as_zstd, None, [0u8; 32]).unwrap();
    assert!(matches!(op.read_file(&as_zstd, refs, 10), Err(ArxError::Format(FormatError::CorruptChunk))));
    let mut unknown = img.clone();
    unknown[sb.chunk_table_off as usize] = 9;
    let op = Opened::open(&unknown, None, [0u8; 32]).unwrap();
    assert!(matches!(op.read_chunk(&unknown, 0), Err(ArxError::Format(FormatError::UnknownCodec))));
}

#[test]
fn verify_errors() {
    let o = opts(true, None);
    let (_, img) = pack(vec![file("f", b"xyz".to_vec())], &o);
    let no_tail = &img[..img.len() - 120];
    assert!(matches!(verify(no_tail, None, [0u8; 32]), Err(ArxError::Format(FormatError::NoTail))));
    let mut wrong_total = img.clone();
    let n = wrong_total.len();
    wrong_total[n - 16] ^= 1;
    assert!(matches!(verify(&wrong_total, None, [0u8; 32]), Err(ArxError::Format(FormatError::VerifyMismatch))));
    assert!(matches!(verify(&img[..10], None, [0u8; 32]), Err(ArxError::Format(FormatError::ShortRead))));
}

#[test]
fn inputs_must_be_sorted_by_path() {
    let dirs = vec![root_dir()];
    assert!(arx_core::pack::sorted_by_path(&vec![file("a", vec![]), file("b/c", vec![])], &dirs));
    assert!(!arx_core::pack::sorted_by_path(&vec![file("b", vec![]), file("a", vec![])], &dirs));
    assert!(!arx_core::pack::sorted_by_path(&vec![file("a", vec![]), file("a", vec![])], &dirs));
    let two_dirs = vec![root_dir(), InputDir { path: "sub".to_string(), mode: 0, mtime: 0 }];
    assert!(arx_core::pack::sorted_by_path(&vec![], &two_dirs));
    assert!(arx_core::pack::bytes_before(b"ab", b"abc"));
    assert!(!arx_core::pack::bytes_before(b"abc", b"ab"));
    assert!(arx_core::pack::bytes_before(b"a-b", b"a/b"));
}

#[test]
fn byte_ranges() {
    let c = b"0123456789".to_vec();
    assert_eq!(arx_core::reader::byte_range(&c, 2, Some(3)), b"234".to_vec());
    assert_eq!(arx_core::reader::byte_range(&c, 8, Some(10)), b"89".to_vec());
    assert_eq!(arx_core::reader::byte_range(&c, 12, Some(1)), Vec::<u8>::new());
    assert_eq!(arx_core::reader::byte_range(&c, 4, None), b"456789".to_vec());
}
