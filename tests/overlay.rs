use arx_core::codec::CodecId;
use arx_core::error::{ArxError, FormatError};
use arx_core::index::{ChunkRef, InMemIndex, Loc, LogRecord, Policy};
use arx_core::overlay::{open_reader, overlay_inputs, put_record};
use arx_core::pack::{plan_pack, InputDir};
use arx_core::reader::{verify, Opened};
use arx_core::sidecar::{
    frame_at, journal_header, next_record, parse_journal_header, read_frame, read_records, EncMode, Sidecar,
};
use arx_core::writer::{write_image, PackOptions};

/// Appends `plain` to a sidecar held in memory, as the file would grow.
fn append(file: &mut Vec<u8>, key: &Option<[u8; 32]>, salt: &[u8; 32], sc: Sidecar, plain: &[u8]) -> (u64, u64) {
    let f = frame_at(key, salt, sc, file.len() as u64, plain).unwrap();
    file.extend_from_slice(&f.bytes);
    (f.payload_off, f.len)
}

fn records(file: &[u8], start: usize, key: &Option<[u8; 32]>, salt: &[u8; 32]) -> Result<Vec<Vec<u8>>, ArxError> {
    read_records(file, start, key, salt, Sidecar::Journal)
}

#[test]
fn journal_durability_property() {
    for enc in [EncMode::Plain, EncMode::Aead { key: [4u8; 32], salt: [6u8; 32] }] {
        let (key, salt) = match enc {
            EncMode::Plain => (None, [0u8; 32]),
            EncMode::Aead { key, salt } => (Some(key), salt),
        };
        let mut journal = journal_header(&enc);
        assert_eq!(journal.len(), 42);
        let payloads: Vec<Vec<u8>> = (0..5u8).map(|i| vec![i; 10 + 40 * i as usize]).collect();
        for p in &payloads {
            append(&mut journal, &key, &salt, Sidecar::Journal, p);
        }
        let h = parse_journal_header(&journal, &enc).unwrap();
        assert_eq!(h.salt, salt);
        assert_eq!(records(&journal, 42, &key, &salt).unwrap(), payloads);
        let cut = &journal[..journal.len() - 3];
        assert_eq!(records(cut, 42, &key, &salt).unwrap(), payloads[..4].to_vec());
        let mut only_len = journal.clone();
        let last_len = payloads[4].len() + if key.is_some() { 16 } else { 0 };
        only_len.truncate(journal.len() - last_len);
        assert_eq!(records(&only_len, 42, &key, &salt).unwrap(), payloads[..4].to_vec());
    }
}

#[test]
fn next_record_steps_one_record() {
    let mut journal = journal_header(&EncMode::Plain);
    append(&mut journal, &None, &[0u8; 32], Sidecar::Journal, b"one");
    append(&mut journal, &None, &[0u8; 32], Sidecar::Journal, b"two");
    let (p, next) = next_record(&journal, 42, &None, &[0u8; 32], Sidecar::Journal).unwrap().unwrap();
    assert_eq!(p, b"one".to_vec());
    assert_eq!(next, 46);
    let (q, end) = next_record(&journal, next, &None, &[0u8; 32], Sidecar::Journal).unwrap().unwrap();
    assert_eq!(q, b"two".to_vec());
    assert_eq!(end, journal.len());
    assert!(next_record(&journal, end, &None, &[0u8; 32], Sidecar::Journal).unwrap().is_none());
}

#[test]
fn journal_header_rules() {
    let sealed = EncMode::Aead { key: [1u8; 32], salt: [2u8; 32] };
    let hdr = journal_header(&sealed);
    assert_eq!(&hdr[..8], b"ARXLOG\0\0");
    assert_eq!(hdr[8], 1);
    assert_eq!(hdr[9], 1);
    assert!(matches!(parse_journal_header(&hdr, &EncMode::Plain), Err(ArxError::Format(FormatError::KeyRequired))));
    let legacy = &journal_header(&EncMode::Plain)[..9];
    let h = parse_journal_header(legacy, &EncMode::Plain).unwrap();
    assert_eq!(h.flags, 0);
    assert!(matches!(parse_journal_header(b"NOTALOG!xx", &EncMode::Plain), Err(ArxError::Format(FormatError::BadMagic))));
    assert!(matches!(parse_journal_header(&hdr[..20], &sealed), Err(ArxError::Format(FormatError::ShortRead))));
}

#[test]
fn journal_tamper_and_bad_varint() {
    let key = Some([8u8; 32]);
    let salt = [1u8; 32];
    let mut journal = journal_header(&EncMode::Aead { key: [8u8; 32], salt });
    append(&mut journal, &key, &salt, Sidecar::Journal, b"record");
    let n = journal.len();
    journal[n - 1] ^= 0x80;
    assert!(matches!(records(&journal, 42, &key, &salt), Err(ArxError::Format(FormatError::AuthFailed))));
    let mut bad = journal_header(&EncMode::Plain);
    bad.extend_from_slice(&[0xff; 11]);
    assert!(matches!(records(&bad, 42, &None, &[0u8; 32]), Err(ArxError::Format(FormatError::BadVarint))));
}

#[test]
fn delta_frames() {
    let key = Some([3u8; 32]);
    let salt = [5u8; 32];
    let mut delta = Vec::new();
    let (off1, len1) = append(&mut delta, &key, &salt, Sidecar::Delta, b"first frame");
    let (off2, len2) = append(&mut delta, &key, &salt, Sidecar::Delta, b"22");
    assert_eq!(off1, 1);
    assert_eq!(len1, 11 + 16);
    assert_eq!(off2, off1 + len1 + 1);
    assert_eq!(len2, 2 + 16);
    assert_eq!(read_frame(&delta, off2, len2, &key, &salt).unwrap(), b"22".to_vec());
    assert_eq!(read_frame(&delta, off1, len1, &key, &salt).unwrap(), b"first frame".to_vec());
    assert!(matches!(read_frame(&delta, off2, len2 + 1, &key, &salt), Err(ArxError::Format(FormatError::ShortRead))));
    assert!(matches!(read_frame(&delta, off1, len1, &Some([0u8; 32]), &salt), Err(ArxError::Format(FormatError::AuthFailed))));
    let sealed = frame_at(&key, &salt, Sidecar::Journal, 100, b"four").unwrap();
    assert_eq!(sealed.len, 4 + 16);
    assert_eq!(sealed.payload_off, 101);
    assert_eq!(sealed.bytes.len(), 1 + 20);
    let mut plain = Vec::new();
    let (o, l) = append(&mut plain, &None, &[0u8; 32], Sidecar::Delta, b"abc");
    assert_eq!(plain, vec![3, b'a', b'b', b'c']);
    assert_eq!((o, l), (1, 3));
}

fn put(index: &mut InMemIndex, delta: &mut Vec<u8>, path: &str, content: &[u8]) -> LogRecord {
    let (off, len) = append(delta, &None, &[0u8; 32], Sidecar::Delta, content);
    let rec = put_record(path, 0o644, 1000, content, off, len);
    index.apply(&rec);
    rec
}

#[test]
fn overlay_crud_scenario() {
    let mut index = InMemIndex::new();
    let mut delta = Vec::new();
    let mut log = Vec::new();
    log.push(put(&mut index, &mut delta, "x", b"1"));
    log.push(put(&mut index, &mut delta, "y", b"22"));
    let mv = LogRecord::Rename { from: "y".to_string(), to: "z".to_string() };
    index.apply(&mv);
    log.push(mv);
    let rm = LogRecord::Delete { path: "x".to_string() };
    index.apply(&rm);
    log.push(rm);

    let reopened = InMemIndex::replay(&log);
    assert_eq!(reopened.paths(), vec!["z".to_string()]);
    let z = reopened.get(&"z".to_string()).unwrap();
    assert_eq!(z.size, 2);
    assert_eq!(open_reader(&reopened, &delta, &None, &[0u8; 32], &"z".to_string()).unwrap(), b"22".to_vec());
    assert!(matches!(
        open_reader(&reopened, &delta, &None, &[0u8; 32], &"x".to_string()),
        Err(ArxError::Format(FormatError::NotFound))
    ));

    let inputs = overlay_inputs(&reopened, &delta, &None, &[0u8; 32]).unwrap();
    assert_eq!(inputs.len(), 1);
    assert_eq!(inputs[0].path, "z");
    assert_eq!(inputs[0].data, b"22".to_vec());
    let opts = PackOptions { deterministic: true, min_gain_ppm: 0, aead_key: None, key_salt: [0u8; 32] };
    let dirs = vec![InputDir { path: String::new(), mode: 0o040755, mtime: 0 }];
    let plan = plan_pack(&inputs, &dirs, 0, &opts);
    let img = write_image(b"manifest", &plan.chunks, &opts).unwrap();
    assert!(verify(&img, None, [0u8; 32]).is_ok());
    assert_eq!(plan.manifest.files.len(), 1);
    assert_eq!(plan.manifest.files[0].path, "z");
    let f = &plan.manifest.files[0];
    let op = Opened::open(&img, None, [0u8; 32]).unwrap();
    assert_eq!(op.read_file(&img, &f.chunk_refs, f.u_size).unwrap(), b"22".to_vec());
}

#[test]
fn overlay_convergence_property() {
    let mut index = InMemIndex::new();
    let mut delta = Vec::new();
    let mut log = Vec::new();
    for i in 0..6u8 {
        let name = format!("f{}", i % 3);
        log.push(put(&mut index, &mut delta, &name, &vec![i; i as usize + 1]));
    }
    let mv = LogRecord::Rename { from: "f1".to_string(), to: "g".to_string() };
    index.apply(&mv);
    log.push(mv);
    let noop = LogRecord::Rename { from: "missing".to_string(), to: "h".to_string() };
    index.apply(&noop);
    log.push(noop);
    let note = LogRecord::Note { text: "hello".to_string() };
    index.apply(&note);
    log.push(note);
    let pol = LogRecord::SetPolicy(Policy {
        max_entries: Some(10),
        max_uncompressed: None,
        max_delta_bytes: None,
        min_compression_ratio_ppm: None,
        allow_symlinks: false,
    });
    index.apply(&pol);
    log.push(pol);

    let whole = InMemIndex::replay(&log);
    let mut first = InMemIndex::replay(&log[..4]);
    for r in &log[4..] {
        first.apply(r);
    }
    let mut paths = whole.paths();
    paths.sort();
    assert_eq!(paths, vec!["f0".to_string(), "f2".to_string(), "g".to_string()]);
    let mut again = first.paths();
    again.sort();
    assert_eq!(again, paths);
    let mut live = index.paths();
    live.sort();
    assert_eq!(live, paths);
    assert_eq!(whole.get(&"g".to_string()).unwrap().size, 5);
    assert_eq!(whole.get(&"f0".to_string()).unwrap().size, 4);
    assert_eq!(whole.policy.unwrap().max_entries, Some(10));
    assert!(InMemIndex::replay(&log[..8]).policy.is_none());
    let hashes: Vec<[u8; 32]> = whole.by_chunk.iter().map(|c| c.blake3).collect();
    assert_eq!(hashes.len(), 6);
    assert_eq!(hashes[5], *blake3::hash(&[5u8; 6]).as_bytes());
}

#[test]
fn overlay_paths_under_directory() {
    let mut index = InMemIndex::new();
    let mut delta = Vec::new();
    for name in ["docs/a", "docs/sub/b", "docsx/c", "docs", "top"] {
        put(&mut index, &mut delta, name, b"v");
    }
    let mut under = index.paths_under("docs");
    under.sort();
    assert_eq!(under, vec!["docs/a".to_string(), "docs/sub/b".to_string()]);
    assert!(index.paths_under("nothing").is_empty());
}

#[test]
fn overlay_base_chunks_not_wired() {
    let mut index = InMemIndex::new();
    let rec = LogRecord::Put {
        path: "b".to_string(),
        mode: 0,
        mtime: 0,
        size: 1,
        chunks: vec![ChunkRef { loc: Loc::Base, off: 0, len: 1, codec: CodecId::Store, blake3: [0u8; 32] }],
    };
    index.apply(&rec);
    assert!(matches!(
        open_reader(&index, &[], &None, &[0u8; 32], &"b".to_string()),
        Err(ArxError::Format(FormatError::BaseNotWired))
    ));
}

#[test]
fn put_record_hashes_content() {
    let rec = put_record("p", 0o600, 9, b"content", 1, 7);
    match rec {
        LogRecord::Put { path, size, chunks, .. } => {
            assert_eq!(path, "p");
            assert_eq!(size, 7);
            assert_eq!(chunks.len(), 1);
            assert_eq!(chunks[0].blake3, *blake3::hash(b"content").as_bytes());
            assert_eq!(chunks[0].loc, Loc::Delta);
        }
        _ => panic!("expected a put"),
    }
}
