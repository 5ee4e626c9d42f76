use arx_core::chunktab::{read_table_from_slice, write_table, ChunkEntry, ENTRY_SIZE};
use arx_core::chunker::{cut_point, split_lens, MAX_CHUNK, MIN_CHUNK};
use arx_core::codec::{choose_codec, effective_min_gain, get_decoder_u8, should_compress, CodecId};
use arx_core::error::{ArxError, FormatError};
use arx_core::hex::parse_hex_array;
use arx_core::paths::safe_path;
use arx_core::plan::plan_chunk;
use arx_core::superblock::{Superblock, FLAG_ENCRYPTED, HEADER_LEN, VERSION};
use arx_core::tail::{TailSummary, TAIL_LEN};
use arx_core::varint::{get_uvarint, put_uvarint, uvarint_len, VarintRead};

fn sample_superblock() -> Superblock {
    Superblock {
        version: VERSION,
        manifest_len: 0x1234,
        chunk_table_off: 48 + 0x1234,
        chunk_count: 7,
        data_off: 0xdead_beef,
        flags: FLAG_ENCRYPTED,
    }
}

#[test]
fn superblock_round_trip() {
    let sb = sample_superblock();
    let bytes = sb.write_to();
    assert_eq!(bytes.len() as u64, HEADER_LEN);
    assert_eq!(&bytes[..6], b"ARXALP");
    assert_eq!(&bytes[6..8], &3u16.to_le_bytes());
    assert_eq!(&bytes[8..16], &0x1234u64.to_le_bytes());
    let back = Superblock::read_from(&bytes).unwrap();
    assert_eq!(back, sb);
    assert!(back.is_encrypted());
}

#[test]
fn superblock_bad_magic_and_short() {
    let mut bytes = sample_superblock().write_to();
    assert!(matches!(Superblock::read_from(&bytes[..5]), Err(ArxError::Format(FormatError::ShortRead))));
    assert!(matches!(Superblock::read_from(&bytes[..20]), Err(ArxError::Format(FormatError::ShortRead))));
    bytes[0] = b'X';
    assert!(matches!(Superblock::read_from(&bytes), Err(ArxError::Format(FormatError::BadMagic))));
}

#[test]
fn tail_round_trip() {
    let t = TailSummary {
        manifest_blake3: [1u8; 32],
        chunktab_blake3: [2u8; 32],
        data_blake3: [3u8; 32],
        total_u: 1_000_000,
        total_c: 4242,
    };
    let bytes = t.write_to();
    assert_eq!(bytes.len() as u64, TAIL_LEN);
    assert_eq!(&bytes[..8], b"ARXTAIL\0");
    let back = TailSummary::read_from(&bytes).unwrap();
    assert_eq!(back.manifest_blake3, [1u8; 32]);
    assert_eq!(back.chunktab_blake3, [2u8; 32]);
    assert_eq!(back.data_blake3, [3u8; 32]);
    assert_eq!(back.total_u, 1_000_000);
    assert_eq!(back.total_c, 4242);
    let mut bad = bytes.clone();
    bad[3] = 0;
    assert!(matches!(TailSummary::read_from(&bad), Err(ArxError::Format(FormatError::BadMagic))));
    assert!(matches!(TailSummary::read_from(&bytes[..60]), Err(ArxError::Format(FormatError::ShortRead))));
}

#[test]
fn chunk_table_layout_and_round_trip() {
    let entries = vec![
        ChunkEntry { codec: 0, u_size: 5, c_size: 5, data_off: 100 },
        ChunkEntry { codec: 1, u_size: 1 << 20, c_size: 77, data_off: 105 },
    ];
    let bytes = write_table(&entries);
    assert_eq!(bytes.len() as u64, 2 * ENTRY_SIZE);
    assert_eq!(bytes[32], 1);
    assert_eq!(&bytes[33..40], &[0u8; 7]);
    assert_eq!(&bytes[40..48], &(1u64 << 20).to_le_bytes());
    assert_eq!(&bytes[56..64], &105u64.to_le_bytes());
    let back = read_table_from_slice(&bytes, 2).unwrap();
    assert_eq!(back, entries);
}

#[test]
fn chunk_table_size_mismatch() {
    let bytes = write_table(&[ChunkEntry { codec: 0, u_size: 1, c_size: 1, data_off: 0 }]);
    assert!(matches!(read_table_from_slice(&bytes, 2), Err(ArxError::Format(FormatError::TableSizeMismatch))));
    assert!(matches!(read_table_from_slice(&bytes[..31], 1), Err(ArxError::Format(FormatError::TableSizeMismatch))));
}

#[test]
fn uvarint_round_trip() {
    for x in [0u64, 1, 127, 128, 300, 16384, u32::MAX as u64, u64::MAX] {
        let mut out = Vec::new();
        put_uvarint(&mut out, x);
        assert_eq!(out.len(), uvarint_len(x));
        out.push(0xAA);
        match get_uvarint(&out, 0) {
            VarintRead::Value(v, n) => {
                assert_eq!(v, x);
                assert_eq!(n, uvarint_len(x));
            }
            _ => panic!("varint did not read back"),
        }
    }
    let mut out = Vec::new();
    put_uvarint(&mut out, 300);
    assert_eq!(out, vec![0xAC, 0x02]);
    assert_eq!(uvarint_len(u64::MAX), 10);
}

#[test]
fn uvarint_truncated_and_too_long() {
    assert!(matches!(get_uvarint(&[0x80, 0x80], 0), VarintRead::Eof));
    assert!(matches!(get_uvarint(&[], 0), VarintRead::Eof));
    assert!(matches!(get_uvarint(&[0x80; 12], 0), VarintRead::TooLong));
    let over = [0xff, 0xff, 0xff, 0xff, 0xff, 0xff, 0xff, 0xff, 0xff, 0x7f];
    assert!(matches!(get_uvarint(&over, 0), VarintRead::TooLong));
}

#[test]
fn hex_keys() {
    let s = format!("  {}\n", "0f".repeat(32));
    let k: [u8; 32] = parse_hex_array::<32>(&s).unwrap();
    assert_eq!(k, [0x0f; 32]);
    let mixed: [u8; 2] = parse_hex_array::<2>("aBcD").unwrap();
    assert_eq!(mixed, [0xab, 0xcd]);
    assert!(matches!(parse_hex_array::<32>("abc"), Err(ArxError::Format(FormatError::BadHex))));
    assert!(matches!(parse_hex_array::<2>("zz00"), Err(ArxError::Format(FormatError::BadHex))));
    assert!(matches!(parse_hex_array::<32>("00"), Err(ArxError::Format(FormatError::BadHex))));
    let ideographic: [u8; 1] = parse_hex_array::<1>("\u{3000}0a\u{2003}").unwrap();
    assert_eq!(ideographic, [0x0a]);
    let nbsp: [u8; 2] = parse_hex_array::<2>("\u{a0} 0aFF ").unwrap();
    assert_eq!(nbsp, [0x0a, 0xff]);
    assert!(matches!(parse_hex_array::<1>("0\u{3000}a"), Err(ArxError::Format(FormatError::BadHex))));
}

#[test]
fn path_safety_rules() {
    assert!(safe_path("hello.txt"));
    assert!(safe_path("dir/sub/file.bin"));
    assert!(safe_path("a/..b/c"));
    assert!(safe_path(""));
    assert!(!safe_path("../evil"));
    assert!(!safe_path("a/../../etc/passwd"));
    assert!(!safe_path("..\\evil"));
    assert!(!safe_path(".."));
    assert!(!safe_path("a/.."));
    assert!(!safe_path("/etc/passwd"));
}

#[test]
fn codec_policy_values() {
    assert_eq!(effective_min_gain(0), 50_000);
    assert_eq!(effective_min_gain(10), 10);
    assert!(should_compress(100, 95, 50_000));
    assert!(!should_compress(100, 96, 50_000));
    assert!(!should_compress(5, 14, 50_000));
    assert!(should_compress(1 << 20, 100, 50_000));
    assert_eq!(choose_codec(5, Some(14), 0), CodecId::Store);
    assert_eq!(choose_codec(1000, Some(10), 0), CodecId::Zstd);
    assert_eq!(choose_codec(1000, None, 0), CodecId::Store);
    assert_eq!(choose_codec(100, Some(95), 0), CodecId::Zstd);
    assert_eq!(choose_codec(100, Some(95), 60_000), CodecId::Store);
}

#[test]
fn codec_registry() {
    assert_eq!(get_decoder_u8(0).unwrap(), CodecId::Store);
    assert_eq!(get_decoder_u8(1).unwrap(), CodecId::Zstd);
    assert!(matches!(get_decoder_u8(2), Err(ArxError::Format(FormatError::UnknownCodec))));
    let data = b"some bytes some bytes some bytes".to_vec();
    let frame = zstd::stream::encode_all(&data[..], 3).unwrap();
    assert_eq!(CodecId::Zstd.decode(&frame).unwrap(), data);
    assert_eq!(CodecId::Store.decode(&data).unwrap(), data);
    assert!(CodecId::Zstd.decode(b"not a zstd frame").is_none());
}

fn pseudo_random(n: usize, seed: u64) -> Vec<u8> {
    let mut x = seed;
    let mut out = Vec::with_capacity(n);
    for _ in 0..n {
        x = x.wrapping_mul(6364136223846793005).wrapping_add(1442695040888963407);
        out.push((x >> 33) as u8);
    }
    out
}

#[test]
fn chunker_bounds_and_cover() {
    let data = pseudo_random(5 << 20, 7);
    let lens = split_lens(&data);
    assert_eq!(lens.iter().sum::<usize>(), data.len());
    for (i, l) in lens.iter().enumerate() {
        assert!(*l as u64 <= MAX_CHUNK);
        if i + 1 < lens.len() {
            assert!(*l as u64 >= MIN_CHUNK);
        }
    }
    assert_eq!(split_lens(&data), lens);
    assert_eq!(cut_point(&data[..100], 0), 100);
    assert!(split_lens(&[]).is_empty());
}

#[test]
fn chunker_boundaries_are_local() {
    let data = pseudo_random(3 << 20, 11);
    let first = cut_point(&data, 0);
    let mut longer = data.clone();
    longer.extend_from_slice(&pseudo_random(1 << 20, 12));
    assert_eq!(cut_point(&longer, 0), first);
    let mut prefixed = pseudo_random(777, 13);
    prefixed.extend_from_slice(&data);
    assert_eq!(cut_point(&prefixed, 777), first);
}

#[test]
fn planned_chunks_carry_digest_and_frame() {
    let zeros = vec![0u8; 200_000];
    let c = plan_chunk(&zeros, 4096, 0);
    assert_eq!(c.file_off, 4096);
    assert_eq!(c.u_size, 200_000);
    assert_eq!(c.hash, *blake3::hash(&zeros).as_bytes());
    assert_eq!(c.codec, CodecId::Zstd);
    assert!(c.payload.len() < zeros.len());
    assert_eq!(zstd::stream::decode_all(&c.payload[..]).unwrap(), zeros);
    let tiny = plan_chunk(b"hello", 0, 0);
    assert_eq!(tiny.codec, CodecId::Store);
    assert_eq!(tiny.payload, b"hello".to_vec());
    assert_eq!(tiny.hash, *blake3::hash(b"hello").as_bytes());
}
