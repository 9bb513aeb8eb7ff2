use blowfish::cipher::generic_array::GenericArray;
use blowfish::cipher::{BlockDecrypt, BlockEncrypt, KeyInit};
use blowfish::Blowfish;
use byteorder::BigEndian;
use flate2::write::ZlibEncoder;
use flate2::Compression;
use replays_parser::encryption::{decrypt_replay, BLOCK_SIZE, REPLAY_KEY};
use replays_parser::error::{CryptoError, FormatError, ParseError};
use replays_parser::inflate::inflate;
use replays_parser::parser::Parser;
use replays_parser::types::{BattleConfig, ReplayHeader, REPLAY_MAGIC};
use serde_json::Value;
use std::io::Write;

const CONFIG_JSON: &str = "{\"playerName\":\"tester\",\"playerVehicle\":\"ussr-T-34\",\
\"clientVersionFromXml\":\"v.1.25.1.0 #1234\",\"clientVersionFromExe\":\"1.25.1.0\",\
\"dateTime\":\"01.02.2024 10:11:12\",\"mapName\":\"02_malinovka\",\"gameplayID\":\"ctf\",\
\"extra\":[1,2,3]}";

fn text_field(value: &Value, key: &str) -> Option<String> {
    Some(value.get(key)?.as_str()?.to_string())
}

fn decode_config(text: &[u8]) -> Option<BattleConfig> {
    let value: Value = serde_json::from_slice(text).ok()?;
    Some(BattleConfig {
        player_name: text_field(&value, "playerName")?,
        player_vehicle: text_field(&value, "playerVehicle")?,
        client_version_xml: text_field(&value, "clientVersionFromXml")?,
        client_version_from_exe: text_field(&value, "clientVersionFromExe")?,
        date_time: text_field(&value, "dateTime")?,
        map_name: text_field(&value, "mapName")?,
        gameplay_id: text_field(&value, "gameplayID")?,
    })
}

fn expected_config() -> BattleConfig {
    BattleConfig {
        player_name: "tester".to_string(),
        player_vehicle: "ussr-T-34".to_string(),
        client_version_xml: "v.1.25.1.0 #1234".to_string(),
        client_version_from_exe: "1.25.1.0".to_string(),
        date_time: "01.02.2024 10:11:12".to_string(),
        map_name: "02_malinovka".to_string(),
        gameplay_id: "ctf".to_string(),
    }
}

fn cipher() -> Blowfish<BigEndian> {
    Blowfish::<BigEndian>::new_from_slice(&REPLAY_KEY).unwrap()
}

/// The inverse of the chain: block i of the result decrypts to
/// plain[i] XOR plain[i-1].
fn encrypt_chain(plain: &[u8]) -> Vec<u8> {
    assert_eq!(plain.len() % 8, 0);
    let cipher = cipher();
    let mut out = Vec::new();
    let mut previous = [0u8; 8];
    for chunk in plain.chunks(8) {
        let mut block = [0u8; 8];
        for j in 0..8 {
            block[j] = chunk[j] ^ previous[j];
        }
        let mut buf = GenericArray::clone_from_slice(&block);
        cipher.encrypt_block(&mut buf);
        out.extend_from_slice(buf.as_slice());
        previous.copy_from_slice(chunk);
    }
    out
}

fn deflate(data: &[u8]) -> Vec<u8> {
    let mut encoder = ZlibEncoder::new(Vec::new(), Compression::default());
    encoder.write_all(data).unwrap();
    encoder.finish().unwrap()
}

fn block(text: &[u8]) -> Vec<u8> {
    let mut out = (text.len() as u32).to_le_bytes().to_vec();
    out.extend_from_slice(text);
    out
}

fn segment(packets: &[u8]) -> Vec<u8> {
    let stream = deflate(packets);
    let mut padded = stream.clone();
    while padded.len() % 8 != 0 {
        padded.push(0xA5);
    }
    let mut out = (packets.len() as u32).to_le_bytes().to_vec();
    out.extend_from_slice(&(stream.len() as u32).to_le_bytes());
    out.extend_from_slice(&encrypt_chain(&padded));
    out
}

fn frame(packet_type: u32, time: f32, payload: &[u8]) -> Vec<u8> {
    let mut out = (payload.len() as u32).to_le_bytes().to_vec();
    out.extend_from_slice(&packet_type.to_le_bytes());
    out.extend_from_slice(&time.to_le_bytes());
    out.extend_from_slice(payload);
    out
}

fn sample_packets() -> Vec<u8> {
    let mut out = frame(0x14, 0.0, &[1, 2, 3, 4, 5]);
    out.extend_from_slice(&frame(0x08, 1.5, &[9, 0, 0, 0, 7, 0, 0, 0, 0xFF]));
    out.extend_from_slice(&frame(0x16, 2.25, &[]));
    out
}

fn file(block_count: u32, blocks: &[Vec<u8>], tail: &[u8]) -> Vec<u8> {
    let mut out = REPLAY_MAGIC.to_le_bytes().to_vec();
    out.extend_from_slice(&block_count.to_le_bytes());
    for b in blocks {
        out.extend_from_slice(b);
    }
    out.extend_from_slice(tail);
    out
}

const RESULTS_JSON: &str = "{\"arenaUniqueID\":77,\"winner\":[1,2],\"note\":\"ok\"}";

fn segment_with(hint: u32, stream: &[u8]) -> Vec<u8> {
    let mut padded = stream.to_vec();
    while padded.len() % 8 != 0 {
        padded.push(0x5A);
    }
    let mut out = hint.to_le_bytes().to_vec();
    out.extend_from_slice(&(stream.len() as u32).to_le_bytes());
    out.extend_from_slice(&encrypt_chain(&padded));
    out
}

fn whole_file() -> Vec<u8> {
    file(
        2,
        &[block(CONFIG_JSON.as_bytes()), block(RESULTS_JSON.as_bytes())],
        &segment(&sample_packets()),
    )
}

fn format_error(e: FormatError) -> ParseError {
    ParseError::Format(e)
}

#[test]
fn round_trip_with_one_block() {
    let packets = sample_packets();
    let bytes = file(1, &[block(CONFIG_JSON.as_bytes())], &segment(&packets));
    let replay = Parser::new(bytes).parse(decode_config).unwrap();
    assert_eq!(replay.header.magic, 0x11343212);
    assert_eq!(replay.header.block_count, 1);
    assert_eq!(replay.battle_config, expected_config());
    assert_eq!(replay.battle_results, None);
    assert_eq!(replay.packets_buffer, packets);
}

#[test]
fn round_trip_with_battle_results() {
    let packets = sample_packets();
    let replay = Parser::new(whole_file()).parse(decode_config).unwrap();
    assert_eq!(replay.header, ReplayHeader { magic: REPLAY_MAGIC, block_count: 2 });
    assert_eq!(replay.battle_config, expected_config());
    let expected: Value = serde_json::from_str(RESULTS_JSON).unwrap();
    assert_eq!(replay.battle_results, Some(expected.clone()));
    assert_eq!(expected.get("arenaUniqueID").and_then(Value::as_u64), Some(77));
    assert_eq!(replay.packets_buffer, packets);
}

#[test]
fn round_trip_of_a_long_stream() {
    let mut packets = Vec::new();
    for i in 0..2000u32 {
        let payload: Vec<u8> = (0..(i % 37)).map(|b| (b * 7 + i) as u8).collect();
        packets.extend_from_slice(&frame(i % 50, i as f32 * 0.1, &payload));
    }
    let bytes = file(1, &[block(CONFIG_JSON.as_bytes())], &segment(&packets));
    let replay = Parser::new(bytes).parse(decode_config).unwrap();
    assert_eq!(replay.packets_buffer, packets);
}

#[test]
fn bytes_after_the_segment_are_ignored() {
    let mut bytes = whole_file();
    bytes.extend_from_slice(b"trailing bytes that nothing reads");
    let replay = Parser::new(bytes).parse(decode_config).unwrap();
    assert_eq!(replay.packets_buffer, sample_packets());
}

#[test]
fn block_count_is_taken_as_it_stands() {
    let packets = sample_packets();
    let bytes = file(0, &[block(CONFIG_JSON.as_bytes())], &segment(&packets));
    let replay = Parser::new(bytes).parse(decode_config).unwrap();
    assert_eq!(replay.header.block_count, 0);
    assert_eq!(replay.battle_results, None);
    assert_eq!(replay.packets_buffer, packets);

    let bytes = file(
        0xFFFF_FFFF,
        &[block(CONFIG_JSON.as_bytes()), block(RESULTS_JSON.as_bytes())],
        &segment(&packets),
    );
    let replay = Parser::new(bytes).parse(decode_config).unwrap();
    assert_eq!(replay.header.block_count, 0xFFFF_FFFF);
    assert!(replay.battle_results.is_some());
}

#[test]
fn bad_magic_is_rejected() {
    for i in 0..4 {
        let mut bytes = whole_file();
        bytes[i] ^= 0x40;
        let r = Parser::new(bytes).parse(decode_config);
        assert_eq!(r, Err(format_error(FormatError::BadMagic)));
    }
    let r = Parser::new(vec![0x12, 0x32, 0x34, 0x10]).parse(decode_config);
    assert_eq!(r, Err(format_error(FormatError::BadMagic)));
}

#[test]
fn bad_magic_comes_before_any_other_fault() {
    let mut bytes = file(1, &[block(b"")], &[]);
    bytes[3] = 0;
    let r = Parser::new(bytes).parse(decode_config);
    assert_eq!(r, Err(format_error(FormatError::BadMagic)));
}

#[test]
fn magic_is_little_endian() {
    let mut parser = Parser::new(vec![0x12, 0x32, 0x34, 0x11, 9, 0, 0, 0]);
    assert_eq!(parser.read_magic(), Ok(0x11343212));
    assert_eq!(parser.read_block_count(), Ok(9));
    assert_eq!(parser.read_block_count(), Err(FormatError::Truncated));
    let mut parser = Parser::new(vec![0x11, 0x34, 0x32, 0x12]);
    assert_eq!(parser.read_magic(), Err(FormatError::BadMagic));
}

#[test]
fn a_file_shorter_than_the_magic_is_truncated() {
    for n in 0..4 {
        let bytes = whole_file()[..n].to_vec();
        let r = Parser::new(bytes).parse(decode_config);
        assert_eq!(r, Err(format_error(FormatError::Truncated)));
    }
}

#[test]
fn every_cut_inside_the_envelope_is_rejected() {
    let whole = whole_file();
    assert!(Parser::new(whole.clone()).parse(decode_config).is_ok());
    for cut in 0..whole.len() {
        let r = Parser::new(whole[..cut].to_vec()).parse(decode_config);
        assert_eq!(r, Err(format_error(FormatError::Truncated)), "cut at {}", cut);
    }
}

#[test]
fn every_cut_is_rejected_without_battle_results() {
    let whole = file(1, &[block(CONFIG_JSON.as_bytes())], &segment(&sample_packets()));
    for cut in 0..whole.len() {
        let r = Parser::new(whole[..cut].to_vec()).parse(decode_config);
        assert_eq!(r, Err(format_error(FormatError::Truncated)), "cut at {}", cut);
    }
}

#[test]
fn empty_first_block_is_bad_metadata() {
    let bytes = file(1, &[block(b"")], &segment(&sample_packets()));
    let r = Parser::new(bytes).parse(decode_config);
    assert_eq!(r, Err(format_error(FormatError::BadMetadata)));
}

#[test]
fn first_block_that_is_no_configuration_is_bad_metadata() {
    for text in ["{\"playerName\":", "[1,2,3]", "{\"playerName\":\"only this\"}", "\u{0}"] {
        let bytes = file(1, &[block(text.as_bytes())], &segment(&sample_packets()));
        let r = Parser::new(bytes).parse(decode_config);
        assert_eq!(r, Err(format_error(FormatError::BadMetadata)));
    }
}

#[test]
fn bad_metadata_comes_before_a_truncated_segment() {
    let bytes = file(1, &[block(b"not json")], &[1, 2, 3]);
    let r = Parser::new(bytes).parse(decode_config);
    assert_eq!(r, Err(format_error(FormatError::BadMetadata)));
}

#[test]
fn the_decoder_sees_exactly_the_first_block() {
    let bytes = whole_file();
    let replay = Parser::new(bytes)
        .parse(|text: &[u8]| {
            assert_eq!(text, CONFIG_JSON.as_bytes());
            decode_config(text)
        })
        .unwrap();
    assert_eq!(replay.battle_config.map_name, "02_malinovka");
}

#[test]
fn corrupted_second_block_yields_no_results() {
    let packets = sample_packets();
    let bytes = file(
        2,
        &[block(CONFIG_JSON.as_bytes()), block(b"{\"arenaUniqueID\": 77,")],
        &segment(&packets),
    );
    let replay = Parser::new(bytes).parse(decode_config).unwrap();
    assert_eq!(replay.battle_results, None);
    assert_eq!(replay.battle_config, expected_config());
    assert_eq!(replay.packets_buffer, packets);
}

#[test]
fn empty_second_block_yields_no_results() {
    let packets = sample_packets();
    let bytes =
        file(3, &[block(CONFIG_JSON.as_bytes()), block(b"")], &segment(&packets));
    let replay = Parser::new(bytes).parse(decode_config).unwrap();
    assert_eq!(replay.battle_results, None);
    assert_eq!(replay.packets_buffer, packets);
}

#[test]
fn second_block_cut_short_leaves_nothing_for_the_segment() {
    let mut bytes = file(2, &[block(CONFIG_JSON.as_bytes())], &[]);
    bytes.extend_from_slice(&1000u32.to_le_bytes());
    bytes.extend_from_slice(&segment(&sample_packets()));
    let r = Parser::new(bytes).parse(decode_config);
    assert_eq!(r, Err(format_error(FormatError::Truncated)));
}

#[test]
fn read_rest_reports_a_failed_decoding() {
    let mut parser = Parser::new(segment(&sample_packets()));
    let header = ReplayHeader { magic: REPLAY_MAGIC, block_count: 1 };
    assert_eq!(parser.read_rest(header, None), Err(format_error(FormatError::BadMetadata)));
    let replay = parser.read_rest(header, Some(expected_config())).unwrap();
    assert_eq!(replay.header, header);
    assert_eq!(replay.packets_buffer, sample_packets());
}

#[test]
fn json_block_is_a_size_and_that_many_bytes() {
    let mut parser = Parser::new(vec![3, 0, 0, 0, b'a', b'b', b'c', 0, 0, 0, 0, 2, 0, 0, 0, b'x']);
    assert_eq!(parser.read_json_block(), Ok(b"abc".to_vec()));
    assert_eq!(parser.read_json_block(), Err(FormatError::BadMetadata));
    assert_eq!(parser.read_json_block(), Err(FormatError::Truncated));
    assert_eq!(parser.read_json_block(), Err(FormatError::Truncated));
}

#[test]
fn cipher_text_is_padded_to_whole_blocks() {
    let packets = frame(1, 0.5, b"0123456789");
    let stream = deflate(&packets);
    for extra in 0..9usize {
        let mut data = stream.clone();
        data.extend(std::iter::repeat(0u8).take(extra));
        let seg = segment_with(packets.len() as u32, &data);
        let padded = (data.len() + 7) / 8 * 8;
        assert_eq!(seg.len(), 8 + padded);
        assert_eq!(Parser::new(seg.clone()).read_binary_block(), Ok(packets.clone()));
        let short = seg[..seg.len() - 1].to_vec();
        assert_eq!(
            Parser::new(short).read_binary_block(),
            Err(format_error(FormatError::Truncated))
        );
    }
}

#[test]
fn padding_is_not_part_of_the_stream() {
    let packets = sample_packets();
    let stream = deflate(&packets);
    let mut padded = stream.clone();
    while padded.len() % 8 != 7 {
        padded.push(0);
    }
    padded.push(0);
    padded.extend_from_slice(&[0xFF; 8]);
    let mut seg = (packets.len() as u32).to_le_bytes().to_vec();
    seg.extend_from_slice(&(stream.len() as u32).to_le_bytes());
    seg.extend_from_slice(&encrypt_chain(&padded));
    assert_eq!(Parser::new(seg).read_binary_block(), Ok(packets));
}

#[test]
fn size_hint_is_never_checked() {
    let packets = sample_packets();
    let stream = deflate(&packets);
    for hint in [0u32, 1, packets.len() as u32 * 3, 1 << 20] {
        let seg = segment_with(hint, &stream);
        assert_eq!(Parser::new(seg).read_binary_block(), Ok(packets.clone()));
    }
}

#[test]
fn empty_stream_is_a_decompression_failure() {
    let mut seg = 0u32.to_le_bytes().to_vec();
    seg.extend_from_slice(&0u32.to_le_bytes());
    assert_eq!(
        Parser::new(seg).read_binary_block(),
        Err(ParseError::Crypto(CryptoError::Decompress))
    );
}

#[test]
fn corrupt_stream_is_a_decompression_failure() {
    let seg = segment_with(16, &[0x78, 0x9C, 0xFF, 0xFF, 0xFF, 0xFF, 0x00, 0x01, 0x02]);
    assert_eq!(
        Parser::new(seg).read_binary_block(),
        Err(ParseError::Crypto(CryptoError::Decompress))
    );
    let bytes = file(
        1,
        &[block(CONFIG_JSON.as_bytes())],
        &segment_with(4, b"this is no zlib stream at all"),
    );
    let r = Parser::new(bytes).parse(decode_config);
    assert_eq!(r, Err(ParseError::Crypto(CryptoError::Decompress)));
}

#[test]
fn stream_cut_short_is_a_decompression_failure() {
    let packets: Vec<u8> = (0..4000u32).map(|i| (i * i % 251) as u8).collect();
    let stream = deflate(&packets);
    let seg = segment_with(packets.len() as u32, &stream[..stream.len() / 2]);
    assert_eq!(
        Parser::new(seg).read_binary_block(),
        Err(ParseError::Crypto(CryptoError::Decompress))
    );
}

#[test]
fn inflate_gives_back_what_was_deflated() {
    let data: Vec<u8> = (0..10_000u32).map(|i| (i % 13) as u8).collect();
    let stream = deflate(&data);
    assert!(stream.len() < data.len());
    assert_eq!(inflate(&stream, 0), Ok(data.clone()));
    assert_eq!(inflate(&stream, data.len()), Ok(data.clone()));
    assert_eq!(inflate(&stream, 5), Ok(data));
    assert_eq!(inflate(&deflate(b""), 0), Ok(vec![]));
}

#[test]
fn inflate_fails_on_what_is_no_stream() {
    assert_eq!(inflate(b"", 0), Err(CryptoError::Decompress));
    assert_eq!(inflate(b"plain text", 10), Err(CryptoError::Decompress));
    let mut stream = deflate(b"some bytes to compress, some bytes to compress");
    let last = stream.len() - 1;
    stream[last] ^= 0xFF;
    assert_eq!(inflate(&stream, 0), Err(CryptoError::Decompress));
}

#[test]
fn misaligned_ciphertext_is_rejected() {
    for n in [1usize, 7, 9, 15, 17, 1001] {
        assert_eq!(decrypt_replay(&vec![0u8; n]), Err(CryptoError::BadLength));
    }
    assert_eq!(decrypt_replay(&[]), Ok(vec![]));
    assert_eq!(BLOCK_SIZE, 8);
}

#[test]
fn plaintext_is_as_long_as_the_ciphertext() {
    for blocks in 0..6usize {
        let data: Vec<u8> = (0..blocks * 8).map(|i| (i * 31) as u8).collect();
        assert_eq!(decrypt_replay(&data).unwrap().len(), blocks * 8);
    }
}

#[test]
fn chain_matches_hand_computed_blocks() {
    let cipher_text: Vec<u8> = (0u8..24).map(|i| i.wrapping_mul(37).wrapping_add(11)).collect();
    let cipher = cipher();
    let mut single = Vec::new();
    for chunk in cipher_text.chunks(8) {
        let mut buf = GenericArray::clone_from_slice(chunk);
        cipher.decrypt_block(&mut buf);
        single.push(buf.to_vec());
    }
    let mut expected = Vec::new();
    for j in 0..8 {
        expected.push(single[0][j]);
    }
    for j in 0..8 {
        expected.push(single[1][j] ^ single[0][j]);
    }
    for j in 0..8 {
        expected.push(single[2][j] ^ single[1][j] ^ single[0][j]);
    }
    assert_eq!(decrypt_replay(&cipher_text), Ok(expected));
}

#[test]
fn chain_feeds_plaintext_not_ciphertext() {
    let cipher_text: Vec<u8> = (0u8..32).map(|i| i.wrapping_mul(91).wrapping_add(3)).collect();
    let plain = decrypt_replay(&cipher_text).unwrap();
    let cipher = cipher();
    for i in 0..4 {
        let mut buf = GenericArray::clone_from_slice(&cipher_text[8 * i..8 * i + 8]);
        cipher.decrypt_block(&mut buf);
        for j in 0..8 {
            let fed = if i == 0 { 0 } else { plain[8 * (i - 1) + j] };
            assert_eq!(plain[8 * i + j], buf[j] ^ fed);
        }
    }
    let mut buf = GenericArray::clone_from_slice(&cipher_text[8..16]);
    cipher.decrypt_block(&mut buf);
    let cbc: Vec<u8> = (0..8).map(|j| buf[j] ^ cipher_text[j]).collect();
    assert_ne!(&plain[8..16], &cbc[..]);
}

#[test]
fn known_zero_block_vector() {
    // Blowfish under the replay key, decrypting eight zero bytes twice:
    // the second plaintext block is the XOR of two equal blocks.
    let plain = decrypt_replay(&[0u8; 16]).unwrap();
    let mut buf = GenericArray::clone_from_slice(&[0u8; 8]);
    cipher().decrypt_block(&mut buf);
    assert_eq!(&plain[..8], buf.as_slice());
    assert_eq!(&plain[8..], &[0u8; 8]);
    assert_ne!(&plain[..8], &[0u8; 8]);
}

#[test]
fn chain_undoes_its_inverse() {
    let plain: Vec<u8> = (0..64u32).map(|i| (i * 5 + 1) as u8).collect();
    assert_eq!(decrypt_replay(&encrypt_chain(&plain)), Ok(plain));
}

#[test]
fn replay_key_is_the_fixed_one() {
    assert_eq!(
        REPLAY_KEY,
        [
            0xDE, 0x72, 0xBE, 0xA0, 0xDE, 0x04, 0xBE, 0xB1, 0xDE, 0xFE, 0xBE, 0xEF, 0xDE, 0xAD,
            0xBE, 0xEF
        ]
    );
}
