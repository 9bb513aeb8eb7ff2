//! The envelope of a replay file.
//!
//! ```text
//! u32  magic, 0x11343212
//! u32  block count
//! u32  size, then that many bytes: the battle configuration, JSON
//! u32  size, then that many bytes: the battle results, JSON
//!      (only where the block count is 2 or more)
//! u32  size of the inflated packet bytes: a hint
//! u32  size of the zlib stream
//! ..   the zlib stream, encrypted, padded to whole cipher blocks
//! ```
//!
//! All integers are little-endian.

use crate::encryption::chain_decrypt;
use crate::encryption::decrypt_replay;
use crate::encryption::REPLAY_KEY;
use crate::error::CryptoError;
use crate::error::FormatError;
use crate::error::ParseError;
use crate::inflate::inflate;
use crate::inflate::zlib_inflated;
use crate::json::json_value;
use crate::json::parse_json;
use crate::reader::le_u32;
use crate::reader::ByteReader;
use crate::types::BattleConfig;
use crate::types::Replay;
use crate::types::ReplayHeader;
use crate::types::REPLAY_MAGIC;
use serde_json::Value;
use vstd::prelude::*;
use vstd::slice::slice_subrange;

verus! {

/// What is left of `s` after a read of `n` bytes: the rest where `s` has
/// that many, nothing where it has not.
pub open spec fn after_read(s: Seq<u8>, n: int) -> Seq<u8> {
    if s.len() >= n {
        s.skip(n)
    } else {
        Seq::empty()
    }
}

/// The outcome of reading the magic number from the front of `s`.
pub open spec fn magic_of(s: Seq<u8>) -> Result<u32, FormatError> {
    if s.len() < 4 {
        Err(FormatError::Truncated)
    } else if le_u32(s.take(4)) != REPLAY_MAGIC {
        Err(FormatError::BadMagic)
    } else {
        Ok(REPLAY_MAGIC)
    }
}

/// The outcome of reading the block count from the front of `s`.
pub open spec fn block_count_of(s: Seq<u8>) -> Result<u32, FormatError> {
    if s.len() < 4 {
        Err(FormatError::Truncated)
    } else {
        Ok(le_u32(s.take(4)) as u32)
    }
}

/// The outcome of reading a metadata block from the front of `s`: the
/// bytes of the block, `BadMetadata` for a block of size zero, `Truncated`
/// where `s` ends too early.
pub open spec fn json_block_of(s: Seq<u8>) -> Result<Seq<u8>, FormatError> {
    if s.len() < 4 {
        Err(FormatError::Truncated)
    } else if le_u32(s.take(4)) == 0 {
        Err(FormatError::BadMetadata)
    } else if s.len() - 4 < le_u32(s.take(4)) {
        Err(FormatError::Truncated)
    } else {
        Ok(s.subrange(4, 4 + le_u32(s.take(4))))
    }
}

/// What is left of `s` after reading a metadata block from its front.
pub open spec fn after_json_block(s: Seq<u8>) -> Seq<u8> {
    if s.len() >= 4 && le_u32(s.take(4)) == 0 {
        s.skip(4)
    } else {
        after_read(s, 4 + le_u32(s.take(4)))
    }
}

/// A size rounded up to whole cipher blocks.
pub open spec fn padded_len(n: int) -> int {
    (n + 7) / 8 * 8
}

/// The size of the zlib stream that the binary segment at the front of `s`
/// declares.
pub open spec fn compressed_len(s: Seq<u8>) -> int {
    le_u32(s.subrange(4, 8))
}

/// The outcome of reading the binary segment from the front of `s`: the
/// inflated packet bytes.
pub open spec fn binary_block_of(s: Seq<u8>) -> Result<Seq<u8>, ParseError> {
    if s.len() < 8 || s.len() - 8 < padded_len(compressed_len(s)) {
        Err(ParseError::Format(FormatError::Truncated))
    } else {
        let cipher_text = s.subrange(8, 8 + padded_len(compressed_len(s)));
        let stream = chain_decrypt(REPLAY_KEY@, cipher_text).take(compressed_len(s));
        match zlib_inflated(stream) {
            Some(inflated) => Ok(inflated),
            None => Err(ParseError::Crypto(CryptoError::Decompress)),
        }
    }
}

/// What is left of `s` after reading the binary segment from its front.
pub open spec fn after_binary_block(s: Seq<u8>) -> Seq<u8> {
    if s.len() < 8 {
        Seq::empty()
    } else {
        after_read(s, 8 + padded_len(compressed_len(s)))
    }
}

/// The outcome of reading the battle results from the front of `s`: the
/// text of the second metadata block, where the block count announces one
/// and it is whole and not empty.
pub open spec fn results_text_of(s: Seq<u8>, block_count: u32) -> Option<Seq<u8>> {
    if block_count >= 2 {
        match json_block_of(s) {
            Ok(text) => Some(text),
            Err(_) => None,
        }
    } else {
        None
    }
}

/// What is left of `s` after reading the battle results from its front.
pub open spec fn after_results(s: Seq<u8>, block_count: u32) -> Seq<u8> {
    if block_count >= 2 {
        after_json_block(s)
    } else {
        s
    }
}

/// True when `r` is what decoding ends in, for a file whose first metadata
/// block decoded to `config` and whose bytes after that block are `rest`.
pub open spec fn is_outcome(
    rest: Seq<u8>,
    header: ReplayHeader,
    config: Option<BattleConfig>,
    r: Result<Replay, ParseError>,
) -> bool {
    match config {
        None => r == Err::<Replay, ParseError>(ParseError::Format(FormatError::BadMetadata)),
        Some(battle_config) => match binary_block_of(after_results(rest, header.block_count)) {
            Err(e) => r == Err::<Replay, ParseError>(e),
            Ok(inflated) => {
                &&& r matches Ok(replay)
                &&& replay.header == header
                &&& replay.battle_config == battle_config
                &&& replay.battle_results == match results_text_of(rest, header.block_count) {
                    Some(text) => json_value(text),
                    None => None,
                }
                &&& replay.packets_buffer@ == inflated
            },
        },
    }
}

/// What is left of `rest` when decoding has ended, `rest` being the bytes
/// after the first metadata block.
pub open spec fn after_outcome(rest: Seq<u8>, header: ReplayHeader, config_decoded: bool) -> Seq<
    u8,
> {
    if config_decoded {
        after_binary_block(after_results(rest, header.block_count))
    } else {
        rest
    }
}

/// The outcome of reading the envelope up to the end of the first metadata
/// block: the header and the text of the block.
pub open spec fn config_block_of(s: Seq<u8>) -> Result<(ReplayHeader, Seq<u8>), FormatError> {
    match magic_of(s) {
        Err(e) => Err(e),
        Ok(magic) => match block_count_of(s.skip(4)) {
            Err(e) => Err(e),
            Ok(block_count) => match json_block_of(s.skip(8)) {
                Err(e) => Err(e),
                Ok(text) => Ok((ReplayHeader { magic, block_count }, text)),
            },
        },
    }
}

/// What is left of `s` after reading the envelope up to the end of the
/// first metadata block.
pub open spec fn after_config_block(s: Seq<u8>) -> Seq<u8> {
    if magic_of(s).is_err() {
        after_read(s, 4)
    } else if s.len() < 8 {
        Seq::empty()
    } else {
        after_json_block(s.skip(8))
    }
}

/// True when `r` is what decoding `file` ends in, the first metadata block
/// having decoded to `config`.
pub open spec fn parse_outcome(
    file: Seq<u8>,
    config: Option<BattleConfig>,
    r: Result<Replay, ParseError>,
) -> bool {
    match config_block_of(file) {
        Err(e) => r == Err::<Replay, ParseError>(ParseError::Format(e)),
        Ok((header, _)) => is_outcome(after_config_block(file), header, config, r),
    }
}

/// What is left of `file` when decoding has ended.
pub open spec fn after_parse(file: Seq<u8>, config_decoded: bool) -> Seq<u8> {
    match config_block_of(file) {
        Err(_) => after_config_block(file),
        Ok((header, _)) => after_outcome(after_config_block(file), header, config_decoded),
    }
}

/// True when `config` is something that `decode` can return for `text`.
pub open spec fn may_decode_to<D: Fn(&[u8]) -> Option<BattleConfig>>(
    decode: D,
    text: Seq<u8>,
    config: Option<BattleConfig>,
) -> bool {
    exists|t: &[u8]| t@ == text && call_ensures(decode, (t,), config)
}

/// The binary segment of `file`: what follows its metadata blocks.
pub open spec fn segment_of(file: Seq<u8>) -> Seq<u8>
    recommends
        config_block_of(file).is_ok(),
{
    after_results(after_config_block(file), config_block_of(file).unwrap().0.block_count)
}

/// True when `file` holds a whole envelope: a header with the right magic
/// number, a first metadata block that is not empty, and a binary segment
/// with all of its cipher text.
pub open spec fn is_whole(file: Seq<u8>) -> bool {
    &&& config_block_of(file).is_ok()
    &&& segment_of(file).len() >= 8
    &&& segment_of(file).len() - 8 >= padded_len(compressed_len(segment_of(file)))
}

/// The number of bytes that make up the envelope of a whole file; what
/// follows them is never read.
pub open spec fn envelope_len(file: Seq<u8>) -> int
    recommends
        is_whole(file),
{
    file.len() - after_binary_block(segment_of(file)).len()
}

/// The four bytes that spell `v` in little-endian order.
pub open spec fn u32_le_bytes(v: u32) -> Seq<u8> {
    seq![
        (v % 0x100) as u8,
        (v / 0x100 % 0x100) as u8,
        (v / 0x1_0000 % 0x100) as u8,
        (v / 0x100_0000) as u8,
    ]
}

/// A metadata block as it stands in a file: the size of the text, then the
/// text.
pub open spec fn block_bytes(text: Seq<u8>) -> Seq<u8> {
    u32_le_bytes(text.len() as u32) + text
}

/// A binary segment as it stands in a file: the size hint, the size of the
/// zlib stream, then the cipher text.
pub open spec fn segment_bytes(size_hint: u32, stream_len: u32, cipher_text: Seq<u8>) -> Seq<u8> {
    u32_le_bytes(size_hint) + u32_le_bytes(stream_len) + cipher_text
}

/// A replay file as the format lays it out.
pub open spec fn file_bytes(
    block_count: u32,
    config_text: Seq<u8>,
    results_text: Option<Seq<u8>>,
    segment: Seq<u8>,
) -> Seq<u8> {
    u32_le_bytes(REPLAY_MAGIC) + u32_le_bytes(block_count) + block_bytes(config_text) + (
    match results_text {
        Some(text) => block_bytes(text),
        None => Seq::empty(),
    }) + segment
}

/// A decoder over the bytes of one replay file.
pub struct Parser {
    reader: ByteReader,
}

impl Parser {
    /// The bytes that have not been read yet.
    pub closed spec fn remaining(&self) -> Seq<u8> {
        self.reader.remaining()
    }

    /// A parser at the start of the bytes of a replay file.
    pub fn new(data: Vec<u8>) -> (parser: Self)
        ensures
            parser.remaining() == data@,
    {
        Parser { reader: ByteReader::new(data) }
    }

    /// Decodes a replay file. `decode_config` turns the JSON text of the
    /// first metadata block into a battle configuration, or into `None`
    /// where the text is not one.
    pub fn parse<D>(&mut self, decode_config: D) -> (r: Result<Replay, ParseError>) where
        D: Fn(&[u8]) -> Option<BattleConfig>,

        requires
            forall|text: &[u8]| call_requires(decode_config, (text,)),
        ensures
            exists|config: Option<BattleConfig>|
                {
                    &&& config_block_of(old(self).remaining()) matches Ok((_, text))
                        ==> may_decode_to(decode_config, text, config)
                    &&& parse_outcome(old(self).remaining(), config, r)
                    &&& final(self).remaining() == after_parse(
                        old(self).remaining(),
                        config.is_some(),
                    )
                },
    {
        let ghost s = self.remaining();
        let ghost undecoded: Option<BattleConfig> = None;
        let magic = match self.read_magic() {
            Err(e) => {
                assert(parse_outcome(s, undecoded, Err(ParseError::Format(e))));
                return Err(ParseError::Format(e));
            },
            Ok(magic) => magic,
        };
        let block_count = match self.read_block_count() {
            Err(e) => {
                assert(parse_outcome(s, undecoded, Err(ParseError::Format(e))));
                return Err(ParseError::Format(e));
            },
            Ok(count) => count,
        };
        assert(s.skip(4).skip(4) == s.skip(8));
        let config_text = match self.read_json_block() {
            Err(e) => {
                assert(parse_outcome(s, undecoded, Err(ParseError::Format(e))));
                return Err(ParseError::Format(e));
            },
            Ok(text) => text,
        };
        let text = config_text.as_slice();
        let config = decode_config(text);
        let r = self.read_rest(ReplayHeader { magic, block_count }, config);
        assert(may_decode_to(decode_config, config_text@, config)) by {
            assert(text@ == config_text@ && call_ensures(decode_config, (text,), config));
        }
        assert(parse_outcome(s, config, r));
        r
    }

    /// Goes on after the first metadata block, which decoded to `config`:
    /// reads the battle results, where the block count announces them, and
    /// the binary segment. Battle results that cannot be read are absent;
    /// they fail nothing.
    pub fn read_rest(&mut self, header: ReplayHeader, config: Option<BattleConfig>) -> (r: Result<
        Replay,
        ParseError,
    >)
        ensures
            is_outcome(old(self).remaining(), header, config, r),
            final(self).remaining() == after_outcome(
                old(self).remaining(),
                header,
                config.is_some(),
            ),
    {
        let battle_config = match config {
            None => {
                return Err(ParseError::Format(FormatError::BadMetadata));
            },
            Some(battle_config) => battle_config,
        };
        let mut battle_results: Option<Value> = None;
        if header.block_count >= 2 {
            match self.read_json_block() {
                Ok(text) => {
                    battle_results = parse_json(text.as_slice());
                },
                Err(_) => {},
            }
        }
        let packets_buffer = match self.read_binary_block() {
            Err(e) => {
                return Err(e);
            },
            Ok(packets) => packets,
        };
        Ok(Replay { header, battle_config, battle_results, packets_buffer })
    }

    /// Reads the magic number and checks it.
    pub fn read_magic(&mut self) -> (r: Result<u32, FormatError>)
        ensures
            r == magic_of(old(self).remaining()),
            final(self).remaining() == after_read(old(self).remaining(), 4),
    {
        match self.reader.read_u32_le() {
            None => Err(FormatError::Truncated),
            Some(magic) => {
                if magic != REPLAY_MAGIC {
                    Err(FormatError::BadMagic)
                } else {
                    Ok(magic)
                }
            },
        }
    }

    /// Reads the block count. It is taken as it stands: nothing compares it
    /// with the blocks that follow.
    pub fn read_block_count(&mut self) -> (r: Result<u32, FormatError>)
        ensures
            r == block_count_of(old(self).remaining()),
            final(self).remaining() == after_read(old(self).remaining(), 4),
    {
        match self.reader.read_u32_le() {
            None => Err(FormatError::Truncated),
            Some(count) => Ok(count),
        }
    }

    /// Reads one metadata block: a size and that many bytes of JSON text.
    pub fn read_json_block(&mut self) -> (r: Result<Vec<u8>, FormatError>)
        ensures
            match json_block_of(old(self).remaining()) {
                Ok(text) => r matches Ok(block) && block@ == text,
                Err(e) => r == Err::<Vec<u8>, FormatError>(e),
            },
            final(self).remaining() == after_json_block(old(self).remaining()),
    {
        let ghost s = self.reader.remaining();
        let size = match self.reader.read_u32_le() {
            None => {
                return Err(FormatError::Truncated);
            },
            Some(size) => size,
        };
        if size == 0 {
            return Err(FormatError::BadMetadata);
        }
        match self.reader.read_exact(size as usize) {
            None => Err(FormatError::Truncated),
            Some(block) => {
                proof {
                    assert(s.skip(4).take(size as int) == s.subrange(4, 4 + size));
                    assert(s.skip(4).skip(size as int) == s.skip(4 + size));
                }
                Ok(block)
            },
        }
    }

    /// Reads the binary segment, decrypts it and inflates it.
    pub fn read_binary_block(&mut self) -> (r: Result<Vec<u8>, ParseError>)
        ensures
            match binary_block_of(old(self).remaining()) {
                Ok(inflated) => r matches Ok(packets) && packets@ == inflated,
                Err(e) => r == Err::<Vec<u8>, ParseError>(e),
            },
            final(self).remaining() == after_binary_block(old(self).remaining()),
    {
        let ghost s = self.reader.remaining();
        let decompressed_size = match self.reader.read_u32_le() {
            None => {
                return Err(ParseError::Format(FormatError::Truncated));
            },
            Some(size) => size,
        };
        let compressed_size = match self.reader.read_u32_le() {
            None => {
                return Err(ParseError::Format(FormatError::Truncated));
            },
            Some(size) => size,
        };
        proof {
            assert(s.skip(4).take(4) == s.subrange(4, 8));
            assert(self.reader.remaining() == s.skip(8));
        }
        let padded: u64 = (compressed_size as u64 + 7) / 8 * 8;
        if padded > self.reader.remaining_len() as u64 {
            self.reader.skip_to_end();
            return Err(ParseError::Format(FormatError::Truncated));
        }
        let encrypted = match self.reader.read_exact(padded as usize) {
            None => {
                return Err(ParseError::Format(FormatError::Truncated));
            },
            Some(bytes) => bytes,
        };
        proof {
            assert(s.skip(8).take(padded as int) == s.subrange(8, 8 + padded));
            assert(s.skip(8).skip(padded as int) == s.skip(8 + padded));
        }
        let decrypted = match decrypt_replay(encrypted.as_slice()) {
            Err(e) => {
                return Err(ParseError::Crypto(e));
            },
            Ok(plain) => plain,
        };
        let stream = slice_subrange(decrypted.as_slice(), 0, compressed_size as usize);
        assert(stream@ == decrypted@.take(compressed_size as int));
        match inflate(stream, decompressed_size as usize) {
            Err(e) => Err(ParseError::Crypto(e)),
            Ok(packets) => Ok(packets),
        }
    }
}

/// A file whose first four bytes are not the magic number is rejected for
/// that, whatever follows them and whatever the decoder would say.
pub proof fn lemma_wrong_magic_is_rejected(
    file: Seq<u8>,
    config: Option<BattleConfig>,
    r: Result<Replay, ParseError>,
)
    requires
        file.len() >= 4,
        le_u32(file.take(4)) != REPLAY_MAGIC,
        parse_outcome(file, config, r),
    ensures
        r == Err::<Replay, ParseError>(ParseError::Format(FormatError::BadMagic)),
{
}

/// A whole file that is cut short anywhere inside its envelope is rejected:
/// no cut gives a replay.
pub proof fn lemma_truncated_file_is_rejected(
    file: Seq<u8>,
    cut: int,
    config: Option<BattleConfig>,
    r: Result<Replay, ParseError>,
)
    requires
        is_whole(file),
        0 <= cut < envelope_len(file),
        parse_outcome(file.take(cut), config, r),
    ensures
        r matches Err(ParseError::Format(_)),
{
    let short = file.take(cut);
    if cut < 4 {
    } else if cut < 8 {
        assert(short.take(4) == file.take(4));
    } else {
        assert(short.take(4) == file.take(4));
        assert(short.skip(4).take(4) == file.skip(4).take(4));
        assert(short.skip(8) == file.skip(8).take(cut - 8));
        let header = config_block_of(file).unwrap().0;
        let rest = after_config_block(file);
        let used = file.len() - rest.len();
        lemma_json_block_of_prefix(file.skip(8), cut - 8);
        if cut >= used && config.is_some() {
            let short_rest = after_config_block(short);
            assert(short_rest == rest.take(cut - used));
            if header.block_count >= 2 {
                if json_block_of(rest) == Err::<Seq<u8>, FormatError>(FormatError::Truncated) {
                    assert(after_json_block(rest).len() == 0);
                } else {
                    lemma_json_block_of_prefix(rest, cut - used);
                    let used_by_results = rest.len() - after_json_block(rest).len();
                    if cut - used >= used_by_results {
                        lemma_binary_block_of_prefix(
                            segment_of(file),
                            cut - used - used_by_results,
                        );
                    }
                }
            } else {
                lemma_binary_block_of_prefix(segment_of(file), cut - used);
            }
        }
    }
}

/// Battle results that cannot be read are absent and fail nothing: with a
/// second metadata block that is empty, cut short or not JSON, decoding
/// goes on with the binary segment and succeeds where that can be read.
pub proof fn lemma_unreadable_results_are_absent(
    file: Seq<u8>,
    config: BattleConfig,
    r: Result<Replay, ParseError>,
)
    requires
        config_block_of(file) matches Ok((header, _)) && header.block_count >= 2,
        match json_block_of(after_config_block(file)) {
            Ok(text) => json_value(text).is_none(),
            Err(_) => true,
        },
        parse_outcome(file, Some(config), r),
    ensures
        r.is_ok() <==> binary_block_of(after_json_block(after_config_block(file))).is_ok(),
        r matches Ok(replay) ==> replay.battle_results.is_none(),
{
}

/// Reading a metadata block from a prefix of `s`: a prefix that holds the
/// whole block gives what `s` gives, a shorter one is truncated.
proof fn lemma_json_block_of_prefix(s: Seq<u8>, k: int)
    requires
        0 <= k <= s.len(),
        json_block_of(s) != Err::<Seq<u8>, FormatError>(FormatError::Truncated),
    ensures
        k < s.len() - after_json_block(s).len() ==> {
            &&& json_block_of(s.take(k)).is_err()
            &&& json_block_of(s.take(k)).is_ok() == false
            &&& json_block_of(s).is_ok() ==> json_block_of(s.take(k)) == Err::<
                Seq<u8>,
                FormatError,
            >(FormatError::Truncated)
            &&& after_json_block(s.take(k)) == Seq::<u8>::empty()
        },
        k >= s.len() - after_json_block(s).len() ==> {
            &&& json_block_of(s.take(k)) == json_block_of(s)
            &&& after_json_block(s.take(k)) == after_json_block(s).take(
                k - (s.len() - after_json_block(s).len()),
            )
        },
{
    let short = s.take(k);
    if k >= 4 {
        assert(short.take(4) == s.take(4));
        let size = le_u32(s.take(4));
        if size == 0 {
            assert(short.skip(4) == s.skip(4).take(k - 4));
        } else if k >= 4 + size {
            assert(short.subrange(4, 4 + size) == s.subrange(4, 4 + size));
            assert(short.skip(4 + size) == s.skip(4 + size).take(k - 4 - size));
        }
    }
}

/// Reading the binary segment from a prefix of `s` that does not hold all
/// of the segment is truncated.
proof fn lemma_binary_block_of_prefix(s: Seq<u8>, k: int)
    requires
        s.len() >= 8,
        s.len() - 8 >= padded_len(compressed_len(s)),
        0 <= k < 8 + padded_len(compressed_len(s)),
    ensures
        binary_block_of(s.take(k)) == Err::<Seq<u8>, ParseError>(
            ParseError::Format(FormatError::Truncated),
        ),
{
    if k >= 8 {
        assert(s.take(k).subrange(4, 8) == s.subrange(4, 8));
    }
}

/// A file that is laid out as the format says is read back as it was
/// written: the header, the configuration that its first block decodes to,
/// the battle results that its second block spells, and the packet bytes
/// that the cipher text decrypts and inflates to. Bytes after the cipher
/// text change nothing.
pub proof fn lemma_written_file_reads_back(
    block_count: u32,
    config_text: Seq<u8>,
    results_text: Option<Seq<u8>>,
    size_hint: u32,
    stream_len: u32,
    cipher_text: Seq<u8>,
    trailing: Seq<u8>,
    config: BattleConfig,
    r: Result<Replay, ParseError>,
)
    requires
        0 < config_text.len() <= u32::MAX,
        results_text matches Some(text) ==> 0 < text.len() <= u32::MAX,
        block_count >= 2 <==> results_text.is_some(),
        cipher_text.len() == padded_len(stream_len as int),
        parse_outcome(
            file_bytes(
                block_count,
                config_text,
                results_text,
                segment_bytes(size_hint, stream_len, cipher_text),
            ) + trailing,
            Some(config),
            r,
        ),
    ensures
        match zlib_inflated(chain_decrypt(REPLAY_KEY@, cipher_text).take(stream_len as int)) {
            Some(packets) => {
                &&& r matches Ok(replay)
                &&& replay.header == ReplayHeader { magic: REPLAY_MAGIC, block_count }
                &&& replay.battle_config == config
                &&& replay.battle_results == match results_text {
                    Some(text) => json_value(text),
                    None => None,
                }
                &&& replay.packets_buffer@ == packets
            },
            None => r == Err::<Replay, ParseError>(ParseError::Crypto(CryptoError::Decompress)),
        },
{
    let segment = segment_bytes(size_hint, stream_len, cipher_text) + trailing;
    let results = match results_text {
        Some(text) => block_bytes(text),
        None => Seq::empty(),
    };
    let file = u32_le_bytes(REPLAY_MAGIC) + u32_le_bytes(block_count) + block_bytes(config_text)
        + (results + segment);
    assert(file =~= file_bytes(
        block_count,
        config_text,
        results_text,
        segment_bytes(size_hint, stream_len, cipher_text),
    ) + trailing);
    lemma_config_block_reads_back(block_count, config_text, results + segment);
    match results_text {
        Some(text) => {
            lemma_block_reads_back(text, segment);
        },
        None => {
            assert(results + segment =~= segment);
        },
    }
    lemma_segment_reads_back(size_hint, stream_len, cipher_text, trailing);
}

/// The header and the first metadata block of a file that is laid out as
/// the format says are read back as they were written.
proof fn lemma_config_block_reads_back(block_count: u32, config_text: Seq<u8>, rest: Seq<u8>)
    requires
        0 < config_text.len() <= u32::MAX,
    ensures
        config_block_of(
            u32_le_bytes(REPLAY_MAGIC) + u32_le_bytes(block_count) + block_bytes(config_text)
                + rest,
        ) == Ok::<(ReplayHeader, Seq<u8>), FormatError>(
            (ReplayHeader { magic: REPLAY_MAGIC, block_count }, config_text),
        ),
        after_config_block(
            u32_le_bytes(REPLAY_MAGIC) + u32_le_bytes(block_count) + block_bytes(config_text)
                + rest,
        ) == rest,
{
    let after_count = block_bytes(config_text) + rest;
    let after_magic = u32_le_bytes(block_count) + after_count;
    let file = u32_le_bytes(REPLAY_MAGIC) + after_magic;
    assert(file =~= u32_le_bytes(REPLAY_MAGIC) + u32_le_bytes(block_count) + block_bytes(
        config_text,
    ) + rest);
    lemma_u32_reads_back(REPLAY_MAGIC, after_magic);
    lemma_u32_reads_back(block_count, after_count);
    assert(file.skip(8) =~= file.skip(4).skip(4));
    lemma_block_reads_back(config_text, rest);
}

/// The binary segment of a file that is laid out as the format says is
/// read back as it was written.
proof fn lemma_segment_reads_back(
    size_hint: u32,
    stream_len: u32,
    cipher_text: Seq<u8>,
    trailing: Seq<u8>,
)
    requires
        cipher_text.len() == padded_len(stream_len as int),
    ensures
        binary_block_of(segment_bytes(size_hint, stream_len, cipher_text) + trailing) == match zlib_inflated(
            chain_decrypt(REPLAY_KEY@, cipher_text).take(stream_len as int),
        ) {
            Some(packets) => Ok::<Seq<u8>, ParseError>(packets),
            None => Err::<Seq<u8>, ParseError>(ParseError::Crypto(CryptoError::Decompress)),
        },
{
    let segment = segment_bytes(size_hint, stream_len, cipher_text) + trailing;
    let after_hint = u32_le_bytes(stream_len) + (cipher_text + trailing);
    assert(segment =~= u32_le_bytes(size_hint) + after_hint);
    lemma_u32_reads_back(size_hint, after_hint);
    lemma_u32_reads_back(stream_len, cipher_text + trailing);
    assert(segment.subrange(4, 8) =~= segment.skip(4).take(4));
    assert(compressed_len(segment) == stream_len);
    assert(segment.subrange(8, 8 + cipher_text.len() as int) =~= cipher_text);
}

/// A `u32` that is written in little-endian order is read back as it was,
/// and what follows it is what is left.
proof fn lemma_u32_reads_back(v: u32, rest: Seq<u8>)
    ensures
        (u32_le_bytes(v) + rest).len() == 4 + rest.len(),
        le_u32((u32_le_bytes(v) + rest).take(4)) == v,
        (u32_le_bytes(v) + rest).skip(4) == rest,
{
    let s = u32_le_bytes(v) + rest;
    assert(s.take(4) =~= u32_le_bytes(v));
    assert(s.skip(4) =~= rest);
}

/// A metadata block that is written with its size is read back as it was,
/// and what follows it is what is left.
proof fn lemma_block_reads_back(text: Seq<u8>, rest: Seq<u8>)
    requires
        0 < text.len() <= u32::MAX,
    ensures
        json_block_of(block_bytes(text) + rest) == Ok::<Seq<u8>, FormatError>(text),
        after_json_block(block_bytes(text) + rest) == rest,
{
    let s = block_bytes(text) + rest;
    assert(s =~= u32_le_bytes(text.len() as u32) + (text + rest));
    lemma_u32_reads_back(text.len() as u32, text + rest);
    assert(s.subrange(4, 4 + text.len() as int) =~= text);
    assert(s.skip(4 + text.len() as int) =~= rest);
}

} // verus!
