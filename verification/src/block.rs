//! Size-bounded batches of key/value entries.
//!
//! A block keeps its entries back to back in `data`, each as
//! `[varint(key length)][varint(value length)][key][value]`, and the start of
//! each entry as a four-byte big-endian offset in `offsets`. On the wire a
//! block is the compressed form of `data`, then `offsets`, then the number of
//! entries in four big-endian bytes.

use crate::endian::{be32, from_be32, get_be32, lemma_be32_round_trip, put_be32, put_bytes};
use crate::varint::{
    decode_u32, decoding, encode_u32, encoded_length_u32, encoding, lemma_decoding_stable,
    lemma_round_trip,
};
use crate::{ByteString, Error};
use vstd::prelude::*;
use vstd::slice::{slice_subrange, slice_to_vec};

verus! {

/// Size in bytes that the entry data of a block with more than one entry
/// stays within.
pub const TARGET_SIZE: u32 = 65536;

/// A key and a value, as byte sequences.
pub type Pair = (Seq<u8>, Seq<u8>);

/// The bytes that one entry occupies in a block's data.
pub open spec fn entry_encoding(key: Seq<u8>, value: Seq<u8>) -> Seq<u8>
    recommends
        key.len() <= u32::MAX,
        value.len() <= u32::MAX,
{
    encoding(key.len() as u32) + encoding(value.len() as u32) + key + value
}

/// The entry that starts at the front of `s`, or `None` where `s` ends before
/// the entry does.
pub open spec fn parsed_entry(s: Seq<u8>) -> Option<Pair> {
    match decoding(s) {
        None => None,
        Some((key_len, taken)) => {
            let after_key_len = s.subrange(taken as int, s.len() as int);
            match decoding(after_key_len) {
                None => None,
                Some((value_len, taken)) => {
                    let body = after_key_len.subrange(taken as int, after_key_len.len() as int);
                    if body.len() < key_len + value_len {
                        None
                    } else {
                        Some(
                            (
                                body.subrange(0, key_len as int),
                                body.subrange(key_len as int, key_len + value_len),
                            ),
                        )
                    }
                },
            }
        },
    }
}

/// What a block holds.
pub struct BlockView {
    pub num_entries: nat,
    pub data: Seq<u8>,
    pub offsets: Seq<u8>,
}

impl BlockView {
    /// The block without entries.
    pub open spec fn empty() -> BlockView {
        BlockView { num_entries: 0, data: Seq::empty(), offsets: Seq::empty() }
    }

    /// One offset is recorded for each entry.
    pub open spec fn well_formed(self) -> bool {
        self.offsets.len() == 4 * self.num_entries
    }

    /// Whether an append of this entry is accepted: a block without data takes
    /// any entry, another one only what keeps its data within the target size.
    pub open spec fn accepts(self, key: Seq<u8>, value: Seq<u8>) -> bool {
        &&& self.num_entries < u32::MAX
        &&& (self.data.len() == 0 || self.data.len() + entry_encoding(key, value).len()
            <= TARGET_SIZE)
    }

    /// The block after an append of this entry.
    pub open spec fn appended(self, key: Seq<u8>, value: Seq<u8>) -> BlockView {
        BlockView {
            num_entries: self.num_entries + 1,
            data: self.data + entry_encoding(key, value),
            offsets: self.offsets + be32(self.data.len() as u32),
        }
    }

    /// The uncompressed wire form.
    pub open spec fn raw(self) -> Seq<u8> {
        self.data + self.offsets + be32(self.num_entries as u32)
    }

    /// The recorded start of entry `i`.
    pub open spec fn offset(self, i: nat) -> u32 {
        from_be32(self.offsets.subrange(4 * i as int, 4 * i as int + 4))
    }

    /// What fetching entry `i` gives: nothing past the last entry, the entry
    /// that its recorded offset leads to, or an error where no offset is
    /// recorded for it, the offset lies past the data, or the data ends before
    /// the entry does.
    pub open spec fn fetched(self, i: nat) -> Result<Option<Pair>, Error> {
        if i >= self.num_entries {
            Ok(None)
        } else if self.offsets.len() < 4 * i + 4 || self.offset(i) > self.data.len() {
            Err(Error::Truncated)
        } else {
            match parsed_entry(self.data.subrange(self.offset(i) as int, self.data.len() as int)) {
                Some(pair) => Ok(Some(pair)),
                None => Err(Error::Truncated),
            }
        }
    }
}

/// The block that appends of `entries`, in their order, build from the empty
/// block.
pub open spec fn packed(entries: Seq<Pair>) -> BlockView
    decreases entries.len(),
{
    if entries.len() == 0 {
        BlockView::empty()
    } else {
        packed(entries.drop_last()).appended(entries.last().0, entries.last().1)
    }
}

/// What the wire form `raw` splits into, from its tail: the entry count in
/// the last four bytes, that many offsets before it, and the data before
/// those; `None` where `raw` is too short for that.
pub open spec fn parsed_raw(raw: Seq<u8>) -> Option<BlockView> {
    if raw.len() < 4 {
        None
    } else {
        let count_at = raw.len() - 4;
        let n = from_be32(raw.subrange(count_at, raw.len() as int));
        if count_at < 4 * n {
            None
        } else {
            Some(
                BlockView {
                    num_entries: n as nat,
                    data: raw.subrange(0, count_at - 4 * n),
                    offsets: raw.subrange(count_at - 4 * n, count_at),
                },
            )
        }
    }
}

/// What an outcome of a fetch holds, as byte sequences.
pub open spec fn outcome_view(r: Result<Option<(ByteString, ByteString)>, Error>) -> Result<
    Option<Pair>,
    Error,
> {
    match r {
        Ok(Some((key, value))) => Ok(Some((key@, value@))),
        Ok(None) => Ok(None),
        Err(e) => Err(e),
    }
}

/// The zstd frame that `zstd::encode_all` makes of `raw` at level 0, or
/// `None` where it gives none.
pub uninterp spec fn zstd_frame(raw: Seq<u8>) -> Option<Seq<u8>>;

/// The bytes that `zstd::decode_all` recovers from `frame`, or `None` where it
/// rejects `frame`.
pub uninterp spec fn zstd_content(frame: Seq<u8>) -> Option<Seq<u8>>;

/// What decompressing `frame` gives: a codec error where zstd rejects it, a
/// truncation error where the recovered bytes are too short for a block, else
/// the block they split into.
pub open spec fn decompressed(frame: Seq<u8>) -> Result<BlockView, Error> {
    match zstd_content(frame) {
        None => Err(Error::Codec),
        Some(raw) => match parsed_raw(raw) {
            None => Err(Error::Truncated),
            Some(block) => Ok(block),
        },
    }
}

/// Whether appending `entries` one after the other to the empty block
/// succeeds each time.
pub open spec fn all_accepted(entries: Seq<Pair>) -> bool
    decreases entries.len(),
{
    entries.len() == 0 || {
        &&& all_accepted(entries.drop_last())
        &&& entries.last().0.len() <= u32::MAX
        &&& entries.last().1.len() <= u32::MAX
        &&& packed(entries.drop_last()).accepts(entries.last().0, entries.last().1)
    }
}

/// Number of bytes that `entries` take in a block's data.
pub open spec fn encoded_size(entries: Seq<Pair>) -> nat
    decreases entries.len(),
{
    if entries.len() == 0 {
        0
    } else {
        encoded_size(entries.drop_last()) + entry_encoding(
            entries.last().0,
            entries.last().1,
        ).len()
    }
}

/// A block without entries accepts every entry, however long, and a block
/// with data accepts none that would take its data past the target size.
pub proof fn lemma_overflow_policy(block: BlockView, key: Seq<u8>, value: Seq<u8>)
    ensures
        BlockView::empty().accepts(key, value),
        block.data.len() > 0 && block.data.len() + entry_encoding(key, value).len() > TARGET_SIZE
            ==> !block.accepts(key, value),
{
}

/// The empty block records one offset per entry, and an append keeps it so.
pub proof fn lemma_well_formed_kept(block: BlockView, key: Seq<u8>, value: Seq<u8>)
    ensures
        BlockView::empty().well_formed(),
        block.well_formed() ==> block.appended(key, value).well_formed(),
{
}

/// An entry is parsed back from its encoding, whatever bytes follow it.
pub proof fn lemma_entry_round_trip(key: Seq<u8>, value: Seq<u8>, rest: Seq<u8>)
    requires
        key.len() <= u32::MAX,
        value.len() <= u32::MAX,
    ensures
        parsed_entry(entry_encoding(key, value) + rest) == Some((key, value)),
{
    let key_len = key.len() as u32;
    let value_len = value.len() as u32;
    let s = entry_encoding(key, value) + rest;
    let after_key_len = encoding(value_len) + (key + value + rest);
    assert(s =~= encoding(key_len) + after_key_len);
    lemma_round_trip(key_len, after_key_len);
    assert(s.subrange(encoding(key_len).len() as int, s.len() as int) =~= after_key_len);
    lemma_round_trip(value_len, key + value + rest);
    let body = key + value + rest;
    assert(after_key_len.subrange(encoding(value_len).len() as int, after_key_len.len() as int)
        =~= body);
    assert(body.subrange(0, key_len as int) =~= key);
    assert(body.subrange(key_len as int, key_len + value_len) =~= value);
}

/// Bytes that follow an entry do not change what is parsed.
pub proof fn lemma_parse_stable(s: Seq<u8>, more: Seq<u8>)
    requires
        parsed_entry(s) is Some,
    ensures
        parsed_entry(s + more) == parsed_entry(s),
{
    lemma_decoding_stable(s, more);
    let taken = decoding(s)->Some_0.1;
    let after = s.subrange(taken as int, s.len() as int);
    assert((s + more).subrange(taken as int, (s + more).len() as int) =~= after + more);
    lemma_decoding_stable(after, more);
    let taken2 = decoding(after)->Some_0.1;
    let body = after.subrange(taken2 as int, after.len() as int);
    let long_body = (after + more).subrange(taken2 as int, (after + more).len() as int);
    assert(long_body =~= body + more);
    let key_len = decoding(s)->Some_0.0;
    let value_len = decoding(after)->Some_0.0;
    assert(long_body.subrange(0, key_len as int) =~= body.subrange(0, key_len as int));
    assert(long_body.subrange(key_len as int, key_len + value_len) =~= body.subrange(
        key_len as int,
        key_len + value_len,
    ));
}

/// A block built by accepted appends records one offset per entry, holds the
/// encodings back to back, and gives each entry back when it is fetched.
pub proof fn lemma_packed_fetch(entries: Seq<Pair>, i: nat)
    requires
        all_accepted(entries),
    ensures
        packed(entries).well_formed(),
        packed(entries).num_entries == entries.len(),
        packed(entries).data.len() == encoded_size(entries),
        i < entries.len() ==> packed(entries).fetched(i) == Ok::<Option<Pair>, Error>(
            Some(entries[i as int]),
        ),
        i >= entries.len() ==> packed(entries).fetched(i) == Ok::<Option<Pair>, Error>(None),
    decreases entries.len(),
{
    if entries.len() > 0 {
        let before = packed(entries.drop_last());
        let (key, value) = entries.last();
        let after = packed(entries);
        let start = before.data.len();
        lemma_packed_fetch(entries.drop_last(), i);
        lemma_be32_round_trip(start as u32);
        if i < entries.len() - 1 {
            assert(after.offsets.subrange(4 * i as int, 4 * i as int + 4)
                =~= before.offsets.subrange(4 * i as int, 4 * i as int + 4));
            let off = before.offset(i);
            assert(entries.drop_last()[i as int] == entries[i as int]);
            let tail = before.data.subrange(off as int, before.data.len() as int);
            assert(after.data.subrange(off as int, after.data.len() as int) =~= tail
                + entry_encoding(key, value));
            lemma_parse_stable(tail, entry_encoding(key, value));
        } else if i == entries.len() - 1 {
            assert(after.offsets.subrange(4 * i as int, 4 * i as int + 4) =~= be32(start as u32));
            assert(after.data.subrange(start as int, after.data.len() as int) =~= entry_encoding(
                key,
                value,
            ) + Seq::<u8>::empty());
            lemma_entry_round_trip(key, value, Seq::empty());
        }
    }
}

/// Each entry takes at least two bytes.
pub proof fn lemma_size_counts_entries(entries: Seq<Pair>)
    ensures
        2 * entries.len() <= encoded_size(entries),
    decreases entries.len(),
{
    if entries.len() > 0 {
        lemma_size_counts_entries(entries.drop_last());
        let (key, value) = entries.last();
        assert(encoding(key.len() as u32).len() >= 1);
        assert(encoding(value.len() as u32).len() >= 1);
    }
}

/// Entries whose encodings together stay within the target size are all
/// accepted, provided that each key and value is short enough for a 32-bit
/// length.
pub proof fn lemma_small_batches_accepted(entries: Seq<Pair>)
    requires
        encoded_size(entries) <= TARGET_SIZE,
        forall|j: int|
            0 <= j < entries.len() ==> (#[trigger] entries[j]).0.len() <= u32::MAX
                && entries[j].1.len() <= u32::MAX,
    ensures
        all_accepted(entries),
    decreases entries.len(),
{
    if entries.len() > 0 {
        let shorter = entries.drop_last();
        assert forall|j: int| 0 <= j < shorter.len() implies (#[trigger] shorter[j]).0.len()
            <= u32::MAX && shorter[j].1.len() <= u32::MAX by {
            assert(shorter[j] == entries[j]);
        }
        lemma_small_batches_accepted(shorter);
        lemma_packed_fetch(shorter, 0);
        let (key, value) = entries.last();
        lemma_round_trip(key.len() as u32, Seq::empty());
        lemma_round_trip(value.len() as u32, Seq::empty());
        assert(entries[entries.len() - 1] == (key, value));
        assert(key.len() <= u32::MAX && value.len() <= u32::MAX);
        assert(packed(shorter).data.len() + entry_encoding(key, value).len() <= TARGET_SIZE);
        assert(packed(shorter).num_entries == shorter.len());
        lemma_size_counts_entries(shorter);
        assert(packed(shorter).accepts(key, value));
    }
}

/// The wire form of a well-formed block splits back into the block.
pub proof fn lemma_raw_round_trip(block: BlockView)
    requires
        block.well_formed(),
        block.num_entries <= u32::MAX,
    ensures
        parsed_raw(block.raw()) == Some(block),
{
    let raw = block.raw();
    let n = block.num_entries as u32;
    lemma_be32_round_trip(n);
    let count_at = raw.len() - 4;
    assert(raw.subrange(count_at, raw.len() as int) =~= be32(n));
    assert(raw.subrange(0, count_at - 4 * n) =~= block.data);
    assert(raw.subrange(count_at - 4 * n, count_at) =~= block.offsets);
}

/// Decompressing a frame from which zstd recovers the wire form of a
/// well-formed block gives that block, field by field; the frame that
/// `compress` returns is such a frame.
pub proof fn lemma_compress_round_trip(block: BlockView, frame: Seq<u8>)
    requires
        block.well_formed(),
        block.num_entries <= u32::MAX,
        zstd_content(frame) == Some(block.raw()),
    ensures
        decompressed(frame) == Ok::<BlockView, Error>(block),
{
    lemma_raw_round_trip(block);
}

/// A block that was built by appends of entries whose encodings together
/// stay within the target size comes back from its compressed form field by
/// field, and a walk over it gives the entries in their order and then
/// nothing. `frame` is a frame from which zstd recovers the block's wire form,
/// as the one that `compress` returns is.
pub proof fn lemma_block_round_trip(entries: Seq<Pair>, frame: Seq<u8>)
    requires
        encoded_size(entries) <= TARGET_SIZE,
        forall|j: int|
            0 <= j < entries.len() ==> (#[trigger] entries[j]).0.len() <= u32::MAX
                && entries[j].1.len() <= u32::MAX,
        zstd_content(frame) == Some(packed(entries).raw()),
    ensures
        decompressed(frame) == Ok::<BlockView, Error>(packed(entries)),
        forall|i: nat|
            i < entries.len() ==> #[trigger] packed(entries).fetched(i) == Ok::<
                Option<Pair>,
                Error,
            >(Some(entries[i as int])),
        forall|i: nat|
            i >= entries.len() ==> #[trigger] packed(entries).fetched(i) == Ok::<
                Option<Pair>,
                Error,
            >(None),
{
    lemma_small_batches_accepted(entries);
    lemma_packed_fetch(entries, 0);
    lemma_raw_round_trip(packed(entries));
    assert forall|i: nat| i < entries.len() implies #[trigger] packed(entries).fetched(i) == Ok::<
        Option<Pair>,
        Error,
    >(Some(entries[i as int])) by {
        lemma_packed_fetch(entries, i);
    }
    assert forall|i: nat| i >= entries.len() implies #[trigger] packed(entries).fetched(i) == Ok::<
        Option<Pair>,
        Error,
    >(None) by {
        lemma_packed_fetch(entries, i);
    }
}

/// `zstd::encode_all` at level 0, zstd's default level. Whether it gives a
/// frame, and which, depends on `raw` alone. Decoding the frame recovers
/// `raw`: the compression is lossless.
#[verifier::external_body]
fn zstd_encode(raw: &[u8]) -> (r: Result<Vec<u8>, std::io::Error>)
    ensures
        match r {
            Ok(frame) => zstd_frame(raw@) == Some(frame@) && zstd_content(frame@) == Some(raw@),
            Err(_) => zstd_frame(raw@) is None,
        },
{
    zstd::encode_all(raw, 0)
}

/// `zstd::decode_all`: the bytes recovered from `frame`, or its error where
/// `frame` is no complete zstd frame.
#[verifier::external_body]
fn zstd_decode(frame: &[u8]) -> (r: Result<Vec<u8>, std::io::Error>)
    ensures
        match r {
            Ok(raw) => zstd_content(frame@) == Some(raw@),
            Err(_) => zstd_content(frame@) is None,
        },
{
    zstd::decode_all(frame)
}

/// `std::io::Error`, which the zstd calls report.
#[verifier::external_type_specification]
#[verifier::external_body]
pub struct ExIoError(std::io::Error);

/// The compressed wire form of a block.
pub struct CompressedBlock(pub Vec<u8>);

/// An accumulator of key/value entries in append order.
#[derive(Debug, PartialEq, Eq)]
pub struct Block {
    num_entries: u32,
    data: Vec<u8>,
    offsets: Vec<u8>,  // four big-endian bytes per entry
}

impl View for Block {
    type V = BlockView;

    closed spec fn view(&self) -> BlockView {
        BlockView {
            num_entries: self.num_entries as nat,
            data: self.data@,
            offsets: self.offsets@,
        }
    }
}

impl Default for Block {
    fn default() -> (b: Block)
        ensures
            b@ == BlockView::empty(),
    {
        Block::new()
    }
}

impl Block {
    /// The block without entries.
    pub fn new() -> (b: Block)
        ensures
            b@ == BlockView::empty(),
    {
        Block { num_entries: 0, data: Vec::new(), offsets: Vec::new() }
    }

    /// Whether no entry is held.
    pub fn is_empty(&self) -> (b: bool)
        ensures
            b == (self@.num_entries == 0),
    {
        self.num_entries == 0
    }

    /// Number of entries held.
    pub fn len(&self) -> (n: u32)
        ensures
            n == self@.num_entries,
    {
        self.num_entries
    }

    /// Drops every entry.
    pub fn clear(&mut self)
        ensures
            final(self)@ == BlockView::empty(),
    {
        self.num_entries = 0;
        self.data.clear();
        self.offsets.clear();
    }

    /// Whether an append of this entry would be accepted.
    pub fn accepts(&self, key: &ByteString, value: &ByteString) -> (b: bool)
        ensures
            b == self@.accepts(key@, value@),
            key@.len() <= u32::MAX,
            value@.len() <= u32::MAX,
    {
        let key_len = key.len();
        let value_len = value.len();
        let needed: u64 = encoded_length_u32(key_len) as u64 + encoded_length_u32(value_len) as u64
            + key_len as u64 + value_len as u64;
        let cur = self.data.len();
        let target: usize = TARGET_SIZE as usize;
        self.num_entries < u32::MAX && (cur == 0 || (cur <= target && needed <= (target - cur)
            as u64))
    }

    /// Appends one entry, unless the block already has data and the entry
    /// would take it past the target size, or no further entry can be
    /// counted: then it fails and the block stays as it was.
    pub fn append(&mut self, key: &ByteString, value: &ByteString) -> (r: Result<(), Error>)
        ensures
            old(self)@.accepts(key@, value@) ==> r is Ok && final(self)@ == old(self)@.appended(
                key@,
                value@,
            ),
            !old(self)@.accepts(key@, value@) ==> r == Err::<(), Error>(Error::BlockFull)
                && *final(self) == *old(self),
    {
        if !self.accepts(key, value) {
            return Err(Error::BlockFull);
        }
        let cur = self.data.len();
        put_be32(&mut self.offsets, cur as u32);
        self.num_entries = self.num_entries + 1;
        encode_u32(key.len(), &mut self.data);
        encode_u32(value.len(), &mut self.data);
        put_bytes(&mut self.data, key.as_ref());
        put_bytes(&mut self.data, value.as_ref());
        assert(self.data@ =~= old(self).data@ + entry_encoding(key@, value@));
        Ok(())
    }

    /// The uncompressed wire form: the data, the offsets, the entry count.
    pub fn to_raw(&self) -> (raw: Vec<u8>)
        ensures
            raw@ == self@.raw(),
    {
        let mut raw: Vec<u8> = Vec::new();
        put_bytes(&mut raw, self.data.as_slice());
        put_bytes(&mut raw, self.offsets.as_slice());
        put_be32(&mut raw, self.num_entries);
        assert(raw@ =~= self@.raw());
        raw
    }

    /// Splits an uncompressed wire form into a block, from its tail. Fails
    /// exactly when `raw` is shorter than four bytes, or than the offsets
    /// that its entry count calls for.
    pub fn from_raw(raw: Vec<u8>) -> (r: Result<Block, Error>)
        ensures
            match parsed_raw(raw@) {
                Some(block) => r is Ok && r->Ok_0@ == block && block.well_formed(),
                None => r == Err::<Block, Error>(Error::Truncated),
            },
    {
        let ghost whole = raw@;
        let mut raw = raw;
        if raw.len() < 4 {
            return Err(Error::Truncated);
        }
        let count_at: usize = raw.len() - 4;
        let num_entries = get_be32(raw.as_slice(), count_at);
        if (count_at as u64) < 4 * (num_entries as u64) {
            return Err(Error::Truncated);
        }
        let offsets_at: usize = count_at - 4 * (num_entries as usize);
        raw.truncate(count_at);
        let offsets = raw.split_off(offsets_at);
        let block = Block { num_entries, data: raw, offsets };
        assert(block@.data =~= parsed_raw(whole)->Some_0.data);
        assert(block@.offsets =~= parsed_raw(whole)->Some_0.offsets);
        Ok(block)
    }

    /// Compresses the wire form of the block and appends it to `w`, then
    /// drops every entry. What is appended decompresses to the block as it
    /// was, where that recorded one offset per entry. It fails exactly when
    /// the codec gives no frame, and then nothing changes.
    pub fn drain(&mut self, w: &mut Vec<u8>) -> (r: Result<(), Error>)
        ensures
            match zstd_frame(old(self)@.raw()) {
                Some(frame) => {
                    &&& r is Ok
                    &&& final(w)@ == old(w)@ + frame
                    &&& final(self)@ == BlockView::empty()
                    &&& zstd_content(frame) == Some(old(self)@.raw())
                    &&& old(self)@.well_formed() ==> decompressed(frame) == Ok::<BlockView, Error>(
                        old(self)@,
                    )
                },
                None => {
                    &&& r == Err::<(), Error>(Error::Codec)
                    &&& final(w)@ == old(w)@
                    &&& *final(self) == *old(self)
                },
            },
    {
        let compressed = self.compress()?;
        put_bytes(w, compressed.0.as_slice());
        self.clear();
        Ok(())
    }

    /// The compressed wire form of the block, which `decompress` turns back
    /// into the block where one offset is recorded per entry. It fails
    /// exactly when the codec gives no frame. The block stays as it is.
    pub fn compress(&self) -> (r: Result<CompressedBlock, Error>)
        ensures
            match zstd_frame(self@.raw()) {
                Some(frame) => {
                    &&& r is Ok
                    &&& r->Ok_0.0@ == frame
                    &&& zstd_content(frame) == Some(self@.raw())
                    &&& self@.well_formed() ==> decompressed(frame) == Ok::<BlockView, Error>(
                        self@,
                    )
                },
                None => r is Err && r->Err_0 == Error::Codec,
            },
    {
        let raw = self.to_raw();
        proof {
            if self@.well_formed() {
                lemma_raw_round_trip(self@);
            }
        }
        match zstd_encode(raw.as_slice()) {
            Ok(frame) => Ok(CompressedBlock(frame)),
            Err(_) => Err(Error::Codec),
        }
    }

    /// Recovers a block from its compressed wire form. The block records one
    /// offset per entry.
    pub fn decompress(compressed: CompressedBlock) -> (r: Result<Block, Error>)
        ensures
            match decompressed(compressed.0@) {
                Ok(block) => r is Ok && r->Ok_0@ == block && block.well_formed(),
                Err(e) => r == Err::<Block, Error>(e),
            },
    {
        match zstd_decode(compressed.0.as_slice()) {
            Ok(raw) => Block::from_raw(raw),
            Err(_) => Err(Error::Codec),
        }
    }

    /// Entry `i`, decoded from the place that its recorded offset names, or
    /// nothing where the block has no entry `i`.
    pub fn fetch_entry(&self, i: u32) -> (r: Result<Option<(ByteString, ByteString)>, Error>)
        ensures
            outcome_view(r) == self@.fetched(i as nat),
    {
        if i >= self.num_entries {
            return Ok(None);
        }
        if (self.offsets.len() as u64) < 4 * (i as u64) + 4 {
            return Err(Error::Truncated);
        }
        let at: usize = 4 * (i as usize);
        let off = get_be32(self.offsets.as_slice(), at);
        let data = self.data.as_slice();
        if off as u64 > data.len() as u64 {
            return Err(Error::Truncated);
        }
        let rest = slice_subrange(data, off as usize, data.len());
        let Ok((key_len, taken)) = decode_u32(rest) else {
            return Err(Error::Truncated);
        };
        let rest = slice_subrange(rest, taken, rest.len());
        let Ok((value_len, taken)) = decode_u32(rest) else {
            return Err(Error::Truncated);
        };
        let body = slice_subrange(rest, taken, rest.len());
        if (body.len() as u64) < key_len as u64 + value_len as u64 {
            return Err(Error::Truncated);
        }
        let key = slice_to_vec(slice_subrange(body, 0, key_len as usize));
        let value = slice_to_vec(
            slice_subrange(body, key_len as usize, key_len as usize + value_len as usize),
        );
        Ok(Some((ByteString::from_short_vec(key), ByteString::from_short_vec(value))))
    }

    /// An iterator over the entries, in append order, that borrows the block.
    pub fn iter<'a>(&'a self) -> (it: BlockIter<'a>)
        ensures
            it.block() == self@,
            it.position() == 0,
    {
        BlockIter { underlying: self, i: 0 }
    }

    /// An iterator over the entries, in append order, that owns the block.
    pub fn into_iter(self) -> (it: OwnedBlockIter)
        ensures
            it.block() == self@,
            it.position() == 0,
    {
        OwnedBlockIter { underlying: self, i: 0 }
    }
}

/// The entries of a borrowed block, one per step.
pub struct BlockIter<'a> {
    underlying: &'a Block,
    i: u32,
}

impl<'a> BlockIter<'a> {
    /// The block that is walked.
    pub closed spec fn block(&self) -> BlockView {
        self.underlying@
    }

    /// Index of the entry that the next step gives.
    pub closed spec fn position(&self) -> nat {
        self.i as nat
    }

    /// The entry at the position, and a move to the next one; past the last
    /// entry nothing, however often it is asked. An entry that cannot be
    /// decoded is reported as an error and passed over.
    pub fn next(&mut self) -> (r: Result<Option<(ByteString, ByteString)>, Error>)
        ensures
            final(self).block() == old(self).block(),
            final(self).position() == if old(self).position() < old(self).block().num_entries {
                old(self).position() + 1
            } else {
                old(self).position()
            },
            outcome_view(r) == old(self).block().fetched(old(self).position()),
    {
        if self.i >= self.underlying.len() {
            return Ok(None);
        }
        let cur = self.i;
        self.i = self.i + 1;
        self.underlying.fetch_entry(cur)
    }
}

/// The entries of an owned block, one per step.
pub struct OwnedBlockIter {
    underlying: Block,
    i: u32,
}

impl OwnedBlockIter {
    /// The block that is walked.
    pub closed spec fn block(&self) -> BlockView {
        self.underlying@
    }

    /// Index of the entry that the next step gives.
    pub closed spec fn position(&self) -> nat {
        self.i as nat
    }

    /// The entry at the position, and a move to the next one; past the last
    /// entry nothing, however often it is asked. An entry that cannot be
    /// decoded is reported as an error and passed over.
    pub fn next(&mut self) -> (r: Result<Option<(ByteString, ByteString)>, Error>)
        ensures
            final(self).block() == old(self).block(),
            final(self).position() == if old(self).position() < old(self).block().num_entries {
                old(self).position() + 1
            } else {
                old(self).position()
            },
            outcome_view(r) == old(self).block().fetched(old(self).position()),
    {
        if self.i >= self.underlying.len() {
            return Ok(None);
        }
        let cur = self.i;
        self.i = self.i + 1;
        self.underlying.fetch_entry(cur)
    }
}

} // verus!
