//! Bookkeeping of the table writer and reader.
//!
//! A table file is its compressed blocks back to back, then the serialized
//! footer, then the footer's starting offset in eight big-endian bytes. The
//! footer lists, for each block, the file offset at which the block ends.
//! This module decides what is written and which byte ranges are read; the
//! caller moves the bytes and serializes the footer.

use crate::block::{
    decompressed, zstd_content, zstd_frame, Block, BlockView, CompressedBlock, OwnedBlockIter,
    Pair,
};
use crate::endian::{be64, from_be64, get_be64, lemma_be64_round_trip, put_be64, put_bytes};
use crate::model::{
    consistent, entries_of, flushed_entries, increasing, lemma_block_error_stays,
    lemma_extend_consistent, lemma_flush_consistent, lemma_start_consistent,
    lemma_table_error_stays, table_entries,
};
use crate::{ByteString, Error};
use vstd::prelude::*;
use vstd::slice::{slice_subrange, slice_to_vec};

verus! {

/// The footer of a table: for each block, in write order, the file offset at
/// which it ends.
#[derive(Debug, PartialEq, Eq)]
pub struct Metadata {
    pub bookends: Vec<u64>,
}

impl Default for Metadata {
    fn default() -> (m: Metadata)
        ensures
            m.bookends@ == Seq::<u64>::empty(),
    {
        Metadata { bookends: Vec::new() }
    }
}

/// What a writer holds, and what it has done so far.
pub struct WriterView {
    /// Number of bytes handed to the sink so far.
    pub written: nat,
    /// End offsets of the blocks flushed so far.
    pub bookends: Seq<u64>,
    /// The block in progress.
    pub cur: BlockView,
    /// Every entry appended so far, in order.
    pub entries: Seq<Pair>,
    /// Every byte handed to the sink so far, in order.
    pub sent: Seq<u8>,
}

impl WriterView {
    /// A writer at the start of an empty sink.
    pub open spec fn start() -> WriterView {
        WriterView {
            written: 0,
            bookends: Seq::empty(),
            cur: BlockView::empty(),
            entries: Seq::empty(),
            sent: Seq::empty(),
        }
    }

    /// The writer after `frame`, the compressed block in progress, went to
    /// the sink.
    pub open spec fn flushed(self, frame: Seq<u8>) -> WriterView {
        WriterView {
            written: self.written + frame.len(),
            bookends: self.bookends.push((self.written + frame.len()) as u64),
            cur: BlockView::empty(),
            entries: self.entries,
            sent: self.sent + frame,
        }
    }

    /// The writer after an append to the block in progress.
    pub open spec fn extended(self, key: Seq<u8>, value: Seq<u8>) -> WriterView {
        WriterView {
            cur: self.cur.appended(key, value),
            entries: self.entries.push((key, value)),
            ..self
        }
    }

    /// What recording `frame` as the flushed block in progress gives: an
    /// empty frame is no frame, and a block must end within what 64 bits
    /// address.
    pub open spec fn committed(self, frame: Seq<u8>) -> Result<WriterView, Error> {
        if frame.len() == 0 {
            Err(Error::Codec)
        } else if self.written + frame.len() > u64::MAX {
            Err(Error::OffsetOverflow)
        } else {
            Ok(self.flushed(frame))
        }
    }

    /// What a flush of the block in progress gives.
    pub open spec fn after_flush(self) -> Result<WriterView, Error> {
        match zstd_frame(self.cur.raw()) {
            None => Err(Error::Codec),
            Some(frame) => self.committed(frame),
        }
    }

    /// What an append gives: the entry joins the block in progress where
    /// that block accepts it; else the block is flushed first and the entry
    /// starts the next one.
    pub open spec fn after_append(self, key: Seq<u8>, value: Seq<u8>) -> Result<
        WriterView,
        Error,
    > {
        if self.cur.accepts(key, value) {
            Ok(self.extended(key, value))
        } else {
            match self.after_flush() {
                Ok(flushed) => Ok(flushed.extended(key, value)),
                Err(e) => Err(e),
            }
        }
    }

    /// What a finish gives: the block in progress is flushed unless it is
    /// empty.
    pub open spec fn after_finish(self) -> Result<WriterView, Error> {
        if self.cur.num_entries == 0 {
            Ok(self)
        } else {
            self.after_flush()
        }
    }
}

/// Batches entries into blocks and keeps count of what went to the sink.
pub struct Writer {
    written: u64,
    meta: Metadata,
    cur: Block,
    entries: Ghost<Seq<Pair>>,
    sent: Ghost<Seq<u8>>,
}

impl View for Writer {
    type V = WriterView;

    closed spec fn view(&self) -> WriterView {
        WriterView {
            written: self.written as nat,
            bookends: self.meta.bookends@,
            cur: self.cur@,
            entries: self.entries@,
            sent: self.sent@,
        }
    }
}

impl Writer {
    /// A writer at the start of an empty sink.
    pub fn new() -> (w: Writer)
        ensures
            w@ == WriterView::start(),
            consistent(w@),
    {
        proof {
            lemma_start_consistent();
        }
        Writer {
            written: 0,
            meta: Metadata::default(),
            cur: Block::new(),
            entries: Ghost(Seq::empty()),
            sent: Ghost(Seq::empty()),
        }
    }

    /// The compressed block that has to go to the sink before this entry can
    /// be appended, if the block in progress does not accept the entry. It
    /// fails exactly when a block is due and the codec gives no frame.
    pub fn frame_before(&self, key: &ByteString, value: &ByteString) -> (r: Result<
        Option<CompressedBlock>,
        Error,
    >)
        ensures
            self@.cur.accepts(key@, value@) ==> r is Ok && r->Ok_0 is None,
            !self@.cur.accepts(key@, value@) ==> match zstd_frame(self@.cur.raw()) {
                Some(frame) => {
                    &&& r is Ok
                    &&& r->Ok_0 is Some
                    &&& r->Ok_0->Some_0.0@ == frame
                    &&& zstd_content(frame) == Some(self@.cur.raw())
                },
                None => r is Err && r->Err_0 == Error::Codec,
            },
    {
        if self.cur.accepts(key, value) {
            return Ok(None);
        }
        match self.cur.compress() {
            Ok(frame) => Ok(Some(frame)),
            Err(e) => Err(e),
        }
    }

    /// The compressed block that has to go to the sink before the table can
    /// be finished, if the block in progress holds an entry. It fails exactly
    /// when a block is due and the codec gives no frame.
    pub fn frame_at_finish(&self) -> (r: Result<Option<CompressedBlock>, Error>)
        ensures
            self@.cur.num_entries == 0 ==> r is Ok && r->Ok_0 is None,
            self@.cur.num_entries != 0 ==> match zstd_frame(self@.cur.raw()) {
                Some(frame) => {
                    &&& r is Ok
                    &&& r->Ok_0 is Some
                    &&& r->Ok_0->Some_0.0@ == frame
                    &&& zstd_content(frame) == Some(self@.cur.raw())
                },
                None => r is Err && r->Err_0 == Error::Codec,
            },
    {
        if self.cur.is_empty() {
            return Ok(None);
        }
        match self.cur.compress() {
            Ok(frame) => Ok(Some(frame)),
            Err(e) => Err(e),
        }
    }

    /// Records that `frame`, the compressed block in progress, went to the
    /// sink: counts its bytes, notes where it ends, and starts an empty
    /// block. An empty frame, or one that would end past what 64 bits
    /// address, is refused, and nothing changes. A writer that was in step
    /// with what it sent stays so, where the codec recovers the block from
    /// `frame`.
    pub fn commit(&mut self, frame: &[u8]) -> (r: Result<(), Error>)
        ensures
            match old(self)@.committed(frame@) {
                Ok(next) => r is Ok && final(self)@ == next,
                Err(e) => r == Err::<(), Error>(e) && *final(self) == *old(self),
            },
            r is Ok && consistent(old(self)@) && zstd_content(frame@) == Some(old(self)@.cur.raw())
                ==> consistent(final(self)@) && flushed_entries(final(self)@) == old(
                self,
            )@.entries,
    {
        let len = frame.len();
        if len == 0 {
            return Err(Error::Codec);
        }
        if len as u64 > u64::MAX - self.written {
            return Err(Error::OffsetOverflow);
        }
        proof {
            if consistent(self@) && zstd_content(frame@) == Some(self@.cur.raw()) {
                lemma_flush_consistent(self@, frame@);
            }
        }
        self.written = self.written + len as u64;
        self.meta.bookends.push(self.written);
        self.cur.clear();
        self.sent = Ghost(self.sent@ + frame@);
        Ok(())
    }

    /// Compresses the block in progress onto `sink`, records where it ends,
    /// and starts an empty block. Where it fails, nothing changes.
    fn flush(&mut self, sink: &mut Vec<u8>) -> (r: Result<(), Error>)
        ensures
            match old(self)@.after_flush() {
                Ok(next) => {
                    let frame = zstd_frame(old(self)@.cur.raw())->Some_0;
                    &&& r is Ok
                    &&& final(self)@ == next
                    &&& final(sink)@ == old(sink)@ + frame
                    &&& zstd_content(frame) == Some(old(self)@.cur.raw())
                    &&& consistent(old(self)@) ==> consistent(next) && flushed_entries(next) == old(
                        self,
                    )@.entries
                },
                Err(e) => {
                    &&& r == Err::<(), Error>(e)
                    &&& final(sink)@ == old(sink)@
                    &&& *final(self) == *old(self)
                },
            },
    {
        let compressed = match self.cur.compress() {
            Ok(compressed) => compressed,
            Err(e) => {
                return Err(e);
            },
        };
        match self.commit(compressed.0.as_slice()) {
            Ok(_) => {},
            Err(e) => {
                return Err(e);
            },
        }
        put_bytes(sink, compressed.0.as_slice());
        Ok(())
    }

    /// Adds one entry. Where the block in progress takes it, nothing goes to
    /// the sink. Where it does not, that block is flushed onto `sink` first,
    /// as a frame from which the codec recovers it, and the entry starts the
    /// next block. It fails exactly when that flush fails, and then nothing
    /// changes. A writer that was in step with what it sent stays so.
    pub fn append(&mut self, key: &ByteString, value: &ByteString, sink: &mut Vec<u8>) -> (r:
        Result<(), Error>)
        ensures
            match old(self)@.after_append(key@, value@) {
                Ok(next) => {
                    &&& r is Ok
                    &&& final(self)@ == next
                    &&& final(sink)@ == old(sink)@ + next.sent.skip(old(self)@.sent.len() as int)
                    &&& consistent(old(self)@) ==> consistent(next)
                },
                Err(e) => {
                    &&& r == Err::<(), Error>(e)
                    &&& final(sink)@ == old(sink)@
                    &&& *final(self) == *old(self)
                },
            },
            old(self)@.cur.accepts(key@, value@) ==> final(sink)@ == old(sink)@,
            r is Ok && !old(self)@.cur.accepts(key@, value@) ==> {
                let frame = zstd_frame(old(self)@.cur.raw())->Some_0;
                &&& final(sink)@ == old(sink)@ + frame
                &&& zstd_content(frame) == Some(old(self)@.cur.raw())
            },
    {
        let ghost before = self@;
        if !self.cur.accepts(key, value) {
            match self.flush(sink) {
                Ok(_) => {},
                Err(e) => {
                    return Err(e);
                },
            }
        }
        let ghost flushed = self@;
        proof {
            if consistent(flushed) {
                lemma_extend_consistent(flushed, key@, value@);
            }
            assert(before.sent.skip(before.sent.len() as int) =~= Seq::<u8>::empty());
            assert(old(sink)@ + Seq::<u8>::empty() =~= old(sink)@);
            assert(flushed.sent.skip(before.sent.len() as int) =~= flushed.sent.subrange(
                before.sent.len() as int,
                flushed.sent.len() as int,
            ));
        }
        let taken = self.cur.append(key, value);
        assert(taken is Ok);
        self.entries = Ghost(self.entries@.push((key@, value@)));
        proof {
            if !before.cur.accepts(key@, value@) {
                let frame = zstd_frame(before.cur.raw())->Some_0;
                assert((before.sent + frame).skip(before.sent.len() as int) =~= frame);
            }
        }
        Ok(())
    }

    /// Flushes the block in progress onto `sink` unless it is empty, and
    /// hands out the footer together with the offset at which the footer
    /// starts, which is the number of bytes sent. It fails exactly when that
    /// flush fails, and the sink is then as it was. Of a writer that was in
    /// step with what it sent, the bytes sent read back, with the footer's
    /// block ends, as exactly the entries that were appended, in their order,
    /// and each block ends after the one before it.
    pub fn finish(self, sink: &mut Vec<u8>) -> (r: Result<(Metadata, u64), Error>)
        ensures
            match self@.after_finish() {
                Ok(done) => {
                    &&& r is Ok
                    &&& r->Ok_0.0.bookends@ == done.bookends
                    &&& r->Ok_0.1 == done.written
                    &&& final(sink)@ == old(sink)@ + done.sent.skip(self@.sent.len() as int)
                    &&& consistent(self@) ==> {
                        &&& consistent(done)
                        &&& done.cur.num_entries == 0
                        &&& done.written == done.sent.len()
                        &&& increasing(done.bookends)
                        &&& table_entries(done.sent, done.bookends, done.bookends.len()) == Ok::<
                            Seq<Pair>,
                            Error,
                        >(self@.entries)
                    }
                },
                Err(e) => r is Err && r->Err_0 == e && final(sink)@ == old(sink)@,
            },
            self@.cur.num_entries == 0 ==> final(sink)@ == old(sink)@,
            r is Ok && self@.cur.num_entries != 0 ==> {
                let frame = zstd_frame(self@.cur.raw())->Some_0;
                &&& final(sink)@ == old(sink)@ + frame
                &&& zstd_content(frame) == Some(self@.cur.raw())
            },
    {
        let mut writer = self;
        let ghost before = writer@;
        if !writer.cur.is_empty() {
            match writer.flush(sink) {
                Ok(_) => {},
                Err(e) => {
                    return Err(e);
                },
            }
        }
        proof {
            let done = writer@;
            assert(before.sent.skip(before.sent.len() as int) =~= Seq::<u8>::empty());
            assert(old(sink)@ + Seq::<u8>::empty() =~= old(sink)@);
            if before.cur.num_entries != 0 {
                let frame = zstd_frame(before.cur.raw())->Some_0;
                assert((before.sent + frame).skip(before.sent.len() as int) =~= frame);
            }
            if consistent(before) {
                assert(flushed_entries(done) =~= before.entries);
            }
        }
        Ok((writer.meta, writer.written))
    }
}

/// Appends the serialized footer and the eight bytes that say where it
/// starts, which ends the file.
pub fn write_footer(sink: &mut Vec<u8>, footer: &[u8], footer_start: u64)
    ensures
        final(sink)@ == old(sink)@ + footer@ + be64(footer_start),
{
    put_bytes(sink, footer);
    put_be64(sink, footer_start);
}

/// Where the footer lies in a file of `file_len` bytes whose last eight bytes
/// are `trailer`: its start and its length. The file is too short where it
/// cannot hold the trailer, and the trailer is corrupt where the start that
/// it names lies past the trailer's own place.
pub open spec fn located_footer(file_len: u64, trailer: Seq<u8>) -> Result<(u64, u64), Error> {
    if file_len < 8 || trailer.len() != 8 {
        Err(Error::Truncated)
    } else if from_be64(trailer) > file_len - 8 {
        Err(Error::CorruptFooter)
    } else {
        Ok((from_be64(trailer), (file_len - 8 - from_be64(trailer)) as u64))
    }
}

/// The byte range of block `idx` under `bookends`, as start and length:
/// `None` past the last block, an error where the block would end before it
/// starts.
pub open spec fn located_block(bookends: Seq<u64>, idx: int) -> Result<Option<(u64, u64)>, Error> {
    if idx >= bookends.len() {
        Ok(None)
    } else {
        let start = if idx == 0 {
            0
        } else {
            bookends[idx - 1]
        };
        let end = bookends[idx];
        if end < start {
            Err(Error::CorruptFooter)
        } else {
            Ok(Some((start, (end - start) as u64)))
        }
    }
}

/// What reading block `idx` from the bytes of a file gives: nothing past the
/// last block, an error where the block's range is not within the file or its
/// bytes do not decompress to a block, else the block.
pub open spec fn block_read(file: Seq<u8>, bookends: Seq<u64>, idx: int) -> Result<
    Option<BlockView>,
    Error,
> {
    match located_block(bookends, idx) {
        Err(e) => Err(e),
        Ok(None) => Ok(None),
        Ok(Some((start, len))) => if start + len > file.len() {
            Err(Error::Truncated)
        } else {
            match decompressed(file.subrange(start as int, start + len)) {
                Ok(block) => Ok(Some(block)),
                Err(e) => Err(e),
            }
        },
    }
}

/// In a file that ends as `write_footer` ends it, the footer is found where
/// it was written.
pub proof fn lemma_footer_found(blocks: Seq<u8>, footer: Seq<u8>)
    requires
        blocks.len() + footer.len() + 8 <= u64::MAX,
    ensures
        ({
            let file = blocks + footer + be64(blocks.len() as u64);
            located_footer(file.len() as u64, file.subrange(file.len() - 8, file.len() as int))
                == Ok::<(u64, u64), Error>((blocks.len() as u64, footer.len() as u64))
        }),
{
    let file = blocks + footer + be64(blocks.len() as u64);
    lemma_be64_round_trip(blocks.len() as u64);
    assert(file.subrange(file.len() - 8, file.len() as int) =~= be64(blocks.len() as u64));
}

/// The offset of the eight-byte trailer in a file of `file_len` bytes; fails
/// exactly when the file is shorter than the trailer.
pub fn trailer_start(file_len: u64) -> (r: Result<u64, Error>)
    ensures
        file_len >= 8 ==> r == Ok::<u64, Error>((file_len - 8) as u64),
        file_len < 8 ==> r == Err::<u64, Error>(Error::Truncated),
{
    if file_len < 8 {
        return Err(Error::Truncated);
    }
    Ok(file_len - 8)
}

/// Start and length of the footer, from the file's length and its last eight
/// bytes.
pub fn footer_extent(file_len: u64, trailer: &[u8]) -> (r: Result<(u64, u64), Error>)
    ensures
        r == located_footer(file_len, trailer@),
{
    let trailer_at = trailer_start(file_len)?;
    if trailer.len() != 8 {
        return Err(Error::Truncated);
    }
    let start = get_be64(trailer, 0);
    assert(trailer@.subrange(0, 8) =~= trailer@);
    if start > trailer_at {
        return Err(Error::CorruptFooter);
    }
    Ok((start, trailer_at - start))
}

/// A finished table, known by its footer.
pub struct Table {
    meta: Metadata,
}

impl Table {
    /// The block end offsets of the footer.
    pub closed spec fn bookends(&self) -> Seq<u64> {
        self.meta.bookends@
    }

    /// The table that the parsed footer describes.
    pub fn new(meta: Metadata) -> (t: Table)
        ensures
            t.bookends() == meta.bookends@,
    {
        Table { meta }
    }

    /// Number of blocks.
    pub fn num_blocks(&self) -> (n: usize)
        ensures
            n == self.bookends().len(),
    {
        self.meta.bookends.len()
    }

    /// Start and length of the bytes of block `idx` in the file.
    pub fn block_extent(&self, idx: usize) -> (r: Result<Option<(u64, u64)>, Error>)
        ensures
            r == located_block(self.bookends(), idx as int),
    {
        if idx >= self.meta.bookends.len() {
            return Ok(None);
        }
        let start: u64 = if idx == 0 {
            0
        } else {
            self.meta.bookends[idx - 1]
        };
        let end: u64 = self.meta.bookends[idx];
        if end < start {
            return Err(Error::CorruptFooter);
        }
        Ok(Some((start, end - start)))
    }

    /// Block `idx`, read from a file that is held in memory.
    pub fn read_block(&self, file: &[u8], idx: usize) -> (r: Result<Option<Block>, Error>)
        ensures
            match block_read(file@, self.bookends(), idx as int) {
                Ok(Some(block)) => r is Ok && r->Ok_0 is Some && r->Ok_0->Some_0@ == block,
                Ok(None) => r is Ok && r->Ok_0 is None,
                Err(e) => r is Err && r->Err_0 == e,
            },
    {
        let Some((start, len)) = self.block_extent(idx)? else {
            return Ok(None);
        };
        let have: u64 = file.len() as u64;
        if start > have || len > have - start {
            return Err(Error::Truncated);
        }
        let bytes = slice_to_vec(slice_subrange(file, start as usize, (start + len) as usize));
        match Block::decompress(CompressedBlock(bytes)) {
            Ok(block) => Ok(Some(block)),
            Err(e) => Err(e),
        }
    }

    /// All entries of the table, in order, from a file that is held in
    /// memory: what a walk gives, or the first error that it meets.
    pub fn entries(&self, file: &[u8]) -> (r: Result<Vec<(ByteString, ByteString)>, Error>)
        ensures
            match table_entries(file@, self.bookends(), self.bookends().len()) {
                Ok(pairs) => r is Ok && pairs_view(r->Ok_0@) == pairs,
                Err(e) => r is Err && r->Err_0 == e,
            },
    {
        let ghost bookends = self.bookends();
        let ghost blocks = bookends.len();
        let mut out: Vec<(ByteString, ByteString)> = Vec::new();
        let mut it = self.iter();
        assert(pairs_view(out@) =~= Seq::<Pair>::empty());
        loop
            invariant
                bookends == self.bookends(),
                blocks == bookends.len(),
                it.bookends() == bookends,
                it.next_block() <= blocks,
                match it.current() {
                    None => it.next_block() == 0 && pairs_view(out@) == Seq::<Pair>::empty(),
                    Some((block, position)) => {
                        let before = table_entries(file@, bookends, (it.next_block() - 1) as nat);
                        &&& it.next_block() >= 1
                        &&& position <= block.num_entries
                        &&& block_read(file@, bookends, it.next_block() - 1) == Ok::<
                            Option<BlockView>,
                            Error,
                        >(Some(block))
                        &&& before is Ok
                        &&& entries_of(block, position) is Ok
                        &&& pairs_view(out@) == before->Ok_0 + entries_of(block, position)->Ok_0
                    },
                },
            decreases
                    blocks - it.next_block(),
                    match it.current() {
                        Some((block, position)) => block.num_entries - position,
                        None => 0,
                    },
        {
            let ghost at = it.next_block();
            let ghost out_before = out@;
            proof {
                match it.current() {
                    Some((block, position)) => {
                        if position < block.num_entries {
                            if entries_of(block, position + 1) is Err {
                                lemma_block_error_stays(block, position + 1, block.num_entries);
                                lemma_table_error_stays(file@, bookends, at, blocks);
                            }
                        } else {
                            if at < blocks && table_entries(file@, bookends, at + 1) is Err {
                                lemma_table_error_stays(file@, bookends, at + 1, blocks);
                            }
                        }
                    },
                    None => {
                        if at < blocks && table_entries(file@, bookends, at + 1) is Err {
                            lemma_table_error_stays(file@, bookends, at + 1, blocks);
                        }
                    },
                }
            }
            match it.next() {
                Err(e) => {
                    return Err(e);
                },
                Ok(Step::End) => {
                    return Ok(out);
                },
                Ok(Step::Entry(key, value)) => {
                    out.push((key, value));
                    assert(pairs_view(out@) =~= pairs_view(out_before).push((key@, value@)));
                },
                Ok(Step::Fetch { start, len }) => {
                    let have: u64 = file.len() as u64;
                    if start > have || len > have - start {
                        return Err(Error::Truncated);
                    }
                    let bytes = slice_to_vec(
                        slice_subrange(file, start as usize, (start + len) as usize),
                    );
                    match Block::decompress(CompressedBlock(bytes)) {
                        Ok(block) => {
                            it.supply(block);
                            assert(pairs_view(out@) =~= pairs_view(out@) + Seq::<Pair>::empty());
                        },
                        Err(e) => {
                            return Err(e);
                        },
                    }
                },
            }
        }
    }

    /// An iterator over all entries of the table, block after block.
    pub fn iter<'a>(&'a self) -> (it: TableIter<'a>)
        ensures
            it.bookends() == self.bookends(),
            it.current() is None,
            it.next_block() == 0,
    {
        TableIter { table: self, cur: None, next_block: 0 }
    }
}

/// What a list of entries holds, as byte sequences.
pub open spec fn pairs_view(entries: Seq<(ByteString, ByteString)>) -> Seq<Pair> {
    Seq::new(entries.len(), |i: int| (entries[i].0@, entries[i].1@))
}

/// One step of a walk over a table.
pub enum Step {
    /// The next entry.
    Entry(ByteString, ByteString),
    /// The block whose bytes lie at `start`, `len` bytes long, is needed:
    /// read and decompress it, supply it, and ask again.
    Fetch { start: u64, len: u64 },
    /// No entry is left.
    End,
}

/// What a step holds, as byte sequences.
pub enum StepView {
    Entry(Pair),
    Fetch { start: u64, len: u64 },
    End,
}

impl View for Step {
    type V = StepView;

    open spec fn view(&self) -> StepView {
        match *self {
            Step::Entry(key, value) => StepView::Entry((key@, value@)),
            Step::Fetch { start, len } => StepView::Fetch { start, len },
            Step::End => StepView::End,
        }
    }
}

/// What the outcome of a step holds, as byte sequences.
pub open spec fn step_view(r: Result<Step, Error>) -> Result<StepView, Error> {
    match r {
        Ok(step) => Ok(step@),
        Err(e) => Err(e),
    }
}

/// What a walk does where the block at hand, if any, has no entry left: it
/// asks for the next block, or ends after the last one.
pub open spec fn next_fetch(bookends: Seq<u64>, next_block: nat) -> Result<StepView, Error> {
    match located_block(bookends, next_block as int) {
        Ok(Some((start, len))) => Ok(StepView::Fetch { start, len }),
        Ok(None) => Ok(StepView::End),
        Err(e) => Err(e),
    }
}

/// A walk over the entries of a table: the block at hand and the index of the
/// block that comes after it.
pub struct TableIter<'a> {
    table: &'a Table,
    cur: Option<OwnedBlockIter>,
    next_block: usize,
}

impl<'a> TableIter<'a> {
    /// The block end offsets of the table that is walked.
    pub closed spec fn bookends(&self) -> Seq<u64> {
        self.table.bookends()
    }

    /// The block at hand and the position in it, if a block was supplied.
    pub closed spec fn current(&self) -> Option<(BlockView, nat)> {
        match self.cur {
            Some(it) => Some((it.block(), it.position())),
            None => None,
        }
    }

    /// Index of the block that is asked for next.
    pub closed spec fn next_block(&self) -> nat {
        self.next_block as nat
    }

    /// What the next step gives in this state.
    pub open spec fn upcoming(&self) -> Result<StepView, Error> {
        match self.current() {
            Some((block, position)) if position < block.num_entries => match block.fetched(
                position,
            ) {
                Ok(Some(pair)) => Ok(StepView::Entry(pair)),
                Ok(None) => Ok(StepView::End),
                Err(e) => Err(e),
            },
            _ => next_fetch(self.bookends(), self.next_block()),
        }
    }

    /// The next entry of the block at hand; where that block has none left,
    /// or no block was supplied yet, the byte range of the next block, or the
    /// end after the last block. Only a step within a block moves the walk.
    pub fn next(&mut self) -> (r: Result<Step, Error>)
        ensures
            step_view(r) == old(self).upcoming(),
            final(self).bookends() == old(self).bookends(),
            final(self).next_block() == old(self).next_block(),
            final(self).current() == match old(self).current() {
                Some((block, position)) if position < block.num_entries => Some(
                    (block, position + 1),
                ),
                other => other,
            },
    {
        if let Some(mut it) = self.cur.take() {
            let step = it.next();
            self.cur = Some(it);
            match step {
                Ok(Some((key, value))) => {
                    return Ok(Step::Entry(key, value));
                },
                Ok(None) => {},
                Err(e) => {
                    return Err(e);
                },
            }
        }
        match self.table.block_extent(self.next_block) {
            Ok(Some((start, len))) => Ok(Step::Fetch { start, len }),
            Ok(None) => Ok(Step::End),
            Err(e) => Err(e),
        }
    }

    /// Takes the block that the last step asked for and moves on to the one
    /// after it. Where the table has no block left to ask for, the block is
    /// refused and nothing changes.
    pub fn supply(&mut self, block: Block) -> (taken: bool)
        ensures
            taken == (old(self).next_block() < old(self).bookends().len()),
            final(self).bookends() == old(self).bookends(),
            taken ==> final(self).current() == Some((block@, 0nat)) && final(self).next_block()
                == old(self).next_block() + 1,
            !taken ==> final(self).current() == old(self).current() && final(self).next_block()
                == old(self).next_block(),
    {
        if self.next_block >= self.table.num_blocks() {
            return false;
        }
        self.cur = Some(block.into_iter());
        self.next_block = self.next_block + 1;
        true
    }
}

} // verus!
