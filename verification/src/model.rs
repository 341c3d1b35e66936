//! What a written table reads back as.
//!
//! The reader is followed here as a function from the bytes of a file and
//! the footer's block ends to the entries that a walk over all blocks gives.
//! A writer keeps in step with it: at every moment the bytes that it has sent
//! read back as the entries that it has flushed. The laws below show that
//! each step of the writer keeps it so, and what follows for a whole file.

use crate::block::{
    all_accepted, lemma_packed_fetch, lemma_raw_round_trip, packed, zstd_content, BlockView, Pair,
};
use crate::endian::be64;
use crate::sst::{block_read, lemma_footer_found, located_footer, WriterView};
use crate::Error;
use vstd::prelude::*;

verus! {

/// The first `upto` entries of a block as a walk gives them, or the first
/// error that the walk meets.
pub open spec fn entries_of(block: BlockView, upto: nat) -> Result<Seq<Pair>, Error>
    decreases upto,
{
    if upto == 0 {
        Ok(Seq::empty())
    } else {
        match entries_of(block, (upto - 1) as nat) {
            Err(e) => Err(e),
            Ok(before) => match block.fetched((upto - 1) as nat) {
                Ok(Some(pair)) => Ok(before.push(pair)),
                Ok(None) => Ok(before),
                Err(e) => Err(e),
            },
        }
    }
}

/// The entries of the first `upto` blocks of a file as a walk gives them,
/// block after block, or the first error that the walk meets.
pub open spec fn table_entries(file: Seq<u8>, bookends: Seq<u64>, upto: nat) -> Result<
    Seq<Pair>,
    Error,
>
    decreases upto,
{
    if upto == 0 {
        Ok(Seq::empty())
    } else {
        match table_entries(file, bookends, (upto - 1) as nat) {
            Err(e) => Err(e),
            Ok(before) => match block_read(file, bookends, upto - 1) {
                Err(e) => Err(e),
                Ok(None) => Ok(before),
                Ok(Some(block)) => match entries_of(block, block.num_entries) {
                    Ok(entries) => Ok(before + entries),
                    Err(e) => Err(e),
                },
            },
        }
    }
}

/// Once a walk over a block has met an error, it stays with it.
pub proof fn lemma_block_error_stays(block: BlockView, upto: nat, later: nat)
    requires
        entries_of(block, upto) is Err,
        upto <= later,
    ensures
        entries_of(block, later) == entries_of(block, upto),
    decreases later,
{
    if upto < later {
        lemma_block_error_stays(block, upto, (later - 1) as nat);
    }
}

/// Once a walk over a table has met an error, it stays with it.
pub proof fn lemma_table_error_stays(file: Seq<u8>, bookends: Seq<u64>, upto: nat, later: nat)
    requires
        table_entries(file, bookends, upto) is Err,
        upto <= later,
    ensures
        table_entries(file, bookends, later) == table_entries(file, bookends, upto),
    decreases later,
{
    if upto < later {
        lemma_table_error_stays(file, bookends, upto, (later - 1) as nat);
    }
}

/// Each block ends after the one before it.
pub open spec fn increasing(bookends: Seq<u64>) -> bool {
    forall|i: int, j: int| 0 <= i < j < bookends.len() ==> bookends[i] < bookends[j]
}

/// The entries that are in the block in progress: the last ones appended.
pub open spec fn held(w: WriterView) -> Seq<Pair> {
    w.entries.skip(w.entries.len() - w.cur.num_entries)
}

/// The entries that were flushed: all but those in the block in progress.
pub open spec fn flushed_entries(w: WriterView) -> Seq<Pair> {
    w.entries.take(w.entries.len() - w.cur.num_entries)
}

/// The writer is in step with what it sent: every byte sent is counted, the
/// last block ends at that count, each block ends after the one before it,
/// the block in progress was built by accepted appends of the last entries,
/// and the bytes sent read back as the entries before those.
pub open spec fn consistent(w: WriterView) -> bool {
    &&& w.written == w.sent.len()
    &&& w.written <= u64::MAX
    &&& w.written == if w.bookends.len() == 0 {
        0
    } else {
        w.bookends.last() as nat
    }
    &&& increasing(w.bookends)
    &&& w.cur.num_entries <= w.entries.len()
    &&& all_accepted(held(w))
    &&& w.cur == packed(held(w))
    &&& table_entries(w.sent, w.bookends, w.bookends.len()) == Ok::<Seq<Pair>, Error>(
        flushed_entries(w),
    )
}

/// A block built by accepted appends counts them in 32 bits.
pub proof fn lemma_accepted_count(entries: Seq<Pair>)
    requires
        all_accepted(entries),
    ensures
        packed(entries).num_entries <= u32::MAX,
{
    if entries.len() > 0 {
        lemma_packed_fetch(entries.drop_last(), 0);
    }
}

/// A walk over a block built by accepted appends gives the appended entries
/// in their order.
pub proof fn lemma_entries_of_packed(entries: Seq<Pair>, upto: nat)
    requires
        all_accepted(entries),
        upto <= entries.len(),
    ensures
        entries_of(packed(entries), upto) == Ok::<Seq<Pair>, Error>(entries.take(upto as int)),
    decreases upto,
{
    if upto == 0 {
        assert(entries.take(0) =~= Seq::<Pair>::empty());
    } else {
        lemma_entries_of_packed(entries, (upto - 1) as nat);
        lemma_packed_fetch(entries, (upto - 1) as nat);
        assert(entries.take(upto as int) =~= entries.take(upto - 1).push(entries[upto - 1]));
    }
}

/// What the first blocks read as depends on their own ends only.
pub proof fn lemma_earlier_blocks_stay(file: Seq<u8>, a: Seq<u64>, b: Seq<u64>, upto: nat)
    requires
        upto <= a.len(),
        upto <= b.len(),
        forall|i: int| 0 <= i < upto ==> a[i] == b[i],
    ensures
        table_entries(file, a, upto) == table_entries(file, b, upto),
    decreases upto,
{
    if upto > 0 {
        lemma_earlier_blocks_stay(file, a, b, (upto - 1) as nat);
        assert(block_read(file, a, upto - 1) == block_read(file, b, upto - 1));
    }
}

/// Bytes that follow the blocks do not change what the blocks read as.
pub proof fn lemma_later_bytes_ignored(
    file: Seq<u8>,
    more: Seq<u8>,
    bookends: Seq<u64>,
    upto: nat,
)
    requires
        upto <= bookends.len(),
        forall|i: int| 0 <= i < upto ==> bookends[i] <= file.len(),
    ensures
        table_entries(file + more, bookends, upto) == table_entries(file, bookends, upto),
    decreases upto,
{
    if upto > 0 {
        lemma_later_bytes_ignored(file, more, bookends, (upto - 1) as nat);
        let idx = upto - 1;
        let start: int = if idx == 0 {
            0
        } else {
            bookends[idx - 1] as int
        };
        let end = bookends[idx] as int;
        if start <= end {
            assert((file + more).subrange(start, end) =~= file.subrange(start, end));
        }
        assert(block_read(file + more, bookends, idx) == block_read(file, bookends, idx));
    }
}

/// A new writer is in step with the nothing that it sent.
pub proof fn lemma_start_consistent()
    ensures
        consistent(WriterView::start()),
{
    let w = WriterView::start();
    assert(held(w) =~= Seq::<Pair>::empty());
    assert(flushed_entries(w) =~= Seq::<Pair>::empty());
}

/// An append that the block in progress accepts keeps the writer in step.
pub proof fn lemma_extend_consistent(w: WriterView, key: Seq<u8>, value: Seq<u8>)
    requires
        consistent(w),
        w.cur.accepts(key, value),
        key.len() <= u32::MAX,
        value.len() <= u32::MAX,
    ensures
        consistent(w.extended(key, value)),
{
    let next = w.extended(key, value);
    lemma_packed_fetch(held(w), 0);
    assert(held(next) =~= held(w).push((key, value)));
    assert(held(next).drop_last() =~= held(w));
    assert(held(next).last() == (key, value));
    assert(flushed_entries(next) =~= flushed_entries(w));
}

/// A flush keeps the writer in step, and all entries are then flushed:
/// provided that the frame sent is not empty, that the codec recovers the
/// wire form of the block in progress from it, and that the block ends
/// within what 64 bits address.
pub proof fn lemma_flush_consistent(w: WriterView, frame: Seq<u8>)
    requires
        consistent(w),
        zstd_content(frame) == Some(w.cur.raw()),
        frame.len() > 0,
        w.written + frame.len() <= u64::MAX,
    ensures
        consistent(w.flushed(frame)),
        flushed_entries(w.flushed(frame)) == w.entries,
{
    let next = w.flushed(frame);
    let n = w.bookends.len();
    let file = w.sent + frame;
    assert(held(next) =~= Seq::<Pair>::empty());
    assert(flushed_entries(next) =~= w.entries);
    assert(flushed_entries(w) + held(w) =~= w.entries);
    assert forall|i: int| 0 <= i < n implies w.bookends[i] <= w.sent.len() by {
        if i < n - 1 {
            assert(w.bookends[i] < w.bookends[n - 1]);
        }
    }
    lemma_later_bytes_ignored(w.sent, frame, w.bookends, n);
    lemma_earlier_blocks_stay(file, w.bookends, next.bookends, n);
    lemma_packed_fetch(held(w), 0);
    lemma_accepted_count(held(w));
    lemma_raw_round_trip(w.cur);
    assert(next.bookends[n as int] == w.written + frame.len());
    if n > 0 {
        assert(next.bookends[n - 1] == w.bookends.last());
    }
    assert(file.subrange(w.sent.len() as int, (w.sent.len() + frame.len()) as int) =~= frame);
    assert(block_read(file, next.bookends, n as int) == Ok::<Option<BlockView>, Error>(
        Some(w.cur),
    ));
    lemma_entries_of_packed(held(w), held(w).len());
    assert(held(w).take(held(w).len() as int) =~= held(w));
    assert forall|i: int, j: int| 0 <= i < j < next.bookends.len() implies next.bookends[i]
        < next.bookends[j] by {
        if j == n {
            assert(w.bookends[i] <= w.sent.len());
        } else {
            assert(w.bookends[i] < w.bookends[j]);
        }
    }
}

/// The whole file of a table: what a writer in step has sent once all its
/// entries are flushed, then any footer, then the eight bytes that say where
/// the footer starts. The trailer leads to the footer where it was written,
/// and with the writer's block ends the file reads back as exactly the
/// entries that were appended, in their order, however many blocks they were
/// split into.
pub proof fn lemma_file_reads_back(w: WriterView, footer: Seq<u8>)
    requires
        consistent(w),
        w.cur.num_entries == 0,
        w.written + footer.len() + 8 <= u64::MAX,
    ensures
        ({
            let file = w.sent + footer + be64(w.written as u64);
            &&& located_footer(file.len() as u64, file.subrange(file.len() - 8, file.len() as int))
                == Ok::<(u64, u64), Error>((w.written as u64, footer.len() as u64))
            &&& file.subrange(w.written as int, (w.written + footer.len()) as int) == footer
            &&& table_entries(file, w.bookends, w.bookends.len()) == Ok::<Seq<Pair>, Error>(
                w.entries,
            )
        }),
{
    let trailer = be64(w.written as u64);
    let file = w.sent + footer + trailer;
    let n = w.bookends.len();
    lemma_footer_found(w.sent, footer);
    assert(file =~= w.sent + (footer + trailer));
    assert(file.subrange(w.written as int, (w.written + footer.len()) as int) =~= footer);
    assert forall|i: int| 0 <= i < n implies w.bookends[i] <= w.sent.len() by {
        if i < n - 1 {
            assert(w.bookends[i] < w.bookends[n - 1]);
        }
    }
    lemma_later_bytes_ignored(w.sent, footer + trailer, w.bookends, n);
    assert(flushed_entries(w) =~= w.entries);
}

} // verus!
