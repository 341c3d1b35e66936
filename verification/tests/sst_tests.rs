use std::collections::BTreeMap;

use sstable::block::{Block, CompressedBlock};
use sstable::sst::{
    footer_extent, trailer_start, write_footer, Metadata, Step, Table, TableIter, Writer,
};
use sstable::{ByteString, Error};

fn bs(v: &[u8]) -> ByteString {
    ByteString::from_str(v).unwrap()
}

/// Ends the table in `file`: the last block, the footer, the trailer.
fn finish(w: Writer, file: &mut Vec<u8>) -> Result<Metadata, Error> {
    let (meta, footer_start) = w.finish(file)?;
    let mut fields = BTreeMap::new();
    fields.insert("bookends", &meta.bookends);
    let footer = serde_cbor::to_vec(&fields).unwrap();
    write_footer(file, &footer, footer_start);
    Ok(meta)
}

/// Opens the table in `file`; `None` where the footer does not parse.
fn open(file: &[u8]) -> Result<Option<Table>, Error> {
    let len = file.len() as u64;
    let trailer_at = trailer_start(len)?;
    let (start, footer_len) = footer_extent(len, &file[trailer_at as usize..])?;
    let footer = &file[start as usize..(start + footer_len) as usize];
    let Ok(mut fields) = serde_cbor::from_slice::<BTreeMap<String, Vec<u64>>>(footer) else {
        return Ok(None);
    };
    let Some(bookends) = fields.remove("bookends") else {
        return Ok(None);
    };
    Ok(Some(Table::new(Metadata { bookends })))
}

/// The next entry of the walk, with blocks read from `file` as they are asked for.
fn next_entry(
    it: &mut TableIter<'_>,
    file: &[u8],
) -> Result<Option<(ByteString, ByteString)>, Error> {
    loop {
        match it.next()? {
            Step::Entry(key, value) => return Ok(Some((key, value))),
            Step::End => return Ok(None),
            Step::Fetch { start, len } => {
                let Some(bytes) = file.get(start as usize..(start + len) as usize) else {
                    return Err(Error::Truncated);
                };
                let block = Block::decompress(CompressedBlock(bytes.to_vec()))?;
                assert!(it.supply(block));
            }
        }
    }
}

#[test]
fn sst_writer_smoke() -> Result<(), Error> {
    let mut f = Vec::new();
    let (k1, v1) = (ByteString::from_str(b"hello")?, ByteString::from_str(b"world")?);
    {
        let mut w = Writer::new();
        w.append(&k1, &v1, &mut f)?;
        finish(w, &mut f)?;
    }

    let t = open(&f)?.unwrap();
    let mut iter = t.iter();
    assert_eq!(next_entry(&mut iter, &f)?, Some((k1, v1)));
    assert_eq!(next_entry(&mut iter, &f)?, None);
    Ok(())
}

#[test]
fn sst_writer_compression_efficiency() -> Result<(), Error> {
    let mut f = Vec::new();

    let mut w = Writer::new();
    for i in 0..1_000_000 {
        let k = ByteString::from_vec(format!("key-{i:06}").into_bytes())?;
        let v = ByteString::from_vec(format!("value-{i:06}").into_bytes())?;
        w.append(&k, &v, &mut f)?;
    }
    finish(w, &mut f)?;
    assert_eq!(f.len(), 4_212_165); // ~4MB for 1M entries, each entry is ~30 bytes, so this is ~7x compression

    let t = open(&f)?.unwrap();
    let mut iter = t.iter();
    let mut count = 0;
    while next_entry(&mut iter, &f)?.is_some() {
        count += 1;
    }
    assert_eq!(count, 1_000_000);
    Ok(())
}

#[test]
fn file_layout_is_blocks_footer_trailer() -> Result<(), Error> {
    let mut block = Block::new();
    block.append(&bs(b"hello"), &bs(b"world"))?;
    let frame = block.compress()?.0;

    let mut f = Vec::new();
    let mut w = Writer::new();
    w.append(&bs(b"hello"), &bs(b"world"), &mut f)?;
    assert!(f.is_empty());
    let meta = finish(w, &mut f)?;
    assert_eq!(meta.bookends, vec![frame.len() as u64]);

    let mut fields = BTreeMap::new();
    fields.insert("bookends", vec![frame.len() as u64]);
    let footer = serde_cbor::to_vec(&fields).unwrap();
    let mut expected = frame.clone();
    expected.extend_from_slice(&footer);
    expected.extend_from_slice(&(frame.len() as u64).to_be_bytes());
    assert_eq!(f, expected);
    Ok(())
}

#[test]
fn empty_table_has_no_blocks() -> Result<(), Error> {
    let mut f = Vec::new();
    let (meta, footer_start) = Writer::new().finish(&mut f)?;
    assert!(f.is_empty());
    assert_eq!(meta.bookends, Vec::<u64>::new());
    assert_eq!(footer_start, 0);

    finish(Writer::new(), &mut f)?;
    let t = open(&f)?.unwrap();
    assert_eq!(t.num_blocks(), 0);
    assert_eq!(t.block_extent(0), Ok(None));
    let mut iter = t.iter();
    assert_eq!(next_entry(&mut iter, &f)?, None);
    assert_eq!(next_entry(&mut iter, &f)?, None);
    Ok(())
}

#[test]
fn entries_come_back_across_blocks() -> Result<(), Error> {
    let mut pairs = Vec::new();
    for i in 0..5000u32 {
        pairs.push((format!("key-{i:06}").into_bytes(), vec![(i % 256) as u8; 40]));
    }
    let mut f = Vec::new();
    let mut w = Writer::new();
    let mut flushes = 0;
    for (key, value) in &pairs {
        let before = f.len();
        w.append(&bs(key), &bs(value), &mut f)?;
        if f.len() > before {
            flushes += 1;
        }
    }
    assert!(flushes >= 2);
    let blocks_end = {
        let meta = finish(w, &mut f)?;
        assert_eq!(meta.bookends.len(), flushes + 1);
        assert!(meta.bookends.windows(2).all(|w| w[0] < w[1]));
        *meta.bookends.last().unwrap()
    };

    let t = open(&f)?.unwrap();
    assert_eq!(t.num_blocks(), flushes + 1);
    let (last_start, last_len) = t.block_extent(flushes)?.unwrap();
    assert_eq!(last_start + last_len, blocks_end);
    assert_eq!(t.block_extent(0)?.unwrap().0, 0);
    assert_eq!(t.block_extent(flushes + 1), Ok(None));

    let mut iter = t.iter();
    for (key, value) in &pairs {
        assert_eq!(next_entry(&mut iter, &f)?, Some((bs(key), bs(value))));
    }
    assert_eq!(next_entry(&mut iter, &f)?, None);
    assert_eq!(next_entry(&mut iter, &f)?, None);
    Ok(())
}

#[test]
fn oversized_entries_get_blocks_of_their_own() -> Result<(), Error> {
    let big = vec![3u8; 100_000];
    let mut f = Vec::new();
    let mut w = Writer::new();
    w.append(&bs(b"a"), &bs(&big), &mut f)?;
    assert!(f.is_empty());
    w.append(&bs(b"b"), &bs(&big), &mut f)?;
    let first = f.len();
    assert!(first > 0);
    w.append(&bs(b"c"), &bs(b"small"), &mut f)?;
    assert!(f.len() > first);
    let meta = finish(w, &mut f)?;
    assert_eq!(meta.bookends.len(), 3);
    assert_eq!(meta.bookends[0], first as u64);

    let t = open(&f)?.unwrap();
    let mut iter = t.iter();
    assert_eq!(next_entry(&mut iter, &f)?, Some((bs(b"a"), bs(&big))));
    assert_eq!(next_entry(&mut iter, &f)?, Some((bs(b"b"), bs(&big))));
    assert_eq!(next_entry(&mut iter, &f)?, Some((bs(b"c"), bs(b"small"))));
    assert_eq!(next_entry(&mut iter, &f)?, None);
    Ok(())
}

#[test]
fn short_files_do_not_open() -> Result<(), Error> {
    let mut f = Vec::new();
    let mut w = Writer::new();
    w.append(&bs(b"hello"), &bs(b"world"), &mut f)?;
    finish(w, &mut f)?;
    for keep in 0..8 {
        assert_eq!(open(&f[..keep]).err(), Some(Error::Truncated));
        assert_eq!(trailer_start(keep as u64), Err(Error::Truncated));
    }
    assert_eq!(trailer_start(8), Ok(0));
    assert_eq!(trailer_start(100), Ok(92));
    Ok(())
}

#[test]
fn trailer_that_points_past_the_footer_does_not_open() -> Result<(), Error> {
    let mut f = Vec::new();
    let mut w = Writer::new();
    w.append(&bs(b"hello"), &bs(b"world"), &mut f)?;
    finish(w, &mut f)?;
    let len = f.len();
    assert!(open(&f)?.is_some());

    let mut past = f.clone();
    past[len - 8..].copy_from_slice(&(len as u64 - 7).to_be_bytes());
    assert_eq!(open(&past).err(), Some(Error::CorruptFooter));

    let mut far = f.clone();
    far[len - 8..].copy_from_slice(&u64::MAX.to_be_bytes());
    assert_eq!(open(&far).err(), Some(Error::CorruptFooter));
    Ok(())
}

#[test]
fn footer_extent_values() {
    assert_eq!(footer_extent(20, &[0, 0, 0, 0, 0, 0, 0, 5]), Ok((5, 7)));
    assert_eq!(footer_extent(20, &[0, 0, 0, 0, 0, 0, 0, 12]), Ok((12, 0)));
    assert_eq!(footer_extent(20, &[0, 0, 0, 0, 0, 0, 0, 13]), Err(Error::CorruptFooter));
    assert_eq!(footer_extent(8, &[0, 0, 0, 0, 0, 0, 0, 0]), Ok((0, 0)));
    assert_eq!(footer_extent(7, &[0, 0, 0, 0, 0, 0, 0, 0]), Err(Error::Truncated));
    assert_eq!(footer_extent(20, &[0, 0, 0, 5]), Err(Error::Truncated));
    assert_eq!(
        footer_extent(u64::MAX, &[1, 2, 3, 4, 5, 6, 7, 8]),
        Ok((0x0102_0304_0506_0708, u64::MAX - 8 - 0x0102_0304_0506_0708))
    );
}

#[test]
fn write_footer_appends_footer_and_offset() {
    let mut sink = vec![1u8, 2];
    write_footer(&mut sink, &[0xaa, 0xbb], 0x0102_0304_0506_0708);
    assert_eq!(sink, vec![1, 2, 0xaa, 0xbb, 1, 2, 3, 4, 5, 6, 7, 8]);
}

#[test]
fn block_extents_follow_the_bookends() {
    let t = Table::new(Metadata { bookends: vec![10, 25, 25, 90] });
    assert_eq!(t.num_blocks(), 4);
    assert_eq!(t.block_extent(0), Ok(Some((0, 10))));
    assert_eq!(t.block_extent(1), Ok(Some((10, 15))));
    assert_eq!(t.block_extent(2), Ok(Some((25, 0))));
    assert_eq!(t.block_extent(3), Ok(Some((25, 65))));
    assert_eq!(t.block_extent(4), Ok(None));
    assert_eq!(t.block_extent(usize::MAX), Ok(None));

    let t = Table::new(Metadata { bookends: vec![10, 5] });
    assert_eq!(t.block_extent(1), Err(Error::CorruptFooter));
    assert_eq!(Metadata::default().bookends, Vec::<u64>::new());
}

#[test]
fn walk_asks_for_blocks_in_order() -> Result<(), Error> {
    let mut first = Block::new();
    first.append(&bs(b"a"), &bs(b"1"))?;
    first.append(&bs(b"b"), &bs(b"2"))?;
    let mut second = Block::new();
    second.append(&bs(b"c"), &bs(b"3"))?;

    let t = Table::new(Metadata { bookends: vec![7, 12] });
    let mut it = t.iter();
    assert!(matches!(it.next()?, Step::Fetch { start: 0, len: 7 }));
    assert!(matches!(it.next()?, Step::Fetch { start: 0, len: 7 }));
    assert!(it.supply(first));
    assert!(matches!(it.next()?, Step::Entry(k, v) if k == bs(b"a") && v == bs(b"1")));
    assert!(matches!(it.next()?, Step::Entry(k, v) if k == bs(b"b") && v == bs(b"2")));
    assert!(matches!(it.next()?, Step::Fetch { start: 7, len: 5 }));
    assert!(it.supply(second));
    assert!(matches!(it.next()?, Step::Entry(k, v) if k == bs(b"c") && v == bs(b"3")));
    assert!(matches!(it.next()?, Step::End));
    assert!(!it.supply(Block::new()));
    assert!(matches!(it.next()?, Step::End));
    Ok(())
}

#[test]
fn unreadable_block_is_an_error() -> Result<(), Error> {
    let mut f = Vec::new();
    let mut w = Writer::new();
    w.append(&bs(b"hello"), &bs(b"world"), &mut f)?;
    finish(w, &mut f)?;
    let t = open(&f)?.unwrap();
    let mut damaged = f.clone();
    damaged[0] ^= 0xff;
    let mut iter = t.iter();
    assert_eq!(next_entry(&mut iter, &damaged), Err(Error::Codec));
    Ok(())
}

#[test]
fn blocks_are_read_from_memory_by_index() -> Result<(), Error> {
    let mut f = Vec::new();
    let mut w = Writer::new();
    let big = vec![5u8; 66000];
    w.append(&bs(b"a"), &bs(&big), &mut f)?;
    w.append(&bs(b"b"), &bs(b"2"), &mut f)?;
    w.append(&bs(b"c"), &bs(b"3"), &mut f)?;
    finish(w, &mut f)?;
    let t = open(&f)?.unwrap();
    assert_eq!(t.num_blocks(), 2);

    let mut first = Block::new();
    first.append(&bs(b"a"), &bs(&big))?;
    let mut second = Block::new();
    second.append(&bs(b"b"), &bs(b"2"))?;
    second.append(&bs(b"c"), &bs(b"3"))?;
    assert_eq!(t.read_block(&f, 0)?, Some(first));
    assert_eq!(t.read_block(&f, 1)?, Some(second));
    assert_eq!(t.read_block(&f, 2)?, None);

    // A file that ends within a block.
    assert_eq!(t.read_block(&f[..10], 0), Err(Error::Truncated));
    // Block ends that run backwards.
    let t = Table::new(Metadata { bookends: vec![10, 5] });
    assert_eq!(t.read_block(&f, 1), Err(Error::CorruptFooter));
    Ok(())
}

#[test]
fn all_entries_are_read_from_memory() -> Result<(), Error> {
    let mut pairs = Vec::new();
    for i in 0..4000u32 {
        pairs.push((bs(format!("k{i:05}").as_bytes()), bs(&vec![(i % 7) as u8; 50])));
    }
    let mut f = Vec::new();
    let mut w = Writer::new();
    for (key, value) in &pairs {
        w.append(key, value, &mut f)?;
    }
    let meta = finish(w, &mut f)?;
    assert!(meta.bookends.len() >= 3);
    let t = open(&f)?.unwrap();
    assert_eq!(t.entries(&f)?, pairs);

    let mut walked = Vec::new();
    let mut iter = t.iter();
    while let Some(pair) = next_entry(&mut iter, &f)? {
        walked.push(pair);
    }
    assert_eq!(walked, pairs);

    let mut damaged = f.clone();
    let second_block = meta.bookends[0] as usize;
    damaged[second_block] ^= 0xff;
    assert_eq!(t.entries(&damaged), Err(Error::Codec));
    assert_eq!(t.entries(&f[..second_block]), Err(Error::Truncated));

    let empty = Table::new(Metadata::default());
    assert_eq!(empty.entries(&f)?, Vec::new());
    Ok(())
}

#[test]
fn frames_can_be_sent_before_they_are_recorded() -> Result<(), Error> {
    let big = vec![9u8; 70_000];
    let mut streamed = Vec::new();
    let mut w = Writer::new();
    assert_eq!(w.frame_at_finish()?.map(|c| c.0), None);
    for (key, value) in [(b"a", &big), (b"b", &big), (b"c", &big)] {
        let (key, value) = (bs(key), bs(value));
        if let Some(frame) = w.frame_before(&key, &value)? {
            streamed.extend_from_slice(&frame.0);
            w.commit(&frame.0)?;
        }
        assert_eq!(w.frame_before(&key, &value)?.map(|c| c.0), None);
        let before = streamed.len();
        w.append(&key, &value, &mut streamed)?;
        assert_eq!(streamed.len(), before);
    }
    let last = w.frame_at_finish()?.unwrap();
    streamed.extend_from_slice(&last.0);
    w.commit(&last.0)?;
    assert_eq!(w.frame_at_finish()?.map(|c| c.0), None);
    finish(w, &mut streamed)?;

    let mut direct = Vec::new();
    let mut w = Writer::new();
    for key in [b"a", b"b", b"c"] {
        w.append(&bs(key), &bs(&big), &mut direct)?;
    }
    let meta = finish(w, &mut direct)?;
    assert_eq!(meta.bookends.len(), 3);
    assert_eq!(streamed, direct);
    Ok(())
}

#[test]
fn commit_records_the_end_of_the_frame() -> Result<(), Error> {
    let mut sink = Vec::new();
    let mut w = Writer::new();
    w.append(&bs(b"k"), &bs(b"v"), &mut sink)?;
    assert_eq!(w.commit(&[]), Err(Error::Codec));
    w.commit(&[1, 2, 3])?;
    w.commit(&[4, 5])?;
    let (meta, footer_start) = w.finish(&mut sink)?;
    assert!(sink.is_empty());
    assert_eq!(meta.bookends, vec![3, 5]);
    assert_eq!(footer_start, 5);
    Ok(())
}

#[test]
fn block_ends_strictly_increase() -> Result<(), Error> {
    let mut f = Vec::new();
    let mut w = Writer::new();
    for i in 0..20u8 {
        w.append(&bs(&[i]), &bs(&vec![i; 40_000]), &mut f)?;
    }
    let (meta, footer_start) = w.finish(&mut f)?;
    assert_eq!(footer_start, f.len() as u64);
    assert_eq!(meta.bookends.last(), Some(&footer_start));
    assert!(meta.bookends.len() >= 10);
    assert!(meta.bookends[0] > 0);
    assert!(meta.bookends.windows(2).all(|w| w[0] < w[1]));
    Ok(())
}
