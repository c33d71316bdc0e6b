use integer_encoding::VarInt;
use std::sync::Arc;
use tsdb::block::{
    block_ulid, check_meta_version, check_segment_header, find_block, plan_blocks, select_block_dirs,
    Block, BlockError, BlockMeta, BlockMetaCompaction, BlockSource, BlockStats, DB,
};
use tsdb::encoding::{new_decbuf_at, write_frame, write_u32_be, write_varint_bytes};
use tsdb::error::IndexError;
use tsdb::labels::{Labels, Matcher, MustMatch};
use tsdb::querier::{postings_for_matcher, BlockQuerier, Querier, SeriesSet};
use tsdb::reader::{new_toc, read_header, read_postings_list, Reader, Toc};
use tsdb::symbols::Symbols;

fn crc(b: &[u8]) -> u32 {
    crc::Crc::<u32>::new(&crc::CRC_32_ISCSI).checksum(b)
}

fn uvarint(v: u64) -> Vec<u8> {
    v.encode_var_vec()
}

fn header() -> Vec<u8> {
    let mut b = vec![];
    write_u32_be(&mut b, 0xBAAAD700);
    b.push(2);
    b
}

fn symbol_payload(symbols: &[&str]) -> Vec<u8> {
    let mut p = vec![];
    write_u32_be(&mut p, symbols.len() as u32);
    for s in symbols {
        write_varint_bytes(&mut p, s.as_bytes());
    }
    p
}

fn toc_bytes(offs: [u64; 6]) -> Vec<u8> {
    let mut t = vec![];
    for o in offs {
        t.extend_from_slice(&o.to_be_bytes());
    }
    let c = crc(&t);
    write_u32_be(&mut t, c);
    t
}

/// An index of format 2: symbols, series (label pairs as symbol ids),
/// postings lists (by series position) and the postings offset table.
fn build_index(symbols: &[&str], series: &[Vec<(u64, u64)>], postings: &[(&str, &str, Vec<usize>)]) -> Vec<u8> {
    let mut b = header();
    let sym_off = b.len() as u64;
    b.extend(write_frame(&symbol_payload(symbols)));
    while b.len() % 16 != 0 {
        b.push(0);
    }
    let series_off = b.len() as u64;
    let mut refs = vec![];
    for labels in series {
        while b.len() % 16 != 0 {
            b.push(0);
        }
        refs.push((b.len() / 16) as u32);
        let mut p = uvarint(labels.len() as u64);
        for (n, v) in labels {
            p.extend(uvarint(*n));
            p.extend(uvarint(*v));
        }
        p.extend(uvarint(0));
        b.extend(uvarint(p.len() as u64));
        b.extend(&p);
        write_u32_be(&mut b, crc(&p));
    }
    while b.len() < 128 {
        b.push(0);
    }
    let postings_off = b.len() as u64;
    let mut list_offs = vec![];
    for (_, _, ids) in postings {
        list_offs.push(b.len() as u64);
        let mut p = vec![];
        write_u32_be(&mut p, ids.len() as u32);
        for i in ids {
            write_u32_be(&mut p, refs[*i]);
        }
        b.extend(write_frame(&p));
    }
    let table_off = b.len() as u64;
    let mut t = vec![];
    write_u32_be(&mut t, postings.len() as u32);
    for (i, (n, v, _)) in postings.iter().enumerate() {
        t.extend(uvarint(2));
        write_varint_bytes(&mut t, n.as_bytes());
        write_varint_bytes(&mut t, v.as_bytes());
        t.extend(uvarint(list_offs[i]));
    }
    b.extend(write_frame(&t));
    b.extend(toc_bytes([sym_off, series_off, 0, 0, postings_off, table_off]));
    b
}

/// The index of a block with the series {a="1",b="1"}, {b="2"}, {b="3"}, {b="4"}.
fn simple_index() -> Vec<u8> {
    let symbols = ["1", "2", "3", "4", "a", "b"];
    let series = vec![vec![(4, 0), (5, 0)], vec![(5, 1)], vec![(5, 2)], vec![(5, 3)]];
    let postings = [
        ("", "", vec![0, 1, 2, 3]),
        ("a", "1", vec![0]),
        ("b", "1", vec![0]),
        ("b", "2", vec![1]),
        ("b", "3", vec![2]),
        ("b", "4", vec![3]),
    ];
    build_index(&symbols, &series, &postings)
}

/// The index of a block with bar="0" .. bar="4" and foo="bar", foo="baz".
fn querier_index() -> Vec<u8> {
    let symbols = ["0", "1", "2", "3", "4", "bar", "baz", "foo"];
    let mut series = vec![];
    for i in 0..5 {
        series.push(vec![(5, i)]);
    }
    series.push(vec![(7, 5)]);
    series.push(vec![(7, 6)]);
    let postings = [
        ("", "", vec![0, 1, 2, 3, 4, 5, 6]),
        ("bar", "0", vec![0]),
        ("bar", "1", vec![1]),
        ("bar", "2", vec![2]),
        ("bar", "3", vec![3]),
        ("bar", "4", vec![4]),
        ("foo", "bar", vec![5]),
        ("foo", "baz", vec![6]),
    ];
    build_index(&symbols, &series, &postings)
}

fn meta(ulid: u128, version: u64) -> BlockMeta {
    BlockMeta {
        ulid,
        min_time: 0,
        max_time: 7200000,
        stats: BlockStats { num_samples: 102, num_series: 102, num_chunks: 102, num_tombstones: None },
        compaction: BlockMetaCompaction { level: 1, sources: vec!["01DXXFZDYD1MQW6079WK0K6EDQ".to_string()] },
        version,
    }
}

fn segment_header() -> Vec<u8> {
    let mut h = vec![];
    write_u32_be(&mut h, 0x85BD40DD);
    h.extend([1, 0, 0, 0]);
    h
}

fn block(ulid: u128, index: Vec<u8>) -> Block {
    Block::new("b".to_string(), meta(ulid, 1), 255, &vec![(segment_header(), 1844)], index).unwrap()
}

fn labels_of(set: &mut SeriesSet) -> Vec<String> {
    let mut out = vec![];
    while let Some(e) = set.next() {
        out.push(e.labels().to_string());
    }
    out
}

#[test]
fn frame_round_trip() {
    let mut payload = vec![];
    write_varint_bytes(&mut payload, b"hello");
    write_varint_bytes(&mut payload, b"");
    let frame = write_frame(&payload);
    assert_eq!(4 + payload.len() + 4, frame.len());
    assert_eq!(crc(&payload).to_be_bytes(), frame[frame.len() - 4..]);
    assert_eq!(Ok(payload.clone()), new_decbuf_at(&frame, 0, true));
    let mut shifted = vec![9, 9, 9];
    shifted.extend(&frame);
    shifted.push(7);
    assert_eq!(Ok(payload), new_decbuf_at(&shifted, 3, true));
}

#[test]
fn varint_bytes_are_prefixed() {
    let mut b = vec![];
    write_varint_bytes(&mut b, &[7u8; 200]);
    assert_eq!(vec![0xc8, 0x01], b[..2].to_vec());
    assert_eq!(202, b.len());
}

#[test]
fn frame_errors() {
    assert_eq!(Err(IndexError::InvalidBufSize(4, 3)), new_decbuf_at(&[0, 0, 0], 0, false));
    let frame = write_frame(&[1, 2, 3]);
    assert_eq!(Err(IndexError::InvalidBufSize(u64::MAX, 11)), new_decbuf_at(&frame, u64::MAX, true));
    assert_eq!(Err(IndexError::InvalidBufSize(11, 10)), new_decbuf_at(&frame[..10], 0, true));
    assert_eq!(Ok(vec![1, 2, 3]), new_decbuf_at(&frame[..7], 0, false));
    let mut bad = frame.clone();
    bad[5] ^= 1;
    let actual = crc(&bad[4..7]);
    assert_eq!(Err(IndexError::InvalidChecksum(crc(&[1, 2, 3]), actual)), new_decbuf_at(&bad, 0, true));
}

#[test]
fn test_new_toc() {
    let mut data = header();
    data.extend(vec![0; 100]);
    data.extend(toc_bytes([5, 323, 1806, 4300, 2248, 4326]));
    assert_eq!(
        Ok(Toc {
            symbols: 5,
            series: 323,
            label_indices: 1806,
            label_indices_table: 4300,
            postings: 2248,
            postings_table: 4326,
        }),
        new_toc(&data),
    );
}

#[test]
fn toc_with_flipped_bit() {
    let mut data = header();
    data.extend(toc_bytes([5, 323, 1806, 4300, 2248, 4326]));
    let n = data.len();
    data[n - 20] ^= 0x10;
    let stored = u32::from_be_bytes([data[n - 4], data[n - 3], data[n - 2], data[n - 1]]);
    let actual = crc(&data[n - 52..n - 4]);
    assert_eq!(Err(IndexError::InvalidChecksum(stored, actual)), new_toc(&data));
}

#[test]
fn toc_too_small() {
    assert_eq!(Err(IndexError::InvalidTocSize(52)), new_toc(&[0; 52]));
}

#[test]
fn header_errors() {
    assert_eq!(Err(IndexError::InvalidSize(5)), read_header(&header()));
    let mut bad = header();
    bad.push(0);
    bad[0] = 0;
    assert_eq!(Err(IndexError::InvalidMagicNumber(0x00AAD700)), read_header(&bad));
    let mut v3 = header();
    v3[4] = 3;
    v3.push(0);
    assert_eq!(Err(IndexError::InvalidIndexVersion(3)), read_header(&v3));
    let mut ok = header();
    ok.push(0);
    assert_eq!(Ok(2), read_header(&ok));
}

#[test]
fn test_new_symbols() {
    let mut names: Vec<String> = vec![];
    for s in ["0", "1", "2", "3"] {
        names.push(s.to_string());
    }
    for i in 40..68 {
        names.push(i.to_string());
    }
    for s in ["7", "8", "9"] {
        names.push(s.to_string());
    }
    for c in ['a', 'b', 'c'] {
        for d in 0..10 {
            if names.len() < 64 {
                names.push(format!("{}{}", c, d));
            }
        }
    }
    for s in ["d", "e", "f"] {
        names.push(s.to_string());
    }
    for c in ['g', 'h', 'i', 'j'] {
        for d in 0..10 {
            if names.len() < 104 {
                names.push(format!("{}{}", c, d));
            }
        }
    }
    assert_eq!(104, names.len());
    let refs: Vec<&str> = names.iter().map(|s| s.as_str()).collect();
    let mut data = header();
    data.extend(write_frame(&symbol_payload(&refs)));
    let symbols = Symbols::new(&data, 2, 5).unwrap();
    assert_eq!(5, symbols.off());
    assert_eq!(104, symbols.seen());
    assert_eq!(vec![4, 96, 189, 282], symbols.bucket_offsets().to_vec());
    for (i, n) in names.iter().enumerate() {
        assert_eq!(Ok(n.clone()), symbols.lookup(i as u64));
        assert_eq!(Ok(i as u64), symbols.reverse_lookup(n));
    }
}

#[test]
fn test_symbol_reverse_lookup() {
    let mut data = header();
    data.extend(write_frame(&[0, 0, 0, 6, 1, 49, 1, 50, 1, 51, 1, 52, 1, 97, 1, 98]));
    let sym = Symbols::new(&data, 2, 5).unwrap();
    assert_eq!(4, sym.reverse_lookup("a").unwrap());
    assert_eq!(5, sym.reverse_lookup("b").unwrap());
}

#[test]
fn test_symbol_lookup() {
    let mut buf: Vec<u8> = vec![];
    write_varint_bytes(&mut buf, "something".as_bytes());
    let start = buf.len();
    write_u32_be(&mut buf, 204);
    write_u32_be(&mut buf, 100);
    let to_string = |i: u8| {
        let vv = vec![i];
        std::str::from_utf8(&vv).unwrap().to_string()
    };
    for i in 0..100 {
        write_varint_bytes(&mut buf, to_string(i).as_bytes());
    }
    let checksum = crc(&buf[start + 4..]);
    write_u32_be(&mut buf, checksum);

    let sym = Symbols::new(&buf, 2, start as u64).unwrap();
    assert_eq!(32, sym.size());
    for i in (0..100).rev() {
        let s = sym.lookup(i).unwrap();
        assert_eq!(to_string(i as u8), s);
    }
    for i in (0..100).rev() {
        let s = sym.reverse_lookup(&to_string(i as u8)).unwrap();
        assert_eq!(i, s);
    }
}

#[test]
fn symbol_errors() {
    let mut data = header();
    data.extend(write_frame(&[0, 0, 0, 3, 1, 97, 1, 0xff, 1, 99]));
    let sym = Symbols::new(&data, 2, 5).unwrap();
    assert_eq!(Err(IndexError::UnknownSymbolOffset(3)), sym.lookup(3));
    assert_eq!(Err(IndexError::InvalidUtf8), sym.lookup(1));
    assert_eq!(Err(IndexError::SymbolNotFound), sym.reverse_lookup("b"));
    let mut short = header();
    short.extend(write_frame(&[0, 0, 0, 2, 1, 97]));
    assert_eq!(Err(IndexError::UnexpectedEnd), Symbols::new(&short, 2, 5).map(|s| s.seen()));
}

fn postings_frame(ids: &[u32]) -> Vec<u8> {
    let mut p = vec![];
    write_u32_be(&mut p, ids.len() as u32);
    for i in ids {
        write_u32_be(&mut p, *i);
    }
    write_frame(&p)
}

#[test]
fn postings_list_sizes() {
    for n in [0u32, 1, 32, 33] {
        let ids: Vec<u32> = (0..n).map(|i| 3 * i + 1).collect();
        let frame = postings_frame(&ids);
        let mut p = read_postings_list(&frame, 0).unwrap();
        let want: Vec<u64> = ids.iter().map(|i| *i as u64).collect();
        assert_eq!(want, p.collect_ids());
    }
}

#[test]
fn postings_list_must_ascend() {
    assert_eq!(IndexError::InvalidPostingsList, read_postings_list(&postings_frame(&[3, 2]), 0).err().unwrap());
    assert_eq!(IndexError::InvalidPostingsList, read_postings_list(&postings_frame(&[2, 2]), 0).err().unwrap());
    let mut p = vec![];
    write_u32_be(&mut p, 2);
    write_u32_be(&mut p, 1);
    assert_eq!(IndexError::InvalidPostingsList, read_postings_list(&write_frame(&p), 0).err().unwrap());
}

#[test]
fn test_reader() {
    let reader = Reader::build(simple_index()).unwrap();
    let r: Vec<(String, Vec<(String, u64)>)> = reader
        .posting_offsets()
        .iter()
        .map(|(n, v)| {
            (
                String::from_utf8(n.clone()).unwrap(),
                v.iter().map(|p| (String::from_utf8(p.value.clone()).unwrap(), p.off)).collect(),
            )
        })
        .collect();
    assert_eq!(
        vec![
            ("".to_string(), vec![("".to_string(), 4)]),
            ("a".to_string(), vec![("1".to_string(), 9)]),
            ("b".to_string(), vec![("1".to_string(), 16), ("4".to_string(), 37)]),
        ],
        r,
    );
    assert_eq!(&vec![(4, "a".to_string()), (5, "b".to_string())], reader.name_symbols());
}

#[test]
fn sparse_index_keeps_every_32nd_and_last() {
    let mut values: Vec<String> = (0..40).map(|i| format!("{:02}", i)).collect();
    values.sort();
    let mut symbols: Vec<&str> = values.iter().map(|s| s.as_str()).collect();
    symbols.push("n");
    let series: Vec<Vec<(u64, u64)>> = (0..40).map(|i| vec![(40, i)]).collect();
    let postings: Vec<(&str, &str, Vec<usize>)> =
        values.iter().enumerate().map(|(i, v)| ("n", v.as_str(), vec![i])).collect();
    let reader = Reader::build(build_index(&symbols, &series, &postings)).unwrap();
    let kept: Vec<String> = reader.posting_offsets()[0].1.iter().map(|p| String::from_utf8(p.value.clone()).unwrap()).collect();
    assert_eq!(vec!["00".to_string(), "32".to_string(), "39".to_string()], kept);
    let value_refs: Vec<&str> = values.iter().map(|s| s.as_str()).collect();
    let mut all = reader.postings("n", &value_refs).unwrap();
    assert_eq!(40, all.collect_ids().len());
    let mut one = reader.postings("n", &["33"]).unwrap();
    assert_eq!(1, one.collect_ids().len());
}

#[test]
fn reader_postings() {
    let reader = Reader::build(simple_index()).unwrap();
    let mut b = reader.postings("b", &["2", "4"]).unwrap();
    let ids = b.collect_ids();
    assert_eq!(2, ids.len());
    let mut labels = vec![];
    for id in ids {
        labels.push(reader.series(id).unwrap().to_string());
    }
    assert_eq!(vec!["{b=\"2\"}".to_string(), "{b=\"4\"}".to_string()], labels);
    let mut all = reader.postings("", &[""]).unwrap();
    assert_eq!(4, all.collect_ids().len());
}

#[test]
fn reader_postings_empty_cases() {
    let reader = Reader::build(simple_index()).unwrap();
    assert_eq!(None, reader.postings("b", &[]).unwrap().next());
    assert_eq!(None, reader.postings("c", &["1"]).unwrap().next());
    assert_eq!(None, reader.postings("b", &["0", "00"]).unwrap().next());
    assert_eq!(None, reader.postings("b", &["5"]).unwrap().next());
}

#[test]
fn reader_rejects_bad_table_entry() {
    let mut data = header();
    let sym_off = data.len() as u64;
    data.extend(write_frame(&symbol_payload(&["a"])));
    let table_off = data.len() as u64;
    let mut t = vec![];
    write_u32_be(&mut t, 1);
    t.extend(uvarint(3));
    data.extend(write_frame(&t));
    data.extend(toc_bytes([sym_off, 0, 0, 0, 0, table_off]));
    assert_eq!(IndexError::InvalidPostingsEntry(3), Reader::build(data).err().unwrap());
}

#[test]
fn test_block_querier() {
    let b = block(1, querier_index());
    let querier = b.querier();
    let mut ret = querier.inner_select(vec![Matcher::new_must_matcher("bar", "0")]).unwrap();
    assert_eq!(Labels::from_string(vec!["bar", "0"]).unwrap(), *ret.next().unwrap().labels());
    assert!(ret.next().is_none());
}

#[test]
fn querier_conjunction() {
    let b = block(1, querier_index());
    let mut q = b.querier();
    let mut set = q.select(vec![Matcher::new_must_matcher("foo", "baz")]).unwrap();
    assert_eq!(vec!["{foo=\"baz\"}".to_string()], labels_of(&mut set));
    let mut none = q
        .select(vec![Matcher::new_must_matcher("foo", "baz"), Matcher::new_must_matcher("bar", "0")])
        .unwrap();
    assert_eq!(Vec::<String>::new(), labels_of(&mut none));
}

#[test]
fn not_equal_is_not_implemented() {
    let reader = Reader::build(querier_index()).unwrap();
    let m = Matcher::MatchNotEqual(MustMatch { name: "bar".to_string(), value: "0".to_string() });
    assert_eq!(IndexError::NotImplemented, postings_for_matcher(&reader, &m).err().unwrap());
    let b = block(1, querier_index());
    assert_eq!(IndexError::NotImplemented, b.querier().inner_select(vec![m]).err().unwrap());
}

#[test]
fn merge_querier() {
    let empty = DB::new(vec![]);
    let mut q0 = empty.querier();
    let mut set = q0.select(vec![Matcher::new_must_matcher("bar", "0")]).unwrap();
    assert!(set.next().is_none());

    let db = DB::new(vec![Arc::new(block(1, querier_index())), Arc::new(block(2, simple_index()))]);
    let mut q = db.querier();
    let mut set = q.select(vec![Matcher::new_must_matcher("", "")]).unwrap();
    let got = labels_of(&mut set);
    let mut want = vec![
        "{a=\"1\", b=\"1\"}", "{b=\"2\"}", "{b=\"3\"}", "{b=\"4\"}", "{bar=\"0\"}", "{bar=\"1\"}", "{bar=\"2\"}",
        "{bar=\"3\"}", "{bar=\"4\"}", "{foo=\"bar\"}", "{foo=\"baz\"}",
    ];
    want.sort();
    assert_eq!(want, got);

    let db2 = DB::new(vec![Arc::new(block(1, querier_index())), Arc::new(block(2, querier_index()))]);
    let mut q2 = db2.querier();
    let mut set2 = q2.select(vec![Matcher::new_must_matcher("bar", "3")]).unwrap();
    assert_eq!(vec!["{bar=\"3\"}".to_string()], labels_of(&mut set2));
}

#[test]
fn meta_version() {
    assert_eq!(Ok(()), check_meta_version(&meta(1, 1)));
    assert_eq!(Err(BlockError::UnsupportedBlockVersion(2)), check_meta_version(&meta(1, 2)));
    let r = Block::new("b".to_string(), meta(1, 2), 255, &vec![], querier_index());
    assert_eq!(BlockError::UnsupportedBlockVersion(2), r.err().unwrap());
}

#[test]
fn segment_headers() {
    assert_eq!(Ok(()), check_segment_header(&segment_header()));
    let mut bad = segment_header();
    bad[0] = 0;
    assert_eq!(Err(BlockError::InvalidChunkHeader), check_segment_header(&bad));
    let mut v2 = segment_header();
    v2[4] = 2;
    assert_eq!(Err(BlockError::InvalidChunkHeader), check_segment_header(&v2));
    assert_eq!(Err(BlockError::InvalidChunkHeader), check_segment_header(&[0x85, 0xBD, 0x40]));
    let r = Block::new("b".to_string(), meta(1, 1), 255, &vec![(bad, 8)], querier_index());
    assert_eq!(BlockError::InvalidChunkHeader, r.err().unwrap());
}

#[test]
fn block_directories() {
    let id = "01GNXGKS4HSZSQ5KX88D79BJTN";
    assert_eq!(Some(ulid::Ulid::from_string(id).unwrap().0), block_ulid(id));
    assert_eq!(None, block_ulid("wal"));
    let entries = vec![
        (id.to_string(), true),
        ("wal".to_string(), true),
        ("01DXXFZDYD1MQW6079WK0K6EDQ".to_string(), false),
        ("chunks_head".to_string(), true),
    ];
    assert_eq!(vec![id.to_string()], select_block_dirs(&entries));
}

#[test]
fn block_planning() {
    assert_eq!(Some(1), find_block(&vec![5, 7], 7));
    assert_eq!(None, find_block(&vec![5, 7], 8));
    assert_eq!(
        vec![BlockSource::Skip, BlockSource::Reuse(0), BlockSource::Open],
        plan_blocks(&vec![None, Some(5), Some(9)], &vec![5, 7]),
    );
}

#[test]
fn test_open_block() {
    let entries = vec![("01GNXGKS4HSZSQ5KX88D79BJTN".to_string(), true)];
    assert_eq!(vec!["01GNXGKS4HSZSQ5KX88D79BJTN".to_string()], select_block_dirs(&entries));
}

#[test]
fn chunk_segment_total() {
    let b = block(1, querier_index());
    assert_eq!(1844, b.chunk_bytes());
    assert_eq!(255, b.num_byte_meta());
}

#[test]
fn failed_index_is_an_index_error() {
    let r = Block::new("b".to_string(), meta(1, 1), 255, &vec![(segment_header(), 8)], vec![0; 3]);
    assert_eq!(BlockError::Index(IndexError::InvalidSize(3)), r.err().unwrap());
}
