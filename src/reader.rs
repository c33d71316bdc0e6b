//! The index reader: header, table of contents, symbol table, the sparse
//! postings offset index, postings lists and series.
use vstd::prelude::*;
use crate::encoding::{
    be_u32, be_u64, bytes_at, copy_range, crc32c, crc32c_of, frame_at, new_decbuf_at, read_u32_be,
    read_u64_be, read_uvarint, read_varint_span, utf8_string, uvarint_at,
};
use crate::error::IndexError;
use crate::labels::{Label, Labels};
use crate::order::{compare_bytes, lex_lt};
use crate::postings::{Postings, be_ids, be_ids_ascending, ids_from, strictly_ascending};
use crate::symbols::{Symbols, lookup_post, symbol_frame_ok, symbol_list};
use crate::order::lex_sorted;
use crate::encoding::clamp_u64;
use vstd::utf8::{decode_utf8, encode_utf8, valid_utf8};

verus! {

/// Bytes in the index header: the magic and the format version.
pub const HEADER_LEN: u64 = 5;

/// The first four bytes of every index file.
pub const MAGIC_INDEX: u32 = 0xBAAAD700;

pub const FORMAT_V1: u8 = 1;

pub const FORMAT_V2: u8 = 2;

/// Bytes in the table of contents: six offsets and their CRC32C.
pub const INDEX_TOC_LEN: u64 = 52;

/// Where each section of the index starts.
#[derive(Debug, Clone, Copy, PartialEq, Eq, Structural)]
pub struct Toc {
    pub symbols: u64,
    pub series: u64,
    pub label_indices: u64,
    pub label_indices_table: u64,
    pub postings: u64,
    pub postings_table: u64,
}

/// The table of contents at the end of the index `data`.
pub open spec fn toc_at(data: Seq<u8>) -> Result<Toc, IndexError> {
    if data.len() <= 52 {
        Err(IndexError::InvalidTocSize(data.len() as u64))
    } else {
        let s = data.len() - 52;
        let stored = be_u32(data, s + 48);
        let actual = crc32c_of(data.subrange(s, s + 48));
        if stored != actual as int {
            Err(IndexError::InvalidChecksum(stored as u32, actual))
        } else {
            Ok(Toc {
                symbols: be_u64(data, s) as u64,
                series: be_u64(data, s + 8) as u64,
                label_indices: be_u64(data, s + 16) as u64,
                label_indices_table: be_u64(data, s + 24) as u64,
                postings: be_u64(data, s + 32) as u64,
                postings_table: be_u64(data, s + 40) as u64,
            })
        }
    }
}

/// Reads the table of contents of the index `data`.
pub fn new_toc(data: &[u8]) -> (r: Result<Toc, IndexError>)
    ensures
        r == toc_at(data@),
{
    let size = data.len();
    if size <= 52 {
        return Err(IndexError::InvalidTocSize(size as u64));
    }
    let s = size - 52;
    let stored = read_u32_be(data, s + 48);
    let actual = crc32c(&data[s..s + 48]);
    if stored != actual {
        return Err(IndexError::InvalidChecksum(stored, actual));
    }
    Ok(Toc {
        symbols: read_u64_be(data, s),
        series: read_u64_be(data, s + 8),
        label_indices: read_u64_be(data, s + 16),
        label_indices_table: read_u64_be(data, s + 24),
        postings: read_u64_be(data, s + 32),
        postings_table: read_u64_be(data, s + 40),
    })
}

/// The format version that the header of the index `data` names.
pub open spec fn header_at(data: Seq<u8>) -> Result<u8, IndexError> {
    if data.len() <= 5 {
        Err(IndexError::InvalidSize(data.len() as u64))
    } else if be_u32(data, 0) != 0xBAAAD700 {
        Err(IndexError::InvalidMagicNumber(be_u32(data, 0) as u32))
    } else if data[4] != 1 && data[4] != 2 {
        Err(IndexError::InvalidIndexVersion(data[4]))
    } else {
        Ok(data[4])
    }
}

/// Checks the header of the index `data` and returns its format version.
pub fn read_header(data: &[u8]) -> (r: Result<u8, IndexError>)
    ensures
        r == header_at(data@),
{
    let size = data.len();
    if size <= 5 {
        return Err(IndexError::InvalidSize(size as u64));
    }
    let magic = read_u32_be(data, 0);
    if magic != MAGIC_INDEX {
        return Err(IndexError::InvalidMagicNumber(magic));
    }
    let version = data[4];
    if version != FORMAT_V1 && version != FORMAT_V2 {
        return Err(IndexError::InvalidIndexVersion(version));
    }
    Ok(version)
}

/// The postings offset table entry at `pos`: label name, label value, where
/// its postings list starts, and the position just past the entry.
pub open spec fn entry_at(b: Seq<u8>, pos: int) -> Result<(Seq<u8>, Seq<u8>, u64, int), IndexError> {
    match uvarint_at(b, pos) {
        None => Err(IndexError::UnexpectedEnd),
        Some((kc, p1)) => if kc != 2 {
            Err(IndexError::InvalidPostingsEntry(kc))
        } else {
            match bytes_at(b, p1) {
                None => Err(IndexError::UnexpectedEnd),
                Some((name, p2)) => match bytes_at(b, p2) {
                    None => Err(IndexError::UnexpectedEnd),
                    Some((value, p3)) => match uvarint_at(b, p3) {
                        None => Err(IndexError::UnexpectedEnd),
                        Some((off, p4)) => Ok((name, value, off, p4)),
                    },
                },
            }
        },
    }
}

/// Where the `k`-th entry of the table payload `b` starts, where all before
/// it parse.
pub open spec fn entry_pos(b: Seq<u8>, k: nat) -> Option<int>
    decreases k,
{
    if k == 0 {
        Some(4)
    } else {
        match entry_pos(b, (k - 1) as nat) {
            Some(p) => match entry_at(b, p) {
                Ok(e) => Some(e.3),
                Err(_) => None,
            },
            None => None,
        }
    }
}

/// The payload holds a big-endian `u32` count, then that many entries.
pub open spec fn table_ok(b: Seq<u8>) -> bool {
    b.len() >= 4 && entry_pos(b, be_u32(b, 0) as nat) is Some
}

/// The entries of a table payload: name, value, postings list offset, and
/// the entry's own position in the payload.
pub open spec fn table_entries(b: Seq<u8>) -> Seq<(Seq<u8>, Seq<u8>, u64, int)> {
    Seq::new(be_u32(b, 0) as nat, |k: int| {
        let p = entry_pos(b, k as nat).unwrap();
        let e = entry_at(b, p)->Ok_0;
        (e.0, e.1, e.2, p)
    })
}

/// Why a table payload does not parse: the error of its first bad entry.
pub open spec fn table_error(b: Seq<u8>, e: IndexError) -> bool {
    if b.len() < 4 {
        e == IndexError::UnexpectedEnd
    } else {
        exists|k: nat| k < be_u32(b, 0) && #[trigger] entry_pos(b, k) is Some
            && entry_at(b, entry_pos(b, k).unwrap()) == Err::<(Seq<u8>, Seq<u8>, u64, int), IndexError>(e)
    }
}

/// A label name with the kept entries of its values: value and entry position.
pub type Group = (Seq<u8>, Seq<(Seq<u8>, u64)>);

pub open spec fn push_last(g: Seq<Group>, x: (Seq<u8>, u64)) -> Seq<Group> {
    g.update(g.len() - 1, (g.last().0, g.last().1.push(x)))
}

pub open spec fn flush(g: Seq<Group>, prev: Option<(Seq<u8>, u64)>) -> Seq<Group> {
    match prev {
        Some(x) => push_last(g, x),
        None => g,
    }
}

/// One entry folded into the sparse index: a new name opens a group and
/// takes the held-back last value of the name before; within a name every
/// 32nd value is kept and the others are held back until the next one.
pub open spec fn sparse_step(
    st: (Seq<Group>, Option<(Seq<u8>, u64)>, nat),
    e: (Seq<u8>, Seq<u8>, u64, int),
) -> (Seq<Group>, Option<(Seq<u8>, u64)>, nat) {
    let g1 = if st.0.len() == 0 || st.0.last().0 != e.0 {
        flush(st.0, st.1).push((e.0, Seq::empty()))
    } else {
        st.0
    };
    let cnt1 = if st.0.len() == 0 || st.0.last().0 != e.0 { 0 } else { st.2 };
    if cnt1 % 32 == 0 {
        (push_last(g1, (e.1, e.3 as u64)), None, cnt1 + 1)
    } else {
        (g1, Some((e.1, e.3 as u64)), cnt1 + 1)
    }
}

pub open spec fn sparse_fold(es: Seq<(Seq<u8>, Seq<u8>, u64, int)>, n: nat) -> (Seq<Group>, Option<(Seq<u8>, u64)>, nat)
    decreases n,
{
    if n == 0 {
        (Seq::empty(), None, 0)
    } else {
        sparse_step(sparse_fold(es, (n - 1) as nat), es[n - 1])
    }
}

/// The sparse index of the entries: per label name, in order of first
/// appearance, every 32nd value and the last one.
pub open spec fn sparse_index(es: Seq<(Seq<u8>, Seq<u8>, u64, int)>) -> Seq<Group> {
    let st = sparse_fold(es, es.len());
    flush(st.0, st.1)
}

/// A kept entry of the postings offset table: a label value and the
/// position of its entry in the table.
#[derive(Debug, Clone, PartialEq, Eq)]
pub struct PostingOffset {
    pub value: Vec<u8>,
    pub off: u64,
}

pub open spec fn group_view(g: (Vec<u8>, Vec<PostingOffset>)) -> Group {
    (g.0@, g.1@.map_values(|p: PostingOffset| (p.value@, p.off)))
}

pub open spec fn groups_view(v: Seq<(Vec<u8>, Vec<PostingOffset>)>) -> Seq<Group> {
    v.map_values(|g: (Vec<u8>, Vec<PostingOffset>)| group_view(g))
}

/// Reads the entry at `pos`: spans of the name and the value, the postings
/// list offset, and the position past the entry.
fn read_entry(b: &[u8], pos: usize) -> (r: Result<(usize, usize, usize, usize, u64, usize), IndexError>)
    requires
        pos <= b@.len(),
    ensures
        match r {
            Ok((ns, ne, vs, ve, off, end)) => {
                &&& ns <= ne <= b@.len()
                &&& vs <= ve <= b@.len()
                &&& pos < end <= b@.len()
                &&& entry_at(b@, pos as int) == Ok::<(Seq<u8>, Seq<u8>, u64, int), IndexError>(
                    (b@.subrange(ns as int, ne as int), b@.subrange(vs as int, ve as int), off, end as int))
            },
            Err(e) => entry_at(b@, pos as int) == Err::<(Seq<u8>, Seq<u8>, u64, int), IndexError>(e),
        },
{
    let (kc, p1) = read_uvarint(b, pos)?;
    if kc != 2 {
        return Err(IndexError::InvalidPostingsEntry(kc));
    }
    let (ns, ne) = read_varint_span(b, p1)?;
    let (vs, ve) = read_varint_span(b, ne)?;
    let (off, end) = read_uvarint(b, ve)?;
    Ok((ns, ne, vs, ve, off, end))
}

proof fn lemma_entry_pos_prefix(b: Seq<u8>, k: nat, j: nat)
    requires
        entry_pos(b, k) is Some,
        j <= k,
    ensures
        entry_pos(b, j) is Some,
    decreases k,
{
    if j < k {
        lemma_entry_pos_prefix(b, (k - 1) as nat, j);
    }
}

/// Adds `p` to the values of the last label name.
fn push_to_last(groups: &mut Vec<(Vec<u8>, Vec<PostingOffset>)>, p: PostingOffset)
    requires
        old(groups)@.len() > 0,
    ensures
        final(groups)@.len() == old(groups)@.len(),
        groups_view(final(groups)@) == push_last(groups_view(old(groups)@), (p.value@, p.off)),
{
    let ghost x = (p.value@, p.off);
    let last = groups.len() - 1;
    groups[last].1.push(p);
    proof {
        let ov = groups_view(old(groups)@);
        assert(group_view(groups@[last as int]) =~= (ov.last().0, ov.last().1.push(x)));
        assert(groups_view(groups@) =~= push_last(ov, x));
    }
}

/// Opens the values of a new label name.
fn push_group(groups: &mut Vec<(Vec<u8>, Vec<PostingOffset>)>, name: Vec<u8>)
    ensures
        groups_view(final(groups)@) == groups_view(old(groups)@).push((name@, Seq::<(Seq<u8>, u64)>::empty())),
{
    let ghost n = name@;
    groups.push((name, Vec::new()));
    proof {
        assert(group_view(groups@.last()) =~= (n, Seq::<(Seq<u8>, u64)>::empty()));
        assert(groups_view(groups@) =~= groups_view(old(groups)@).push((n, Seq::<(Seq<u8>, u64)>::empty())));
    }
}

/// Builds the sparse index of the postings offset table payload `buf`.
fn sparse_postings_index(buf: &Vec<u8>) -> (r: Result<Vec<(Vec<u8>, Vec<PostingOffset>)>, IndexError>)
    ensures
        match r {
            Ok(g) => table_ok(buf@) && groups_view(g@) == sparse_index(table_entries(buf@)),
            Err(e) => !table_ok(buf@) && table_error(buf@, e),
        },
{
    if buf.len() < 4 {
        return Err(IndexError::UnexpectedEnd);
    }
    let count = read_u32_be(buf.as_slice(), 0);
    let ghost es = table_entries(buf@);
    let mut groups: Vec<(Vec<u8>, Vec<PostingOffset>)> = Vec::new();
    let mut prev: Option<(Vec<u8>, u64)> = None;
    let mut value_count: u64 = 0;
    let mut pos: usize = 4;
    let mut k: u32 = 0;
    while k < count
        invariant
            buf@.len() >= 4,
            count == be_u32(buf@, 0),
            es == table_entries(buf@),
            k <= count,
            4 <= pos <= buf@.len(),
            entry_pos(buf@, k as nat) == Some(pos as int),
            value_count <= k,
            groups@.len() > 0 || prev is None,
            groups_view(groups@) == sparse_fold(es, k as nat).0,
            sparse_fold(es, k as nat).1 == match prev {
                Some(p) => Some((p.0@, p.1)),
                None => None::<(Seq<u8>, u64)>,
            },
            sparse_fold(es, k as nat).2 == value_count,
        decreases count - k,
    {
        let (ns, ne, vs, ve, off, end) = match read_entry(buf.as_slice(), pos) {
            Ok(en) => en,
            Err(e) => {
                proof {
                    assert(entry_pos(buf@, (k + 1) as nat) is None);
                    if table_ok(buf@) {
                        lemma_entry_pos_prefix(buf@, count as nat, (k + 1) as nat);
                    }
                }
                return Err(e);
            },
        };
        let name = copy_range(buf.as_slice(), ns, ne);
        let value = copy_range(buf.as_slice(), vs, ve);
        let ghost e = es[k as int];
        assert(e == (name@, value@, off, pos as int));
        let ghost st = sparse_fold(es, k as nat);
        let is_new = if groups.len() == 0 {
            true
        } else {
            let last = groups.len() - 1;
            compare_bytes(groups[last].0.as_slice(), name.as_slice()) != 0
        };
        assert(is_new == (st.0.len() == 0 || st.0.last().0 != e.0));
        if is_new {
            match prev {
                Some(p) => {
                    push_to_last(&mut groups, PostingOffset { value: p.0, off: p.1 });
                },
                None => {},
            }
            prev = None;
            push_group(&mut groups, name);
            value_count = 0;
        }
        if value_count % 32 == 0 {
            push_to_last(&mut groups, PostingOffset { value, off: pos as u64 });
            prev = None;
        } else {
            prev = Some((value, pos as u64));
        }
        value_count += 1;
        assert(groups_view(groups@) == sparse_fold(es, (k + 1) as nat).0);
        pos = end;
        k += 1;
    }
    match prev {
        Some(p) => {
            push_to_last(&mut groups, PostingOffset { value: p.0, off: p.1 });
        },
        None => {},
    }
    Ok(groups)
}

/// The ids of the postings list whose frame starts at `off` of the index:
/// a count, then that many strictly ascending big-endian `u32` ids.
pub open spec fn postings_list_at(data: Seq<u8>, off: int) -> Result<Seq<u64>, IndexError> {
    match frame_at(data, off, true) {
        Err(e) => Err(e),
        Ok(p) => if p.len() >= 4 && p.len() == 4 + 4 * be_u32(p, 0)
            && strictly_ascending(be_ids(p.subrange(4, p.len() as int))) {
            Ok(be_ids(p.subrange(4, p.len() as int)))
        } else {
            Err(IndexError::InvalidPostingsList)
        },
    }
}

/// Reads the postings list whose frame starts at `off` of the index `data`.
pub fn read_postings_list(data: &[u8], off: u64) -> (r: Result<Postings, IndexError>)
    ensures
        match r {
            Ok(p) => p.wf() && postings_list_at(data@, off as int) is Ok
                && p.ids() == ids_from(postings_list_at(data@, off as int)->Ok_0, 0),
            Err(e) => postings_list_at(data@, off as int) == Err::<Seq<u64>, IndexError>(e),
        },
{
    let buf = new_decbuf_at(data, off, true)?;
    let n = buf.len();
    if n < 4 {
        return Err(IndexError::InvalidPostingsList);
    }
    let count = read_u32_be(buf.as_slice(), 0) as u64;
    if (n - 4) as u64 != 4 * count {
        return Err(IndexError::InvalidPostingsList);
    }
    let ids = copy_range(buf.as_slice(), 4, n);
    if !be_ids_ascending(&ids) {
        return Err(IndexError::InvalidPostingsList);
    }
    Ok(Postings::new_big_endian(ids))
}

/// The text of UTF-8 bytes.
pub fn to_string(buf: &[u8]) -> (r: Result<String, IndexError>)
    ensures
        match r {
            Ok(s) => valid_utf8(buf@) && s@ == decode_utf8(buf@),
            Err(e) => !valid_utf8(buf@) && e == IndexError::InvalidUtf8,
        },
{
    match utf8_string(buf) {
        Some(s) => Ok(s),
        None => Err(IndexError::InvalidUtf8),
    }
}

/// Why reading the index `data` failed with `e`: the first of header, table
/// of contents, symbol table and postings offset table that is bad, or, where
/// all are sound, a label name that is not UTF-8 or not a symbol.
pub open spec fn build_error(data: Seq<u8>, e: IndexError) -> bool {
    let toc = toc_at(data)->Ok_0;
    let syms = frame_at(data, toc.symbols as int, true);
    let table = frame_at(data, toc.postings_table as int, true);
    if header_at(data) is Err {
        header_at(data) == Err::<u8, IndexError>(e)
    } else if toc_at(data) is Err {
        toc_at(data) == Err::<Toc, IndexError>(e)
    } else if syms is Err {
        syms == Err::<Seq<u8>, IndexError>(e)
    } else if !symbol_frame_ok(syms->Ok_0) {
        e == IndexError::UnexpectedEnd
    } else if header_at(data)->Ok_0 == 2 && table is Err {
        table == Err::<Seq<u8>, IndexError>(e)
    } else if header_at(data)->Ok_0 == 2 && !table_ok(table->Ok_0) {
        table_error(table->Ok_0, e)
    } else {
        let g = sparse_index(table_entries(table->Ok_0));
        let syms = symbol_list(syms->Ok_0);
        header_at(data)->Ok_0 == 2 && exists|i: int| 0 <= i < g.len() && (#[trigger] g[i]).0.len() > 0 && {
            ||| (!valid_utf8(g[i].0) && e == IndexError::InvalidUtf8)
            ||| (valid_utf8(g[i].0) && e == IndexError::SymbolNotFound
                && (lex_sorted(syms) ==> !syms.contains(g[i].0)))
        }
    }
}

/// The label names that the sparse index lists.
pub open spec fn group_names(g: Seq<Group>) -> Seq<Seq<u8>> {
    g.map_values(|x: Group| x.0)
}

/// The reader of one index file, held in memory.
pub struct Reader {
    inner: Vec<u8>,
    version: u8,
    toc: Toc,
    symbols: Symbols,
    table: Vec<u8>,
    postings: Vec<(Vec<u8>, Vec<PostingOffset>)>,
    name_symbols: Vec<(u64, String)>,
}

impl Reader {
    /// The index file.
    pub closed spec fn data(self) -> Seq<u8> {
        self.inner@
    }

    /// The payload of the postings offset table.
    pub closed spec fn table(self) -> Seq<u8> {
        self.table@
    }

    /// The sparse postings offset index.
    pub closed spec fn groups(self) -> Seq<Group> {
        groups_view(self.postings@)
    }

    pub closed spec fn symbol_table(self) -> Symbols {
        self.symbols
    }

    pub closed spec fn format(self) -> u8 {
        self.version
    }

    pub closed spec fn toc_view(self) -> Toc {
        self.toc
    }

    /// Label names with their symbol ids.
    pub closed spec fn name_ids(self) -> Seq<(u64, Seq<char>)> {
        self.name_symbols@.map_values(|x: (u64, String)| (x.0, x.1@))
    }

    pub closed spec fn wf(self) -> bool {
        &&& self.symbols.wf()
        &&& (self.version == 1 || self.version == 2)
        &&& (self.version == 2 ==> table_ok(self.table@)
            && groups_view(self.postings@) == sparse_index(table_entries(self.table@)))
        &&& (self.version == 1 ==> self.postings@.len() == 0)
    }

    /// Reads the header, the table of contents, the symbol table and the
    /// sparse postings offset index of the index file `data`.
    #[verifier::rlimit(60)]
    pub fn build(data: Vec<u8>) -> (r: Result<Reader, IndexError>)
        ensures
            match r {
                Ok(rd) => {
                    &&& rd.wf()
                    &&& rd.data() == data@
                    &&& header_at(data@) == Ok::<u8, IndexError>(rd.format())
                    &&& toc_at(data@) == Ok::<Toc, IndexError>(rd.toc_view())
                    &&& frame_at(data@, rd.toc_view().symbols as int, true)
                        == Ok::<Seq<u8>, IndexError>(rd.symbol_table().frame())
                    &&& rd.format() == 2 ==> frame_at(data@, rd.toc_view().postings_table as int, true)
                        == Ok::<Seq<u8>, IndexError>(rd.table())
                    &&& rd.format() == 2 ==> rd.groups() == sparse_index(table_entries(rd.table()))
                    &&& rd.format() == 1 ==> rd.groups().len() == 0
                    &&& forall|j: int| 0 <= j < rd.groups().len() && (#[trigger] rd.groups()[j]).0.len() > 0 ==>
                        exists|k: int| 0 <= k < rd.name_ids().len() && encode_utf8(rd.name_ids()[k].1) == rd.groups()[j].0
                    &&& forall|k: int| 0 <= k < rd.name_ids().len() ==> {
                        let (id, name) = #[trigger] rd.name_ids()[k];
                        &&& id < rd.symbol_table().symbols().len()
                        &&& rd.symbol_table().symbols()[id as int] == encode_utf8(name)
                        &&& group_names(rd.groups()).contains(encode_utf8(name))
                    }
                },
                Err(e) => build_error(data@, e),
            },
    {
        let version = read_header(data.as_slice())?;
        let toc = new_toc(data.as_slice())?;
        let symbols = Symbols::new(data.as_slice(), FORMAT_V2, toc.symbols)?;
        let mut table: Vec<u8> = Vec::new();
        let mut postings: Vec<(Vec<u8>, Vec<PostingOffset>)> = Vec::new();
        if version == FORMAT_V2 {
            table = new_decbuf_at(data.as_slice(), toc.postings_table, true)?;
            postings = sparse_postings_index(&table)?;
        }
        let mut name_symbols: Vec<(u64, String)> = Vec::new();
        let n = postings.len();
        let mut i: usize = 0;
        while i < n
            invariant
                n == postings@.len(),
                i <= n,
                symbols.wf(),
                header_at(data@) == Ok::<u8, IndexError>(version),
                toc_at(data@) == Ok::<Toc, IndexError>(toc),
                frame_at(data@, toc.symbols as int, true) == Ok::<Seq<u8>, IndexError>(symbols.frame()),
                symbol_frame_ok(symbols.frame()),
                symbols.symbols() == symbol_list(symbols.frame()),
                version == 2 ==> frame_at(data@, toc.postings_table as int, true) == Ok::<Seq<u8>, IndexError>(table@)
                    && table_ok(table@) && groups_view(postings@) == sparse_index(table_entries(table@)),
                version == 1 ==> postings@.len() == 0,
                version == 1 || version == 2,
                forall|j: int| 0 <= j < i && (#[trigger] postings@[j]).0@.len() > 0 ==>
                    exists|k: int| 0 <= k < name_symbols@.len() && encode_utf8(name_symbols@[k].1@) == postings@[j].0@,
                forall|k: int| 0 <= k < name_symbols@.len() ==> {
                    let (id, name) = #[trigger] name_symbols@[k];
                    &&& id < symbols.symbols().len()
                    &&& symbols.symbols()[id as int] == encode_utf8(name@)
                    &&& group_names(groups_view(postings@)).contains(encode_utf8(name@))
                },
            decreases n - i,
        {
            let ghost gv = groups_view(postings@);
            assert(gv[i as int].0 == postings@[i as int].0@);
            if postings[i].0.len() > 0 {
                let text = match to_string(postings[i].0.as_slice()) {
                    Ok(t) => t,
                    Err(e) => {
                        assert(gv[i as int].0.len() > 0 && !valid_utf8(gv[i as int].0));
                        return Err(e);
                    },
                };
                proof {
                    vstd::utf8::decode_utf8_encode_utf8(postings@[i as int].0@);
                }
                match symbols.reverse_lookup(text.as_str()) {
                    Ok(id) => {
                        proof {
                            assert(group_names(groups_view(postings@))[i as int] == encode_utf8(text@));
                        }
                        let ghost before = name_symbols@;
                        name_symbols.push((id, text));
                        proof {
                            assert forall|j: int| 0 <= j < i + 1 && (#[trigger] postings@[j]).0@.len() > 0 implies
                                exists|k: int| 0 <= k < name_symbols@.len() && encode_utf8(name_symbols@[k].1@) == postings@[j].0@ by {
                                if j < i {
                                    let k = choose|k: int| 0 <= k < before.len() && encode_utf8(before[k].1@) == postings@[j].0@;
                                    assert(name_symbols@[k] == before[k]);
                                } else {
                                    assert(name_symbols@[before.len() as int].1@ == text@);
                                }
                            }
                        }
                    },
                    Err(e) => {
                        assert(gv[i as int].0.len() > 0 && valid_utf8(gv[i as int].0) && e == IndexError::SymbolNotFound
                            && (lex_sorted(symbol_list(symbols.frame())) ==> !symbol_list(symbols.frame()).contains(gv[i as int].0)));
                        return Err(e);
                    },
                }
            }
            i += 1;
        }
        let r = Reader { inner: data, version, toc, symbols, table, postings, name_symbols };
        assert(forall|k: int| 0 <= k < r.name_ids().len() ==> #[trigger] r.name_ids()[k] == (r.name_symbols@[k].0, r.name_symbols@[k].1@));
        proof {
            assert forall|j: int| 0 <= j < r.groups().len() && (#[trigger] r.groups()[j]).0.len() > 0 implies
                exists|k: int| 0 <= k < r.name_ids().len() && encode_utf8(r.name_ids()[k].1) == r.groups()[j].0 by {
                assert(r.groups()[j].0 == postings@[j].0@);
                let k = choose|k: int| 0 <= k < name_symbols@.len() && encode_utf8(name_symbols@[k].1@) == postings@[j].0@;
                assert(r.name_ids()[k].1 == name_symbols@[k].1@);
            }
        }
        Ok(r)
    }

    pub fn toc(&self) -> (r: Toc)
        ensures
            r == self.toc_view(),
    {
        self.toc
    }

    pub fn version(&self) -> (r: u8)
        ensures
            r == self.format(),
    {
        self.version
    }

    pub fn symbols(&self) -> (r: &Symbols)
        ensures
            *r == self.symbol_table(),
    {
        &self.symbols
    }

    /// The sparse postings offset index: per label name, the kept values
    /// and the positions of their entries in the table.
    pub fn posting_offsets(&self) -> (r: &Vec<(Vec<u8>, Vec<PostingOffset>)>)
        ensures
            groups_view(r@) == self.groups(),
    {
        &self.postings
    }

    /// Label names with their symbol ids.
    pub fn name_symbols(&self) -> (r: &Vec<(u64, String)>)
        ensures
            r@.map_values(|x: (u64, String)| (x.0, x.1@)) == self.name_ids(),
    {
        &self.name_symbols
    }

    /// The position of the label name `name` in the sparse index.
    fn find_group(&self, name: &[u8]) -> (r: Option<usize>)
        ensures
            match r {
                Some(i) => i < self.groups().len() && self.groups()[i as int].0 == name@
                    && forall|h: int| 0 <= h < i ==> self.groups()[h].0 != name@,
                None => !group_names(self.groups()).contains(name@),
            },
    {
        let n = self.postings.len();
        let mut i: usize = 0;
        while i < n
            invariant
                n == self.postings@.len(),
                i <= n,
                forall|k: int| 0 <= k < i ==> self.postings@[k].0@ != name@,
            decreases n - i,
        {
            if compare_bytes(self.postings[i].0.as_slice(), name) == 0 {
                assert(forall|h: int| 0 <= h < i ==> self.groups()[h].0 == self.postings@[h].0@);
                return Some(i);
            }
            i += 1;
        }
        proof {
            if group_names(self.groups()).contains(name@) {
                let k = choose|k: int| 0 <= k < group_names(self.groups()).len() && group_names(self.groups())[k] == name@;
                assert(self.postings@[k].0@ == name@);
            }
        }
        None
    }
}

/// The UTF-8 bytes of each string.
pub open spec fn utf8_of(values: Seq<&str>) -> Seq<Seq<u8>> {
    values.map_values(|v: &str| encode_utf8(v@))
}

impl Reader {
    /// `x` is in the postings list of the table entry at `pos`, whose label
    /// name is `name` and whose value is one of `vals`.
    pub open spec fn entry_holds(self, name: Seq<u8>, vals: Seq<Seq<u8>>, pos: int, x: u64) -> bool {
        let e = entry_at(self.table(), pos)->Ok_0;
        &&& entry_at(self.table(), pos) is Ok
        &&& e.0 == name
        &&& vals.contains(e.1)
        &&& postings_list_at(self.data(), e.2 as int) is Ok
        &&& ids_from(postings_list_at(self.data(), e.2 as int)->Ok_0, 0).contains(x)
    }

    /// `name` is the name of the `g`-th group and of none before it.
    pub open spec fn first_group(self, name: Seq<u8>, g: int) -> bool {
        &&& 0 <= g < self.groups().len()
        &&& self.groups()[g].0 == name
        &&& forall|h: int| 0 <= h < g ==> self.groups()[h].0 != name
    }

    /// A lookup of `name` with `vals` finds nothing without reading the table:
    /// the name is absent, no value is asked for, or every value sorts below
    /// the name's first value.
    pub open spec fn nothing_for(self, name: Seq<u8>, vals: Seq<Seq<u8>>) -> bool {
        ||| !group_names(self.groups()).contains(name)
        ||| vals.len() == 0
        ||| exists|g: int| #[trigger] self.first_group(name, g) && self.groups()[g].1.len() > 0
            && forall|i: int| 0 <= i < vals.len() ==> lex_lt(vals[i], self.groups()[g].1[0].0)
    }

    /// The first kept value of `name` whose value is not below `target`, or
    /// the number of kept values.
    fn value_lower_bound(&self, g: usize, target: &[u8]) -> (r: usize)
        requires
            g < self.postings@.len(),
        ensures
            r <= self.postings@[g as int].1@.len(),
    {
        let offs = &self.postings[g].1;
        let mut lo: usize = 0;
        let mut hi: usize = offs.len();
        while lo < hi
            invariant
                0 <= lo <= hi <= offs@.len(),
            decreases hi - lo,
        {
            let mid = lo + (hi - lo) / 2;
            if compare_bytes(offs[mid].value.as_slice(), target) < 0 {
                lo = mid + 1;
            } else {
                hi = mid;
            }
        }
        lo
    }

    /// The postings of the series whose label `name` has one of `values`,
    /// which come sorted.
    pub fn postings(&self, name: &str, values: &[&str]) -> (r: Result<Postings, IndexError>)
        requires
            self.wf(),
        ensures
            r matches Ok(p) ==> p.wf() && forall|x: u64| #[trigger] p.ids().contains(x)
                ==> exists|pos: int| self.entry_holds(encode_utf8(name@), utf8_of(values@), pos, x),
            self.nothing_for(encode_utf8(name@), utf8_of(values@))
                ==> (r is Ok && r->Ok_0.ids() == Set::<u64>::empty()),
    {
        let nb = name.as_bytes();
        let ghost vals = utf8_of(values@);
        let gi = match self.find_group(nb) {
            None => {
                return Ok(Postings::new_empty());
            },
            Some(g) => g,
        };
        let m = self.postings[gi].1.len();
        if values.len() == 0 || m == 0 {
            return Ok(Postings::new_empty());
        }
        let ghost first = self.groups()[gi as int].1[0].0;
        assert(self.postings[gi as int].1@[0].value@ == first);
        let mut vi: usize = 0;
        while vi < values.len() && compare_bytes(values[vi].as_bytes(), self.postings[gi].1[0].value.as_slice()) < 0
            invariant
                vi <= values@.len(),
                gi < self.postings@.len(),
                m == self.postings@[gi as int].1@.len(),
                m > 0,
                first == self.postings@[gi as int].1@[0].value@,
                vals == utf8_of(values@),
                forall|k: int| 0 <= k < vi ==> lex_lt(vals[k], first),
            decreases values@.len() - vi,
        {
            vi += 1;
        }
        if vi == values.len() {
            return Ok(Postings::new_empty());
        }
        let ghost stop = vi;
        proof {
            assert(!lex_lt(vals[stop as int], first));
            assert(group_names(self.groups())[gi as int] == nb@);
            if exists|g: int| #[trigger] self.first_group(nb@, g) && self.groups()[g].1.len() > 0
                && forall|i: int| 0 <= i < vals.len() ==> lex_lt(vals[i], self.groups()[g].1[0].0) {
                let g = choose|g: int| #[trigger] self.first_group(nb@, g) && self.groups()[g].1.len() > 0
                    && forall|i: int| 0 <= i < vals.len() ==> lex_lt(vals[i], self.groups()[g].1[0].0);
                if g < gi {
                } else if g > gi {
                    assert(self.groups()[gi as int].0 != nb@);
                } else {
                    assert(lex_lt(vals[stop as int], first));
                }
            }
            assert(!self.nothing_for(nb@, vals));
        }
        let end = self.postings[gi].1[m - 1].off;
        let table = self.table.as_slice();
        let mut res: Vec<Postings> = Vec::new();
        while vi < values.len()
            invariant
                vi <= values@.len(),
                gi < self.postings@.len(),
                m == self.postings@[gi as int].1@.len(),
                m > 0,
                table@ == self.table(),
                vals == utf8_of(values@),
                nb@ == encode_utf8(name@),
                !self.nothing_for(nb@, vals),
                forall|j: int| 0 <= j < res@.len() ==> (#[trigger] res@[j]).wf(),
                forall|j: int, x: u64| 0 <= j < res@.len() && #[trigger] res@[j].ids().contains(x)
                    ==> exists|pos: int| self.entry_holds(nb@, vals, pos, x),
            decreases values@.len() - vi,
        {
            let target = values[vi].as_bytes();
            let ip = self.value_lower_bound(gi, target);
            let mut i: usize = 0;
            let mut beyond = false;
            if ip < m && compare_bytes(self.postings[gi].1[ip].value.as_slice(), target) == 0 {
                i = ip;
            } else if ip == m {
                beyond = true;
            } else if ip > 0 {
                i = ip - 1;
            }
            if beyond {
                vi = values.len();
            } else {
                let start = self.postings[gi].1[i].off;
                if start > table.len() as u64 {
                    return Err(IndexError::UnexpectedEnd);
                }
                let mut cur_pos = start as usize;
                let (mut ns, mut ne, mut vs, mut ve, mut cur_off, mut next) = read_entry(table, cur_pos)?;
                while compare_bytes(&table[vs..ve], target) < 0 && next as u64 <= end
                    invariant
                        table@ == self.table(),
                        !self.nothing_for(nb@, vals),
                        vals == utf8_of(values@),
                        nb@ == encode_utf8(name@),
                        cur_pos < next <= table@.len(),
                        ns <= ne <= table@.len(),
                        vs <= ve <= table@.len(),
                        entry_at(table@, cur_pos as int) == Ok::<(Seq<u8>, Seq<u8>, u64, int), IndexError>(
                            (table@.subrange(ns as int, ne as int), table@.subrange(vs as int, ve as int), cur_off, next as int)),
                    decreases table@.len() - next,
                {
                    let (ns2, ne2, vs2, ve2, off2, next2) = read_entry(table, next)?;
                    cur_pos = next;
                    ns = ns2;
                    ne = ne2;
                    vs = vs2;
                    ve = ve2;
                    cur_off = off2;
                    next = next2;
                }
                let same_name = compare_bytes(&table[ns..ne], nb) == 0;
                let vi0 = vi;
                let mut advanced = false;
                while vi < values.len() && compare_bytes(values[vi].as_bytes(), &table[vs..ve]) <= 0
                    invariant
                        vi <= values@.len(),
                        table@ == self.table(),
                        vals == utf8_of(values@),
                        nb@ == encode_utf8(name@),
                        !self.nothing_for(nb@, vals),
                        ns <= ne <= table@.len(),
                        vs <= ve <= table@.len(),
                        same_name == (table@.subrange(ns as int, ne as int) == nb@),
                        entry_at(table@, cur_pos as int) == Ok::<(Seq<u8>, Seq<u8>, u64, int), IndexError>(
                            (table@.subrange(ns as int, ne as int), table@.subrange(vs as int, ve as int), cur_off, next as int)),
                        forall|j: int| 0 <= j < res@.len() ==> (#[trigger] res@[j]).wf(),
                        forall|j: int, x: u64| 0 <= j < res@.len() && #[trigger] res@[j].ids().contains(x)
                            ==> exists|pos: int| self.entry_holds(nb@, vals, pos, x),
                        advanced ==> vi > vi0,
                        !advanced ==> vi == vi0,
                    decreases values@.len() - vi,
                {
                    if same_name && compare_bytes(values[vi].as_bytes(), &table[vs..ve]) == 0 {
                        let p = read_postings_list(self.inner.as_slice(), cur_off)?;
                        proof {
                            assert(vals[vi as int] == encode_utf8(values@[vi as int]@));
                            assert(vals.contains(table@.subrange(vs as int, ve as int)));
                            assert forall|x: u64| #[trigger] p.ids().contains(x) implies self.entry_holds(nb@, vals, cur_pos as int, x) by {}
                        }
                        res.push(p);
                    }
                    vi += 1;
                    advanced = true;
                }
                if !advanced {
                    vi += 1;
                }
            }
        }
        if res.len() == 0 {
            return Ok(Postings::new_empty());
        }
        let r = Postings::new_merge(res);
        proof {
            assert forall|x: u64| #[trigger] r.ids().contains(x) implies exists|pos: int| self.entry_holds(nb@, vals, pos, x) by {
                let j = choose|j: int| 0 <= j < res@.len() && (#[trigger] res@[j]).ids().contains(x);
            }
        }
        Ok(r)
    }
}

/// The series record at `off`: a varint length, the payload, and its CRC32C.
pub open spec fn series_frame_at(data: Seq<u8>, off: int) -> Result<Seq<u8>, IndexError> {
    match uvarint_at(data, off) {
        None => Err(IndexError::UnexpectedEnd),
        Some((n, p)) => if p + n + 4 > data.len() {
            Err(IndexError::InvalidBufSize(clamp_u64(p + n + 4), data.len() as u64))
        } else if be_u32(data, p + n) != crc32c_of(data.subrange(p, p + n)) as int {
            Err(IndexError::InvalidChecksum(be_u32(data, p + n) as u32, crc32c_of(data.subrange(p, p + n))))
        } else {
            Ok(data.subrange(p, p + n))
        },
    }
}

/// The first `k` pairs of varints from `p` on, and the position past them.
pub open spec fn refs_from(b: Seq<u8>, p: int, k: nat) -> Option<(Seq<(u64, u64)>, int)>
    decreases k,
{
    if k == 0 {
        Some((Seq::empty(), p))
    } else {
        match refs_from(b, p, (k - 1) as nat) {
            None => None,
            Some((rs, q)) => match uvarint_at(b, q) {
                None => None,
                Some((a, q1)) => match uvarint_at(b, q1) {
                    None => None,
                    Some((c, q2)) => Some((rs.push((a, c)), q2)),
                },
            },
        }
    }
}

/// The symbol ids of a series' label names and values: a varint count, then
/// that many pairs.
pub open spec fn series_refs(payload: Seq<u8>) -> Option<Seq<(u64, u64)>> {
    match uvarint_at(payload, 0) {
        None => None,
        Some((cnt, p)) => match refs_from(payload, p, cnt as nat) {
            Some((rs, _)) => Some(rs),
            None => None,
        },
    }
}

/// Where the record of series `id` starts: the reference is the position
/// divided by 16 in format 2, the position itself in format 1.
pub open spec fn series_offset(version: u8, id: u64) -> int {
    if version == 2 { 16 * id } else { id as int }
}

proof fn lemma_refs_prefix_none(b: Seq<u8>, p: int, j: nat, k: nat)
    requires
        refs_from(b, p, j) is None,
        j <= k,
    ensures
        refs_from(b, p, k) is None,
    decreases k,
{
    if j < k {
        lemma_refs_prefix_none(b, p, j, (k - 1) as nat);
    }
}

/// Where all `k` pairs parse, the first `j` of them are a prefix of them.
proof fn lemma_refs_prefix(b: Seq<u8>, p: int, j: nat, k: nat)
    requires
        refs_from(b, p, j) is Some,
        j <= k,
    ensures
        refs_from(b, p, k) is Some ==> refs_from(b, p, k)->Some_0.0.len() == k
            && refs_from(b, p, j)->Some_0.0 == refs_from(b, p, k)->Some_0.0.subrange(0, j as int),
    decreases k,
{
    if j < k {
        lemma_refs_prefix(b, p, j, (k - 1) as nat);
        if refs_from(b, p, k) is Some {
            let a = refs_from(b, p, (k - 1) as nat)->Some_0.0;
            let c = refs_from(b, p, k)->Some_0.0;
            assert(c.subrange(0, j as int) =~= a.subrange(0, j as int));
        }
    } else {
        lemma_refs_len(b, p, k);
        if refs_from(b, p, k) is Some {
            assert(refs_from(b, p, k)->Some_0.0.subrange(0, k as int) =~= refs_from(b, p, k)->Some_0.0);
        }
    }
}

proof fn lemma_refs_len(b: Seq<u8>, p: int, k: nat)
    ensures
        refs_from(b, p, k) is Some ==> refs_from(b, p, k)->Some_0.0.len() == k,
    decreases k,
{
    if k > 0 {
        lemma_refs_len(b, p, (k - 1) as nat);
    }
}

impl Reader {
    /// `ls` are the labels of series `id`: the texts of the symbols that its
    /// record refers to, in the record's order.
    pub open spec fn series_post(self, id: u64, ls: Seq<crate::labels::LabelView>) -> bool {
        let payload = series_frame_at(self.data(), series_offset(self.format(), id))->Ok_0;
        let refs = series_refs(payload)->Some_0;
        &&& series_frame_at(self.data(), series_offset(self.format(), id)) is Ok
        &&& series_refs(payload) is Some
        &&& ls.len() == refs.len()
        &&& forall|k: int| 0 <= k < refs.len() ==> {
            &&& lookup_post(self.symbol_table().symbols(), (#[trigger] refs[k]).0, Ok::<Seq<char>, IndexError>(ls[k].0))
            &&& lookup_post(self.symbol_table().symbols(), refs[k].1, Ok::<Seq<char>, IndexError>(ls[k].1))
        }
    }

    /// Why reading series `id` failed with `e`: its reference is out of
    /// range, its record is bad, or a symbol it refers to cannot be looked up.
    pub open spec fn series_error(self, id: u64, e: IndexError) -> bool {
        let frame = series_frame_at(self.data(), series_offset(self.format(), id));
        let refs = series_refs(frame->Ok_0);
        if self.format() == 2 && id > u64::MAX / 16 {
            e == IndexError::InvalidBufSize(u64::MAX, self.data().len() as u64)
        } else if frame is Err {
            frame == Err::<Seq<u8>, IndexError>(e)
        } else if refs is None {
            e == IndexError::UnexpectedEnd
        } else {
            exists|k: int| 0 <= k < refs->Some_0.len() && {
                ||| lookup_post(self.symbol_table().symbols(), (#[trigger] refs->Some_0[k]).0, Err::<Seq<char>, IndexError>(e))
                ||| lookup_post(self.symbol_table().symbols(), refs->Some_0[k].1, Err::<Seq<char>, IndexError>(e))
            }
        }
    }

    /// The labels of series `id`.
    pub fn series(&self, id: u64) -> (r: Result<Labels, IndexError>)
        requires
            self.wf(),
        ensures
            match r {
                Ok(ls) => self.series_post(id, ls@),
                Err(e) => self.series_error(id, e),
            },
    {
        let data = self.inner.as_slice();
        let size = data.len();
        let off: u64 = if self.version == FORMAT_V2 {
            if id > u64::MAX / 16 {
                return Err(IndexError::InvalidBufSize(u64::MAX, size as u64));
            }
            id * 16
        } else {
            id
        };
        if off > size as u64 {
            return Err(IndexError::UnexpectedEnd);
        }
        let (n, p) = read_uvarint(data, off as usize)?;
        if n > (size - p) as u64 || size - p - (n as usize) < 4 {
            let need = p as u128 + n as u128 + 4;
            let e: u64 = if need > u64::MAX as u128 { u64::MAX } else { need as u64 };
            return Err(IndexError::InvalidBufSize(e, size as u64));
        }
        let end = p + n as usize;
        let stored = read_u32_be(data, end);
        let actual = crc32c(&data[p..end]);
        if stored != actual {
            return Err(IndexError::InvalidChecksum(stored, actual));
        }
        let payload = &data[p..end];
        let ghost frame = series_frame_at(self.data(), series_offset(self.format(), id));
        assert(frame == Ok::<Seq<u8>, IndexError>(payload@));
        let (cnt, p0) = read_uvarint(payload, 0)?;
        let mut q = p0;
        let mut pairs: Vec<(u64, u64)> = Vec::new();
        let mut k: u64 = 0;
        while k < cnt
            invariant
                k <= cnt,
                q <= payload@.len(),
                uvarint_at(payload@, 0) == Some((cnt, p0 as int)),
                refs_from(payload@, p0 as int, k as nat) == Some((pairs@, q as int)),
                series_frame_at(self.data(), series_offset(self.format(), id)) == Ok::<Seq<u8>, IndexError>(payload@),
                !(self.format() == 2 && id > u64::MAX / 16),
            decreases cnt - k,
        {
            let (a, q1) = match read_uvarint(payload, q) {
                Ok(x) => x,
                Err(e) => {
                    proof {
                        lemma_refs_prefix_none(payload@, p0 as int, (k + 1) as nat, cnt as nat);
                    }
                    return Err(e);
                },
            };
            let (c, q2) = match read_uvarint(payload, q1) {
                Ok(x) => x,
                Err(e) => {
                    proof {
                        lemma_refs_prefix_none(payload@, p0 as int, (k + 1) as nat, cnt as nat);
                    }
                    return Err(e);
                },
            };
            pairs.push((a, c));
            q = q2;
            k += 1;
        }
        proof {
            lemma_refs_len(payload@, p0 as int, cnt as nat);
        }
        let ghost refs = pairs@;
        assert(series_refs(payload@) == Some(refs));
        let mut ls = Labels::new();
        let ghost syms = self.symbol_table().symbols();
        let n = pairs.len();
        let mut i: usize = 0;
        while i < n
            invariant
                self.wf(),
                syms == self.symbol_table().symbols(),
                n == refs.len(),
                refs == pairs@,
                i <= n,
                ls@.len() == i,
                series_frame_at(self.data(), series_offset(self.format(), id)) == Ok::<Seq<u8>, IndexError>(payload@),
                series_refs(payload@) == Some(refs),
                !(self.format() == 2 && id > u64::MAX / 16),
                forall|j: int| 0 <= j < i ==> {
                    &&& lookup_post(syms, (#[trigger] refs[j]).0, Ok::<Seq<char>, IndexError>(ls@[j].0))
                    &&& lookup_post(syms, refs[j].1, Ok::<Seq<char>, IndexError>(ls@[j].1))
                },
            decreases n - i,
        {
            let (a, c) = pairs[i];
            let name = match self.symbols.lookup(a) {
                Ok(t) => t,
                Err(e) => {
                    proof {
                        let all = series_refs(series_frame_at(self.data(), series_offset(self.format(), id))->Ok_0)->Some_0;
                        assert(all == refs);
                        assert(all[i as int].0 == a);
                        assert(lookup_post(self.symbol_table().symbols(), all[i as int].0, Err::<Seq<char>, IndexError>(e)));
                    }
                    return Err(e);
                },
            };
            let value = match self.symbols.lookup(c) {
                Ok(t) => t,
                Err(e) => {
                    proof {
                        let all = series_refs(series_frame_at(self.data(), series_offset(self.format(), id))->Ok_0)->Some_0;
                        assert(all == refs);
                        assert(all[i as int].1 == c);
                        assert(lookup_post(self.symbol_table().symbols(), all[i as int].1, Err::<Seq<char>, IndexError>(e)));
                    }
                    return Err(e);
                },
            };
            let ghost before = ls@;
            ls.push(Label::new(name, value));
            proof {
                assert forall|j: int| 0 <= j < i + 1 implies {
                    &&& lookup_post(syms, (#[trigger] refs[j]).0, Ok::<Seq<char>, IndexError>(ls@[j].0))
                    &&& lookup_post(syms, refs[j].1, Ok::<Seq<char>, IndexError>(ls@[j].1))
                } by {
                    if j < i {
                        assert(ls@[j] == before[j]);
                    }
                }
            }
            i += 1;
        }
        Ok(ls)
    }
}

} // verus!
