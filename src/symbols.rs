//! The symbol table: a sorted pool of strings that label names and values
//! refer to by id, read through an index of every 32nd string's position.
use vstd::prelude::*;
use vstd::utf8::{valid_utf8, decode_utf8, encode_utf8};
use crate::encoding::{be_u32, bytes_at, frame_at, new_decbuf_at, read_u32_be, read_varint_span, utf8_string};
use crate::error::IndexError;
use crate::order::{compare_bytes, lex_lt, lex_sorted, lemma_lex_irreflexive, lemma_lex_transitive};

verus! {

/// One position is kept for every this many symbols.
pub const SYMBOL_FACTOR: usize = 32;

/// The position of the `k`-th varint-prefixed string from `p` on, where all
/// before it parse.
pub open spec fn string_pos(b: Seq<u8>, p: int, k: nat) -> Option<int>
    decreases k,
{
    if k == 0 {
        Some(p)
    } else {
        match string_pos(b, p, (k - 1) as nat) {
            Some(q) => match bytes_at(b, q) {
                Some((_, e)) => Some(e),
                None => None,
            },
            None => None,
        }
    }
}

/// The `i`-th symbol of a symbol frame.
pub open spec fn symbol_at(b: Seq<u8>, i: nat) -> Seq<u8> {
    bytes_at(b, string_pos(b, 4, i).unwrap()).unwrap().0
}

/// The frame holds a big-endian `u32` count, then that many strings.
pub open spec fn symbol_frame_ok(b: Seq<u8>) -> bool {
    b.len() >= 4 && string_pos(b, 4, be_u32(b, 0) as nat) is Some
}

/// The symbols of a symbol frame, by id.
pub open spec fn symbol_list(b: Seq<u8>) -> Seq<Seq<u8>> {
    Seq::new(be_u32(b, 0) as nat, |i: int| symbol_at(b, i as nat))
}

/// What `lookup(id)` returns on a table holding `syms`: the symbol's text,
/// or why there is none.
pub open spec fn lookup_post(syms: Seq<Seq<u8>>, id: u64, r: Result<Seq<char>, IndexError>) -> bool {
    match r {
        Ok(s) => id < syms.len() && valid_utf8(syms[id as int]) && s == decode_utf8(syms[id as int]),
        Err(e) => if id >= syms.len() {
            e == IndexError::UnknownSymbolOffset(id)
        } else {
            !valid_utf8(syms[id as int]) && e == IndexError::InvalidUtf8
        },
    }
}

/// What `reverse_lookup` returns for the UTF-8 bytes `key` on a table holding
/// `syms`: an id of `key`, or `SymbolNotFound`, which on a sorted table means
/// that `key` is absent.
pub open spec fn reverse_lookup_post(syms: Seq<Seq<u8>>, key: Seq<u8>, r: Result<u64, IndexError>) -> bool {
    match r {
        Ok(i) => i < syms.len() && syms[i as int] == key,
        Err(e) => e == IndexError::SymbolNotFound && (lex_sorted(syms) ==> !syms.contains(key)),
    }
}

proof fn lemma_string_pos_prefix(b: Seq<u8>, p: int, k: nat, j: nat)
    requires
        string_pos(b, p, k) is Some,
        j <= k,
    ensures
        string_pos(b, p, j) is Some,
    decreases k,
{
    if j < k {
        lemma_string_pos_prefix(b, p, (k - 1) as nat, j);
    }
}

proof fn lemma_string_pos_bound(b: Seq<u8>, p: int, k: nat)
    requires
        0 <= p <= b.len(),
        string_pos(b, p, k) is Some,
    ensures
        p <= string_pos(b, p, k).unwrap() <= b.len(),
    decreases k,
{
    if k > 0 {
        lemma_string_pos_bound(b, p, (k - 1) as nat);
    }
}

/// The symbol table of an index.
pub struct Symbols {
    inner: Vec<u8>,
    off: u64,
    offsets: Vec<u64>,
    seen: u64,
    version: u8,
}

impl Symbols {
    /// The payload of the symbol frame.
    pub closed spec fn frame(self) -> Seq<u8> {
        self.inner@
    }

    /// The symbols, by id.
    pub closed spec fn symbols(self) -> Seq<Seq<u8>> {
        symbol_list(self.inner@)
    }

    /// Where the frame starts in the index.
    pub closed spec fn offset(self) -> u64 {
        self.off
    }

    /// The positions within the frame of every 32nd symbol.
    pub closed spec fn buckets(self) -> Seq<u64> {
        self.offsets@
    }

    pub closed spec fn wf(self) -> bool {
        &&& symbol_frame_ok(self.inner@)
        &&& self.seen == be_u32(self.inner@, 0)
        &&& self.offsets@.len() == (self.seen + 31) / 32
        &&& forall|k: int| 0 <= k < self.offsets@.len()
            ==> string_pos(self.inner@, 4, (32 * k) as nat) == Some(self.offsets@[k] as int)
    }

    /// Reads the symbol table whose frame starts at `offset` of `data`.
    pub fn new(data: &[u8], version: u8, offset: u64) -> (r: Result<Symbols, IndexError>)
        ensures
            match r {
                Ok(s) => {
                    &&& s.wf()
                    &&& s.offset() == offset
                    &&& frame_at(data@, offset as int, true) == Ok::<Seq<u8>, IndexError>(s.frame())
                    &&& symbol_frame_ok(s.frame())
                    &&& s.symbols() == symbol_list(s.frame())
                },
                Err(e) => match frame_at(data@, offset as int, true) {
                    Err(fe) => e == fe,
                    Ok(p) => !symbol_frame_ok(p) && e == IndexError::UnexpectedEnd,
                },
            },
    {
        let buf = new_decbuf_at(data, offset, true)?;
        if buf.len() < 4 {
            return Err(IndexError::UnexpectedEnd);
        }
        let count = read_u32_be(buf.as_slice(), 0) as u64;
        let mut offsets: Vec<u64> = Vec::new();
        let mut pos: usize = 4;
        let mut seen: u64 = 0;
        while seen < count
            invariant
                4 <= pos <= buf@.len(),
                seen <= count,
                count == be_u32(buf@, 0),
                frame_at(data@, offset as int, true) == Ok::<Seq<u8>, IndexError>(buf@),
                string_pos(buf@, 4, seen as nat) == Some(pos as int),
                offsets@.len() == (seen + 31) / 32,
                forall|k: int| 0 <= k < offsets@.len()
                    ==> string_pos(buf@, 4, (32 * k) as nat) == Some(offsets@[k] as int),
            decreases count - seen,
        {
            if seen % 32 == 0 {
                offsets.push(pos as u64);
                assert(32 * ((seen + 31) / 32) == seen);
            }
            match read_varint_span(buf.as_slice(), pos) {
                Ok((_, e)) => {
                    pos = e;
                },
                Err(e) => {
                    proof {
                        assert(string_pos(buf@, 4, (seen + 1) as nat) is None);
                        if string_pos(buf@, 4, count as nat) is Some {
                            lemma_string_pos_prefix(buf@, 4, count as nat, (seen + 1) as nat);
                        }
                    }
                    return Err(e);
                },
            }
            seen += 1;
        }
        Ok(Symbols { inner: buf, off: offset, offsets, seen, version })
    }

    /// The position of the symbol frame in the index.
    pub fn off(&self) -> (r: u64)
        ensures
            r == self.offset(),
    {
        self.off
    }

    /// The number of symbols.
    pub fn seen(&self) -> (r: u64)
        requires
            self.wf(),
        ensures
            r == self.symbols().len(),
    {
        self.seen
    }

    pub fn version(&self) -> (r: u8) {
        self.version
    }

    /// The positions within the frame of every 32nd symbol.
    pub fn bucket_offsets(&self) -> (r: &[u64])
        requires
            self.wf(),
        ensures
            r@ == self.buckets(),
            r@.len() == (self.symbols().len() + 31) / 32,
            forall|k: int| 0 <= k < r@.len()
                ==> string_pos(self.frame(), 4, (32 * k) as nat) == Some(r@[k] as int),
    {
        self.offsets.as_slice()
    }

    /// Bytes held by the bucket index.
    pub fn size(&self) -> (r: usize)
        requires
            self.wf(),
        ensures
            r == self.buckets().len() * 8,
    {
        assert(self.offsets@.len() * 8 <= 0x40000000) by (nonlinear_arith)
            requires self.offsets@.len() == (self.seen + 31) / 32, self.seen <= 0xffffffff;
        self.offsets.len() * 8
    }

    /// Reads symbol `k` from `pos`, where symbol `k` starts.
    fn span_at(&self, k: u64, pos: usize) -> (r: (usize, usize))
        requires
            self.wf(),
            k < self.seen,
            string_pos(self.inner@, 4, k as nat) == Some(pos as int),
        ensures
            r.0 <= r.1 <= self.inner@.len(),
            self.inner@.subrange(r.0 as int, r.1 as int) == self.symbols()[k as int],
            string_pos(self.inner@, 4, (k + 1) as nat) == Some(r.1 as int),
    {
        proof {
            lemma_string_pos_prefix(self.inner@, 4, self.seen as nat, (k + 1) as nat);
            lemma_string_pos_bound(self.inner@, 4, k as nat);
        }
        match read_varint_span(self.inner.as_slice(), pos) {
            Ok(span) => span,
            Err(_) => {
                proof {
                    assert(false);
                }
                (0, 0)
            },
        }
    }

    /// The position where symbol `32 * k` starts.
    fn bucket_start(&self, k: usize) -> (r: usize)
        requires
            self.wf(),
            k < self.offsets@.len(),
        ensures
            string_pos(self.inner@, 4, (32 * k) as nat) == Some(r as int),
            32 * k < self.seen,
    {
        proof {
            lemma_string_pos_prefix(self.inner@, 4, self.seen as nat, (32 * k) as nat);
            lemma_string_pos_bound(self.inner@, 4, (32 * k) as nat);
        }
        assert(32 * k < self.seen) by (nonlinear_arith)
            requires k < (self.seen + 31) / 32;
        let _n = self.inner.len();
        self.offsets[k] as usize
    }

    /// The text of symbol `id`.
    pub fn lookup(&self, id: u64) -> (r: Result<String, IndexError>)
        requires
            self.wf(),
        ensures
            lookup_post(self.symbols(), id, match r {
                Ok(s) => Ok::<Seq<char>, IndexError>(s@),
                Err(e) => Err::<Seq<char>, IndexError>(e),
            }),
    {
        if id >= self.seen {
            return Err(IndexError::UnknownSymbolOffset(id));
        }
        let bk = (id / 32) as usize;
        assert(bk < self.offsets@.len()) by (nonlinear_arith)
            requires bk == id / 32, id < self.seen, self.offsets@.len() == (self.seen + 31) / 32;
        let mut pos = self.bucket_start(bk);
        let mut k: u64 = 32 * bk as u64;
        while k < id
            invariant
                self.wf(),
                k <= id < self.seen,
                string_pos(self.inner@, 4, k as nat) == Some(pos as int),
            decreases id - k,
        {
            let (_, e) = self.span_at(k, pos);
            pos = e;
            k += 1;
        }
        let (s, e) = self.span_at(id, pos);
        match utf8_string(&self.inner.as_slice()[s..e]) {
            Some(text) => Ok(text),
            None => Err(IndexError::InvalidUtf8),
        }
    }

    /// The id of the symbol whose text is `sym`.
    pub fn reverse_lookup(&self, sym: &str) -> (r: Result<u64, IndexError>)
        requires
            self.wf(),
        ensures
            reverse_lookup_post(self.symbols(), encode_utf8(sym@), r),
    {
        let key = sym.as_bytes();
        assert(key@ == encode_utf8(sym@));
        let ghost syms = self.symbols();
        let nb = self.offsets.len();
        if nb == 0 {
            assert(self.seen == 0) by (nonlinear_arith)
                requires nb == 0, nb == (self.seen + 31) / 32;
            assert(!syms.contains(key@));
            return Err(IndexError::SymbolNotFound);
        }
        let mut lo: usize = 0;
        let mut hi: usize = nb;
        while lo < hi
            invariant
                self.wf(),
                nb == self.offsets@.len(),
                syms == self.symbols(),
                0 <= lo <= hi <= nb,
                lex_sorted(syms) ==> forall|k: int| 0 <= k < lo ==> #[trigger] lex_lt(syms[32 * k], key@),
                lex_sorted(syms) ==> forall|k: int| hi <= k < nb ==> !#[trigger] lex_lt(syms[32 * k], key@),
            decreases hi - lo,
        {
            let mid = lo + (hi - lo) / 2;
            let p = self.bucket_start(mid);
            let (s, e) = self.span_at((32 * mid) as u64, p);
            let first = &self.inner.as_slice()[s..e];
            assert(first@ == syms[32 * mid]);
            if compare_bytes(first, key) < 0 {
                proof {
                    if lex_sorted(syms) {
                        assert forall|k: int| 0 <= k < mid + 1 implies #[trigger] lex_lt(syms[32 * k], key@) by {
                            if k < mid {
                                lemma_lex_transitive(syms[32 * k], syms[32 * mid], key@);
                            }
                        }
                    }
                }
                lo = mid + 1;
            } else {
                proof {
                    if lex_sorted(syms) {
                        assert forall|k: int| mid <= k < nb implies !#[trigger] lex_lt(syms[32 * k], key@) by {
                            assert(32 * k < self.seen) by (nonlinear_arith)
                                requires k < nb, nb == (self.seen + 31) / 32;
                            if k > mid && lex_lt(syms[32 * k], key@) {
                                lemma_lex_transitive(syms[32 * mid], syms[32 * k], key@);
                            }
                        }
                    }
                }
                hi = mid;
            }
        }
        let start: usize = if lo > 0 { lo - 1 } else { 0 };
        let mut pos = self.bucket_start(start);
        let mut i: u64 = 32 * start as u64;
        proof {
            if lex_sorted(syms) && lo > 0 {
                assert forall|j: int| 0 <= j < i implies syms[j] != key@ by {
                    assert(lex_lt(syms[32 * start], key@));
                    lemma_lex_transitive(syms[j], syms[32 * start], key@);
                    lemma_lex_irreflexive(key@);
                }
            }
        }
        while i < self.seen
            invariant
                self.wf(),
                i <= self.seen,
                syms == self.symbols(),
                key@ == encode_utf8(sym@),
                string_pos(self.inner@, 4, i as nat) == Some(pos as int),
                lex_sorted(syms) ==> forall|j: int| 0 <= j < i ==> syms[j] != key@,
            decreases self.seen - i,
        {
            let (s, e) = self.span_at(i, pos);
            let text = &self.inner.as_slice()[s..e];
            assert(text@ == syms[i as int]);
            let c = compare_bytes(text, key);
            if c == 0 {
                return Ok(i);
            }
            if c > 0 {
                proof {
                    if lex_sorted(syms) {
                        assert forall|j: int| 0 <= j < syms.len() implies syms[j] != key@ by {
                            if j > i {
                                lemma_lex_transitive(key@, syms[i as int], syms[j]);
                                lemma_lex_irreflexive(key@);
                            }
                        }
                    }
                }
                return Err(IndexError::SymbolNotFound);
            }
            proof {
                lemma_lex_irreflexive(key@);
            }
            pos = e;
            i += 1;
        }
        Err(IndexError::SymbolNotFound)
    }
}

/// In a sorted table, finding the text that `lookup` returned for id `i`
/// gives back `i`.
pub proof fn lemma_reverse_lookup_of_lookup(syms: Seq<Seq<u8>>, i: u64, s: Seq<char>, r: Result<u64, IndexError>)
    requires
        lex_sorted(syms),
        lookup_post(syms, i, Ok::<Seq<char>, IndexError>(s)),
        reverse_lookup_post(syms, encode_utf8(s), r),
    ensures
        r == Ok::<u64, IndexError>(i),
{
    vstd::utf8::decode_utf8_encode_utf8(syms[i as int]);
    assert(syms[i as int] == encode_utf8(s));
    assert(syms.contains(encode_utf8(s)));
    if let Ok(j) = r {
        if j != i {
            if j < i {
                assert(lex_lt(syms[j as int], syms[i as int]));
            } else {
                assert(lex_lt(syms[i as int], syms[j as int]));
            }
            lemma_lex_irreflexive(syms[i as int]);
        }
    }
}

/// In a sorted table that holds the text `s`, `reverse_lookup` finds an id
/// and `lookup` of that id gives back `s`.
pub proof fn lemma_lookup_of_reverse_lookup(syms: Seq<Seq<u8>>, s: Seq<char>, r1: Result<u64, IndexError>, r2: Result<Seq<char>, IndexError>)
    requires
        lex_sorted(syms),
        syms.contains(encode_utf8(s)),
        reverse_lookup_post(syms, encode_utf8(s), r1),
        r1 is Ok ==> lookup_post(syms, r1->Ok_0, r2),
    ensures
        r1 is Ok,
        r2 == Ok::<Seq<char>, IndexError>(s),
{
    vstd::utf8::encode_utf8_valid_utf8(s);
    vstd::utf8::encode_utf8_decode_utf8(s);
}

} // verus!
