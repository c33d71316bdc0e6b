//! Postings: sorted streams of series ids with `next` and `seek`.
//!
//! Every iterator is modelled by `ids()`, the set of ids it has yet to hand
//! out. `next` hands out the smallest of them and `seek(x)` drops those below
//! `x`, so whatever an iterator emits is strictly ascending.
use vstd::prelude::*;
use crate::encoding::{be_u32, read_u32_be};

verus! {

/// Each element is smaller than every later one.
pub open spec fn strictly_ascending(s: Seq<u64>) -> bool {
    forall|i: int, j: int| 0 <= i < j < s.len() ==> s[i] < s[j]
}

/// The elements of `s` from position `from` on.
pub open spec fn ids_from(s: Seq<u64>, from: int) -> Set<u64> {
    Set::new(|x: u64| exists|j: int| from <= j < s.len() && s[j] == x)
}

/// Ids packed as consecutive big-endian `u32`s.
pub open spec fn be_ids(b: Seq<u8>) -> Seq<u64> {
    Seq::new((b.len() / 4) as nat, |j: int| be_u32(b, 4 * j) as u64)
}

/// `next` on an iterator whose remaining ids were `before`, leaving `after`,
/// returned `r`: the smallest id, now removed, or `None` when none was left.
pub open spec fn next_result(before: Set<u64>, after: Set<u64>, r: Option<u64>) -> bool {
    match r {
        None => before == Set::<u64>::empty() && after == before,
        Some(v) => {
            &&& before.contains(v)
            &&& forall|y: u64| #[trigger] before.contains(y) ==> v <= y
            &&& after == before.remove(v)
        },
    }
}

/// The ids that remain after `seek(x)`.
pub open spec fn seek_result(before: Set<u64>, x: u64) -> Set<u64> {
    before.filter(|y: u64| y >= x)
}

/// A child's ids together with the id already read from it and held back.
pub open spec fn with_head(h: Option<u64>, s: Set<u64>) -> Set<u64> {
    match h {
        Some(v) => s.insert(v),
        None => s,
    }
}

/// The head read from a child of a merge is below all the child still holds,
/// and a child without a head holds nothing.
pub open spec fn head_ok(h: Option<u64>, s: Set<u64>) -> bool {
    match h {
        Some(v) => forall|y: u64| #[trigger] s.contains(y) ==> v < y,
        None => s == Set::<u64>::empty(),
    }
}

/// The id cached from a child of an intersection is below all it still holds.
pub open spec fn cached_ok(h: Option<u64>, s: Set<u64>) -> bool {
    match h {
        Some(v) => forall|y: u64| #[trigger] s.contains(y) ==> v < y,
        None => true,
    }
}

proof fn lemma_ids_from_next(s: Seq<u64>, from: int)
    requires
        strictly_ascending(s),
        0 <= from < s.len(),
    ensures
        ids_from(s, from).contains(s[from]),
        forall|y: u64| #[trigger] ids_from(s, from).contains(y) ==> s[from] <= y,
        ids_from(s, from + 1) == ids_from(s, from).remove(s[from]),
{
    assert(ids_from(s, from).contains(s[from]));
    assert forall|y: u64| #[trigger] ids_from(s, from).contains(y) implies s[from] <= y by {
        let j = choose|j: int| from <= j < s.len() && s[j] == y;
        if j > from {
            assert(s[from] < s[j]);
        }
    }
    assert forall|y: u64| ids_from(s, from + 1).contains(y) == ids_from(s, from).remove(s[from]).contains(y) by {
        if ids_from(s, from + 1).contains(y) {
            let j = choose|j: int| from + 1 <= j < s.len() && s[j] == y;
            assert(s[from] < s[j]);
        }
        if ids_from(s, from).remove(s[from]).contains(y) {
            let j = choose|j: int| from <= j < s.len() && s[j] == y;
            assert(j != from);
        }
    }
    assert(ids_from(s, from + 1) =~= ids_from(s, from).remove(s[from]));
}

proof fn lemma_ids_from_end(s: Seq<u64>, from: int)
    requires
        from >= s.len(),
    ensures
        ids_from(s, from) == Set::<u64>::empty(),
{
    assert(ids_from(s, from) =~= Set::<u64>::empty());
}

/// Positions before `i` hold ids below `x`, the others ids of at least `x`.
pub open spec fn is_lower_bound(s: Seq<u64>, i: int, x: u64) -> bool {
    &&& 0 <= i <= s.len()
    &&& forall|j: int| 0 <= j < i ==> s[j] < x
    &&& forall|j: int| i <= j < s.len() ==> s[j] >= x
}

proof fn lemma_ids_from_seek(s: Seq<u64>, from: int, i: int, x: u64)
    requires
        0 <= from <= s.len(),
        is_lower_bound(s, i, x),
    ensures
        ids_from(s, if from < i { i } else { from }) == seek_result(ids_from(s, from), x),
{
    let k = if from < i { i } else { from };
    assert forall|y: u64| ids_from(s, k).contains(y) == seek_result(ids_from(s, from), x).contains(y) by {
        if ids_from(s, k).contains(y) {
            let j = choose|j: int| k <= j < s.len() && s[j] == y;
            assert(ids_from(s, from).contains(y));
        }
        if seek_result(ids_from(s, from), x).contains(y) {
            let j = choose|j: int| from <= j < s.len() && s[j] == y;
            assert(j >= i);
            assert(ids_from(s, k).contains(y));
        }
    }
    assert(ids_from(s, k) =~= seek_result(ids_from(s, from), x));
}

/// The first position of the sorted `s` whose id is at least `x`.
fn lower_bound(s: &Vec<u64>, x: u64) -> (i: usize)
    requires
        strictly_ascending(s@),
    ensures
        is_lower_bound(s@, i as int, x),
{
    let mut lo: usize = 0;
    let mut hi: usize = s.len();
    while lo < hi
        invariant
            0 <= lo <= hi <= s@.len(),
            strictly_ascending(s@),
            forall|j: int| 0 <= j < lo ==> s@[j] < x,
            forall|j: int| hi <= j < s@.len() ==> s@[j] >= x,
        decreases hi - lo,
    {
        let mid = lo + (hi - lo) / 2;
        if s[mid] < x {
            lo = mid + 1;
        } else {
            hi = mid;
        }
    }
    lo
}

/// The `j`-th id packed in `b`.
fn be_id_at(b: &Vec<u8>, j: usize) -> (r: u64)
    requires
        j < b@.len() / 4,
    ensures
        r == be_ids(b@)[j as int],
{
    assert(4 * j + 4 <= b@.len()) by (nonlinear_arith)
        requires j < b@.len() / 4;
    let _n = b.len();
    read_u32_be(b.as_slice(), 4 * j) as u64
}

/// The first slot of the sorted packed ids in `b` whose id is at least `x`.
fn be_lower_bound(b: &Vec<u8>, x: u64) -> (i: usize)
    requires
        strictly_ascending(be_ids(b@)),
    ensures
        is_lower_bound(be_ids(b@), i as int, x),
{
    let mut lo: usize = 0;
    let mut hi: usize = b.len() / 4;
    while lo < hi
        invariant
            0 <= lo <= hi <= be_ids(b@).len(),
            hi <= b@.len() / 4,
            strictly_ascending(be_ids(b@)),
            forall|j: int| 0 <= j < lo ==> be_ids(b@)[j] < x,
            forall|j: int| hi <= j < be_ids(b@).len() ==> be_ids(b@)[j] >= x,
        decreases hi - lo,
    {
        let mid = lo + (hi - lo) / 2;
        if be_id_at(b, mid) < x {
            lo = mid + 1;
        } else {
            hi = mid;
        }
    }
    lo
}

/// Whether the ids packed in `b` are strictly ascending.
pub fn be_ids_ascending(b: &Vec<u8>) -> (r: bool)
    ensures
        r == strictly_ascending(be_ids(b@)),
{
    let n = b.len() / 4;
    if n == 0 {
        return true;
    }
    let mut last = be_id_at(b, 0);
    let mut j: usize = 1;
    while j < n
        invariant
            n == be_ids(b@).len(),
            n == b@.len() / 4,
            1 <= j <= n,
            last == be_ids(b@)[j - 1],
            strictly_ascending(be_ids(b@).subrange(0, j as int)),
        decreases n - j,
    {
        let v = be_id_at(b, j);
        if v <= last {
            assert(!strictly_ascending(be_ids(b@)) ) by {
                assert(be_ids(b@)[j - 1] >= be_ids(b@)[j as int]);
            }
            return false;
        }
        proof {
            let s = be_ids(b@);
            let t = s.subrange(0, j + 1);
            assert forall|x: int, y: int| 0 <= x < y < j + 1 implies #[trigger] t[x] < #[trigger] t[y] by {
                if y < j {
                    assert(s.subrange(0, j as int)[x] < s.subrange(0, j as int)[y]);
                } else if x < j - 1 {
                    assert(s.subrange(0, j as int)[x] < s.subrange(0, j as int)[j - 1]);
                }
            }
        }
        last = v;
        j += 1;
    }
    assert(be_ids(b@).subrange(0, n as int) =~= be_ids(b@));
    true
}

/// A postings list that holds nothing.
pub struct EmptyPostings;

/// A postings list held as a vector of ascending ids.
pub struct ListPostings {
    cur: usize,
    inner: Vec<u64>,
}

impl ListPostings {
    pub closed spec fn wf(self) -> bool {
        self.cur <= self.inner@.len() && strictly_ascending(self.inner@)
    }

    pub closed spec fn ids(self) -> Set<u64> {
        ids_from(self.inner@, self.cur as int)
    }

    pub fn new(inner: Vec<u64>) -> (r: Self)
        requires
            strictly_ascending(inner@),
        ensures
            r.wf(),
            r.ids() == ids_from(inner@, 0),
    {
        ListPostings { cur: 0, inner }
    }

    pub fn next(&mut self) -> (r: Option<u64>)
        requires
            old(self).wf(),
        ensures
            final(self).wf(),
            next_result(old(self).ids(), final(self).ids(), r),
    {
        if self.cur < self.inner.len() {
            let v = self.inner[self.cur];
            proof {
                lemma_ids_from_next(self.inner@, self.cur as int);
            }
            self.cur = self.cur + 1;
            Some(v)
        } else {
            proof {
                lemma_ids_from_end(self.inner@, self.cur as int);
            }
            None
        }
    }

    /// Moves on to the first id that is at least `x`.
    pub fn seek(&mut self, x: u64)
        requires
            old(self).wf(),
        ensures
            final(self).wf(),
            final(self).ids() == seek_result(old(self).ids(), x),
    {
        let i = lower_bound(&self.inner, x);
        proof {
            lemma_ids_from_seek(self.inner@, self.cur as int, i as int, x);
        }
        if self.cur < i {
            self.cur = i;
        }
    }
}

/// A postings list read from disk: ascending ids packed as big-endian `u32`s.
pub struct BigEndianPostings {
    cur: usize,
    inner: Vec<u8>,
    prev: Option<u64>,
}

impl BigEndianPostings {
    pub closed spec fn wf(self) -> bool {
        &&& self.cur <= be_ids(self.inner@).len()
        &&& strictly_ascending(be_ids(self.inner@))
        &&& cached_ok(self.prev, self.ids())
    }

    pub closed spec fn ids(self) -> Set<u64> {
        ids_from(be_ids(self.inner@), self.cur as int)
    }

    pub fn new(inner: Vec<u8>) -> (r: Self)
        requires
            strictly_ascending(be_ids(inner@)),
        ensures
            r.wf(),
            r.ids() == ids_from(be_ids(inner@), 0),
    {
        BigEndianPostings { cur: 0, inner, prev: None }
    }

    pub fn next(&mut self) -> (r: Option<u64>)
        requires
            old(self).wf(),
        ensures
            final(self).wf(),
            next_result(old(self).ids(), final(self).ids(), r),
    {
        if self.cur < self.inner.len() / 4 {
            let v = be_id_at(&self.inner, self.cur);
            proof {
                lemma_ids_from_next(be_ids(self.inner@), self.cur as int);
            }
            self.cur = self.cur + 1;
            self.prev = Some(v);
            Some(v)
        } else {
            proof {
                lemma_ids_from_end(be_ids(self.inner@), self.cur as int);
            }
            None
        }
    }

    /// Moves on to the first id that is at least `x`.
    pub fn seek(&mut self, x: u64)
        requires
            old(self).wf(),
        ensures
            final(self).wf(),
            final(self).ids() == seek_result(old(self).ids(), x),
    {
        if let Some(p) = self.prev {
            if p >= x {
                assert(self.ids() =~= seek_result(self.ids(), x));
                return;
            }
        }
        let i = be_lower_bound(&self.inner, x);
        proof {
            lemma_ids_from_seek(be_ids(self.inner@), self.cur as int, i as int, x);
        }
        if self.cur < i {
            self.cur = i;
        }
    }
}

/// A postings iterator: one of the variants below, each with `next` and `seek`.
pub enum Postings {
    Merged(MergedPostings),
    Empty(EmptyPostings),
    BigEndian(BigEndianPostings),
    Intersect(IntersectPostings),
    List(ListPostings),
}

/// The union of several postings, each id handed out once. `heads[i]` is the
/// id read from `inner[i]` and not yet handed out.
pub struct MergedPostings {
    inner: Vec<Postings>,
    heads: Vec<Option<u64>>,
}

/// The ids that all of several postings hold. `prevs[i]` (for `i >= 1`) is
/// the last id read from `inner[i]`, kept for the next candidate.
pub struct IntersectPostings {
    inner: Vec<Postings>,
    prevs: Vec<Option<u64>>,
}

/// The ids that some postings of `ps` holds.
pub open spec fn union_ids(ps: Seq<Postings>) -> Set<u64> {
    Set::new(|x: u64| exists|i: int| 0 <= i < ps.len() && (#[trigger] ps[i]).ids().contains(x))
}

/// The ids that every postings of `ps` holds; none when `ps` is empty.
pub open spec fn common_ids(ps: Seq<Postings>) -> Set<u64> {
    Set::new(|x: u64| ps.len() > 0 && forall|i: int| 0 <= i < ps.len() ==> (#[trigger] ps[i]).ids().contains(x))
}

impl Postings {
    /// The ids not yet handed out.
    pub closed spec fn ids(self) -> Set<u64>
        decreases self,
    {
        match self {
            Postings::Empty(_) => Set::empty(),
            Postings::List(l) => ids_from(l.inner@, l.cur as int),
            Postings::BigEndian(b) => ids_from(be_ids(b.inner@), b.cur as int),
            Postings::Merged(m) => Set::new(|x: u64| exists|i: int| 0 <= i < m.inner@.len()
                && with_head(m.heads@[i], (#[trigger] m.inner@[i]).ids()).contains(x)),
            Postings::Intersect(t) => Set::new(|x: u64| 0 < t.inner@.len()
                && t.inner@[0].ids().contains(x)
                && forall|i: int| 1 <= i < t.inner@.len()
                    ==> with_head(t.prevs@[i], (#[trigger] t.inner@[i]).ids()).contains(x)),
        }
    }

    /// Well formed, with iterators nested at most `d` deep.
    pub closed spec fn wf_at(self, d: nat) -> bool
        decreases d,
    {
        d > 0 && match self {
            Postings::Empty(_) => true,
            Postings::List(l) => l.wf(),
            Postings::BigEndian(b) => b.wf(),
            Postings::Merged(m) => m.heads@.len() == m.inner@.len() && forall|i: int|
                0 <= i < m.inner@.len() ==> (#[trigger] m.inner@[i]).wf_at((d - 1) as nat)
                    && head_ok(m.heads@[i], m.inner@[i].ids()),
            Postings::Intersect(t) => t.prevs@.len() == t.inner@.len() && forall|i: int|
                0 <= i < t.inner@.len() ==> (#[trigger] t.inner@[i]).wf_at((d - 1) as nat)
                    && (i >= 1 ==> cached_ok(t.prevs@[i], t.inner@[i].ids())),
        }
    }

    pub closed spec fn wf(self) -> bool {
        exists|d: nat| self.wf_at(d)
    }
}

proof fn lemma_wf_mono(p: Postings, d: nat, e: nat)
    requires
        p.wf_at(d),
        d <= e,
    ensures
        p.wf_at(e),
    decreases d,
{
    match p {
        Postings::Merged(m) => {
            assert forall|i: int| 0 <= i < m.inner@.len() implies (#[trigger] m.inner@[i]).wf_at((e - 1) as nat) by {
                lemma_wf_mono(m.inner@[i], (d - 1) as nat, (e - 1) as nat);
            }
        },
        Postings::Intersect(t) => {
            assert forall|i: int| 0 <= i < t.inner@.len() implies (#[trigger] t.inner@[i]).wf_at((e - 1) as nat) by {
                lemma_wf_mono(t.inner@[i], (d - 1) as nat, (e - 1) as nat);
            }
        },
        _ => {},
    }
}

/// Lifts well-formed postings to one common nesting bound.
proof fn lemma_common_depth(ps: Seq<Postings>) -> (d: nat)
    requires
        forall|i: int| 0 <= i < ps.len() ==> (#[trigger] ps[i]).wf(),
    ensures
        forall|i: int| 0 <= i < ps.len() ==> (#[trigger] ps[i]).wf_at(d),
    decreases ps.len(),
{
    if ps.len() == 0 {
        0
    } else {
        let rest = ps.drop_last();
        assert forall|i: int| 0 <= i < rest.len() implies (#[trigger] rest[i]).wf() by {
            assert(rest[i] == ps[i]);
        }
        let dr = lemma_common_depth(rest);
        let dl = choose|d: nat| ps.last().wf_at(d);
        let e = if dr < dl { dl } else { dr };
        lemma_wf_mono(ps.last(), dl, e);
        assert forall|i: int| 0 <= i < ps.len() implies (#[trigger] ps[i]).wf_at(e) by {
            if i < ps.len() - 1 {
                assert(rest[i] == ps[i]);
                lemma_wf_mono(ps[i], dr, e);
            }
        }
        e
    }
}

impl Postings {
    pub fn new_empty() -> (r: Self)
        ensures
            r.wf(),
            r.ids() == Set::<u64>::empty(),
    {
        let r = Postings::Empty(EmptyPostings);
        assert(r.wf_at(1));
        r
    }

    pub fn new_list(inner: Vec<u64>) -> (r: Self)
        requires
            strictly_ascending(inner@),
        ensures
            r.wf(),
            r.ids() == ids_from(inner@, 0),
    {
        let r = Postings::List(ListPostings::new(inner));
        assert(r.wf_at(1));
        r
    }

    /// Postings over ids packed as big-endian `u32`s.
    pub fn new_big_endian(inner: Vec<u8>) -> (r: Self)
        requires
            strictly_ascending(be_ids(inner@)),
        ensures
            r.wf(),
            r.ids() == ids_from(be_ids(inner@), 0),
    {
        let r = Postings::BigEndian(BigEndianPostings::new(inner));
        assert(r.wf_at(1));
        r
    }

    /// The union of `inner`.
    pub fn new_merge(inner: Vec<Postings>) -> (r: Self)
        requires
            forall|i: int| 0 <= i < inner@.len() ==> (#[trigger] inner@[i]).wf(),
        ensures
            r.wf(),
            r.ids() == union_ids(inner@),
    {
        Postings::Merged(MergedPostings::new(inner))
    }

    /// The intersection of `inner`.
    pub fn new_intersect(inner: Vec<Postings>) -> (r: Self)
        requires
            forall|i: int| 0 <= i < inner@.len() ==> (#[trigger] inner@[i]).wf(),
        ensures
            r.wf(),
            r.ids() == common_ids(inner@),
    {
        Postings::Intersect(IntersectPostings::new(inner))
    }

    fn next_at(&mut self, Ghost(d): Ghost<nat>) -> (r: Option<u64>)
        requires
            old(self).wf_at(d),
        ensures
            final(self).wf_at(d),
            next_result(old(self).ids(), final(self).ids(), r),
        decreases d, 1nat,
    {
        match self {
            Postings::Merged(m) => m.next_at(Ghost(d)),
            Postings::Empty(_) => {
                assert(self.ids() =~= Set::<u64>::empty());
                None
            },
            Postings::BigEndian(b) => b.next(),
            Postings::Intersect(t) => t.next_at(Ghost(d)),
            Postings::List(l) => l.next(),
        }
    }

    fn seek_at(&mut self, x: u64, Ghost(d): Ghost<nat>)
        requires
            old(self).wf_at(d),
        ensures
            final(self).wf_at(d),
            final(self).ids() == seek_result(old(self).ids(), x),
        decreases d, 1nat,
    {
        match self {
            Postings::Merged(m) => m.seek_at(x, Ghost(d)),
            Postings::Empty(_) => {
                assert(self.ids() =~= seek_result(self.ids(), x));
            },
            Postings::BigEndian(b) => b.seek(x),
            Postings::Intersect(t) => t.seek_at(x, Ghost(d)),
            Postings::List(l) => l.seek(x),
        }
    }

    /// Hands out the smallest remaining id.
    pub fn next(&mut self) -> (r: Option<u64>)
        requires
            old(self).wf(),
        ensures
            final(self).wf(),
            next_result(old(self).ids(), final(self).ids(), r),
    {
        let ghost d = choose|d: nat| self.wf_at(d);
        let r = self.next_at(Ghost(d));
        assert(self.wf_at(d));
        r
    }

    /// Drops the remaining ids below `x`.
    pub fn seek(&mut self, x: u64)
        requires
            old(self).wf(),
        ensures
            final(self).wf(),
            final(self).ids() == seek_result(old(self).ids(), x),
    {
        let ghost d = choose|d: nat| self.wf_at(d);
        self.seek_at(x, Ghost(d));
        assert(self.wf_at(d));
    }

    /// Reads all remaining ids, in the order `next` hands them out.
    pub fn collect_ids(&mut self) -> (r: Vec<u64>)
        requires
            old(self).wf(),
        ensures
            final(self).wf(),
            final(self).ids() == Set::<u64>::empty(),
            strictly_ascending(r@),
            ids_from(r@, 0) == old(self).ids(),
    {
        let ghost start = self.ids();
        let mut out: Vec<u64> = Vec::new();
        let ghost mut lo: int = 0;
        assert(ids_from(out@, 0).union(self.ids()) =~= start);
        loop
            invariant
                self.wf(),
                strictly_ascending(out@),
                0 <= lo <= u64::MAX + 1,
                forall|y: u64| #[trigger] self.ids().contains(y) ==> lo <= y,
                forall|k: int| 0 <= k < out@.len() ==> out@[k] < lo,
                ids_from(out@, 0).union(self.ids()) == start,
                start == old(self).ids(),
            decreases u64::MAX + 1 - lo,
        {
            let ghost before = self.ids();
            let ghost out0 = out@;
            match self.next() {
                None => {
                    assert(ids_from(out@, 0) =~= start);
                    return out;
                },
                Some(v) => {
                    out.push(v);
                    proof {
                        lo = v + 1;
                        assert forall|y: u64| ids_from(out@, 0).union(self.ids()).contains(y) == start.contains(y) by {
                            if ids_from(out0, 0).contains(y) {
                                let j = choose|j: int| 0 <= j < out0.len() && out0[j] == y;
                                assert(out@[j] == y);
                            }
                            if ids_from(out@, 0).contains(y) && y != v {
                                let j = choose|j: int| 0 <= j < out@.len() && out@[j] == y;
                                assert(out0[j] == y);
                            }
                            if y == v {
                                assert(out@[out0.len() as int] == y);
                            }
                        }
                        assert(ids_from(out@, 0).union(self.ids()) =~= start);
                    }
                },
            }
        }
    }
}

impl MergedPostings {
    pub fn new(inner: Vec<Postings>) -> (r: Self)
        requires
            forall|i: int| 0 <= i < inner@.len() ==> (#[trigger] inner@[i]).wf(),
        ensures
            Postings::Merged(r).wf(),
            Postings::Merged(r).ids() == union_ids(inner@),
    {
        let ghost orig = inner@;
        let ghost d = lemma_common_depth(orig);
        let mut inner = inner;
        let mut heads: Vec<Option<u64>> = Vec::new();
        let n = inner.len();
        let mut i: usize = 0;
        while i < n
            invariant
                n == inner@.len() == orig.len(),
                i <= n,
                heads@.len() == i,
                forall|j: int| 0 <= j < i ==> (#[trigger] inner@[j]).wf_at(d)
                    && head_ok(heads@[j], inner@[j].ids())
                    && with_head(heads@[j], inner@[j].ids()) == orig[j].ids(),
                forall|j: int| i <= j < n ==> (#[trigger] inner@[j]) == orig[j],
                forall|j: int| 0 <= j < n ==> (#[trigger] orig[j]).wf_at(d),
            decreases n - i,
        {
            let ghost before = inner@[i as int].ids();
            let h = inner[i].next_at(Ghost(d));
            heads.push(h);
            proof {
                let after = inner@[i as int].ids();
                match h {
                    Some(v) => {
                        assert(with_head(h, after) =~= before);
                    },
                    None => {},
                }
            }
            i += 1;
        }
        let r = MergedPostings { inner, heads };
        proof {
            assert(Postings::Merged(r).wf_at(d + 1));
            assert forall|x: u64| Postings::Merged(r).ids().contains(x) == union_ids(orig).contains(x) by {
                if Postings::Merged(r).ids().contains(x) {
                    let j = choose|j: int| 0 <= j < r.inner@.len() && with_head(r.heads@[j], (#[trigger] r.inner@[j]).ids()).contains(x);
                    assert(orig[j].ids().contains(x));
                }
                if union_ids(orig).contains(x) {
                    let j = choose|j: int| 0 <= j < orig.len() && (#[trigger] orig[j]).ids().contains(x);
                    assert(with_head(r.heads@[j], r.inner@[j].ids()).contains(x));
                }
            }
            assert(Postings::Merged(r).ids() =~= union_ids(orig));
        }
        r
    }

    fn next_at(&mut self, Ghost(d): Ghost<nat>) -> (r: Option<u64>)
        requires
            Postings::Merged(*old(self)).wf_at(d),
        ensures
            Postings::Merged(*final(self)).wf_at(d),
            next_result(Postings::Merged(*old(self)).ids(), Postings::Merged(*final(self)).ids(), r),
        decreases d, 0nat,
    {
        let ghost before = Postings::Merged(*self).ids();
        let ghost old_inner = self.inner@;
        let ghost old_heads = self.heads@;
        let n = self.inner.len();
        let mut best: Option<u64> = None;
        let mut i: usize = 0;
        while i < n
            invariant
                n == self.inner@.len() == self.heads@.len(),
                self.inner@ == old_inner,
                self.heads@ == old_heads,
                i <= n,
                best is None ==> forall|j: int| 0 <= j < i ==> self.heads@[j] is None,
                best is Some ==> exists|j: int| 0 <= j < i && self.heads@[j] == best,
                best is Some ==> forall|j: int| 0 <= j < i && self.heads@[j] is Some
                    ==> best.unwrap() <= self.heads@[j].unwrap(),
            decreases n - i,
        {
            if let Some(h) = self.heads[i] {
                match best {
                    None => {
                        best = Some(h);
                    },
                    Some(b) => {
                        if h < b {
                            best = Some(h);
                        }
                    },
                }
            }
            i += 1;
        }
        match best {
            None => {
                proof {
                    assert forall|x: u64| !before.contains(x) by {
                        if before.contains(x) {
                            let j = choose|j: int| 0 <= j < old_inner.len() && with_head(old_heads[j], (#[trigger] old_inner[j]).ids()).contains(x);
                            assert(old_inner[j].ids().contains(x));
                        }
                    }
                    assert(before =~= Set::<u64>::empty());
                }
                None
            },
            Some(v) => {
                proof {
                    let j = choose|j: int| 0 <= j < n && old_heads[j] == best;
                    assert(with_head(old_heads[j], old_inner[j].ids()).contains(v));
                    assert(before.contains(v));
                    assert forall|y: u64| #[trigger] before.contains(y) implies v <= y by {
                        let k = choose|k: int| 0 <= k < old_inner.len() && with_head(old_heads[k], (#[trigger] old_inner[k]).ids()).contains(y);
                        if old_heads[k] is None {
                            assert(old_inner[k].ids().contains(y));
                        }
                    }
                }
                let mut i: usize = 0;
                while i < n
                    invariant
                        n == self.inner@.len() == self.heads@.len() == old_inner.len() == old_heads.len(),
                        i <= n,
                        d > 0,
                        forall|j: int| 0 <= j < n ==> (#[trigger] self.inner@[j]).wf_at((d - 1) as nat)
                            && head_ok(self.heads@[j], self.inner@[j].ids()),
                        forall|j: int| 0 <= j < i ==> with_head(self.heads@[j], (#[trigger] self.inner@[j]).ids())
                            == with_head(old_heads[j], old_inner[j].ids()).remove(v),
                        forall|j: int| i <= j < n ==> (#[trigger] self.inner@[j]) == old_inner[j],
                        forall|j: int| i <= j < n ==> (#[trigger] self.heads@[j]) == old_heads[j],
                        forall|j: int| 0 <= j < n && old_heads[j] is Some ==> v <= (#[trigger] old_heads[j]).unwrap(),
                    decreases n - i,
                {
                    let ghost s_old = self.inner@[i as int].ids();
                    let ghost h_old = self.heads@[i as int];
                    let mut advance = false;
                    if let Some(h) = self.heads[i] {
                        advance = h == v;
                    }
                    if advance {
                        let h = self.inner[i].next_at(Ghost((d - 1) as nat));
                        self.heads[i] = h;
                        proof {
                            let s_new = self.inner@[i as int].ids();
                            assert(!s_old.contains(v));
                            match h {
                                Some(w) => {
                                    assert(with_head(h, s_new) =~= with_head(h_old, s_old).remove(v));
                                },
                                None => {
                                    assert(with_head(h, s_new) =~= with_head(h_old, s_old).remove(v));
                                },
                            }
                        }
                    } else {
                        proof {
                            assert(!with_head(h_old, s_old).contains(v));
                            assert(with_head(h_old, s_old) =~= with_head(h_old, s_old).remove(v));
                        }
                    }
                    i += 1;
                }
                proof {
                    let after = Postings::Merged(*self).ids();
                    assert forall|x: u64| after.contains(x) == before.remove(v).contains(x) by {
                        if after.contains(x) {
                            let j = choose|j: int| 0 <= j < n && with_head(self.heads@[j], (#[trigger] self.inner@[j]).ids()).contains(x);
                            assert(with_head(old_heads[j], old_inner[j].ids()).contains(x));
                        }
                        if before.remove(v).contains(x) {
                            let j = choose|j: int| 0 <= j < n && with_head(old_heads[j], (#[trigger] old_inner[j]).ids()).contains(x);
                            assert(with_head(self.heads@[j], self.inner@[j].ids()).contains(x));
                        }
                    }
                    assert(after =~= before.remove(v));
                }
                Some(v)
            },
        }
    }

    fn seek_at(&mut self, x: u64, Ghost(d): Ghost<nat>)
        requires
            Postings::Merged(*old(self)).wf_at(d),
        ensures
            Postings::Merged(*final(self)).wf_at(d),
            Postings::Merged(*final(self)).ids() == seek_result(Postings::Merged(*old(self)).ids(), x),
        decreases d, 0nat,
    {
        let ghost before = Postings::Merged(*self).ids();
        let ghost old_inner = self.inner@;
        let ghost old_heads = self.heads@;
        let n = self.inner.len();
        let mut i: usize = 0;
        while i < n
            invariant
                n == self.inner@.len() == self.heads@.len() == old_inner.len() == old_heads.len(),
                i <= n,
                d > 0,
                forall|j: int| 0 <= j < n ==> (#[trigger] self.inner@[j]).wf_at((d - 1) as nat)
                    && head_ok(self.heads@[j], self.inner@[j].ids()),
                forall|j: int| 0 <= j < i ==> with_head(self.heads@[j], (#[trigger] self.inner@[j]).ids())
                    == seek_result(with_head(old_heads[j], old_inner[j].ids()), x),
                forall|j: int| i <= j < n ==> (#[trigger] self.inner@[j]) == old_inner[j],
                forall|j: int| i <= j < n ==> (#[trigger] self.heads@[j]) == old_heads[j],
            decreases n - i,
        {
            let ghost s_old = self.inner@[i as int].ids();
            let ghost h_old = self.heads@[i as int];
            let mut behind = false;
            if let Some(h) = self.heads[i] {
                behind = h < x;
            }
            if behind {
                self.inner[i].seek_at(x, Ghost((d - 1) as nat));
                let ghost s_mid = self.inner@[i as int].ids();
                let h = self.inner[i].next_at(Ghost((d - 1) as nat));
                self.heads[i] = h;
                proof {
                    let s_new = self.inner@[i as int].ids();
                    assert(with_head(h, s_new) =~= seek_result(with_head(h_old, s_old), x));
                }
            } else {
                proof {
                    assert(with_head(h_old, s_old) =~= seek_result(with_head(h_old, s_old), x));
                }
            }
            i += 1;
        }
        proof {
            let after = Postings::Merged(*self).ids();
            assert forall|y: u64| after.contains(y) == seek_result(before, x).contains(y) by {
                if after.contains(y) {
                    let j = choose|j: int| 0 <= j < n && with_head(self.heads@[j], (#[trigger] self.inner@[j]).ids()).contains(y);
                    assert(with_head(old_heads[j], old_inner[j].ids()).contains(y));
                }
                if seek_result(before, x).contains(y) {
                    let j = choose|j: int| 0 <= j < n && with_head(old_heads[j], (#[trigger] old_inner[j]).ids()).contains(y);
                    assert(with_head(self.heads@[j], self.inner@[j].ids()).contains(y));
                }
            }
            assert(after =~= seek_result(before, x));
        }
    }
}

impl IntersectPostings {
    pub fn new(inner: Vec<Postings>) -> (r: Self)
        requires
            forall|i: int| 0 <= i < inner@.len() ==> (#[trigger] inner@[i]).wf(),
        ensures
            Postings::Intersect(r).wf(),
            Postings::Intersect(r).ids() == common_ids(inner@),
    {
        let ghost d = lemma_common_depth(inner@);
        let n = inner.len();
        let mut prevs: Vec<Option<u64>> = Vec::new();
        let mut i: usize = 0;
        while i < n
            invariant
                i <= n,
                prevs@.len() == i,
                forall|j: int| 0 <= j < i ==> prevs@[j] is None,
            decreases n - i,
        {
            prevs.push(None);
            i += 1;
        }
        let ghost orig = inner@;
        let r = IntersectPostings { inner, prevs };
        proof {
            assert(Postings::Intersect(r).wf_at(d + 1));
            assert forall|x: u64| Postings::Intersect(r).ids().contains(x) == common_ids(orig).contains(x) by {
                if Postings::Intersect(r).ids().contains(x) {
                    assert forall|j: int| 0 <= j < orig.len() implies (#[trigger] orig[j]).ids().contains(x) by {
                        if j >= 1 {
                            assert(with_head(r.prevs@[j], r.inner@[j].ids()).contains(x));
                        }
                    }
                }
                if common_ids(orig).contains(x) {
                    assert(orig[0].ids().contains(x));
                    assert forall|j: int| 1 <= j < orig.len() implies with_head(r.prevs@[j], (#[trigger] r.inner@[j]).ids()).contains(x) by {
                        assert(orig[j].ids().contains(x));
                    }
                }
            }
            assert(Postings::Intersect(r).ids() =~= common_ids(orig));
        }
        r
    }

    fn seek_at(&mut self, x: u64, Ghost(d): Ghost<nat>)
        requires
            Postings::Intersect(*old(self)).wf_at(d),
        ensures
            Postings::Intersect(*final(self)).wf_at(d),
            Postings::Intersect(*final(self)).ids() == seek_result(Postings::Intersect(*old(self)).ids(), x),
        decreases d, 0nat,
    {
        let ghost before = Postings::Intersect(*self).ids();
        let ghost old_inner = self.inner@;
        if self.inner.len() > 0 {
            self.inner[0].seek_at(x, Ghost((d - 1) as nat));
            proof {
                let after = Postings::Intersect(*self).ids();
                assert forall|y: u64| after.contains(y) == seek_result(before, x).contains(y) by {
                    if after.contains(y) {
                        assert forall|j: int| 1 <= j < old_inner.len() implies with_head(self.prevs@[j], (#[trigger] old_inner[j]).ids()).contains(y) by {
                            assert(self.inner@[j] == old_inner[j]);
                        }
                    }
                    if seek_result(before, x).contains(y) {
                        assert forall|j: int| 1 <= j < old_inner.len() implies with_head(self.prevs@[j], (#[trigger] self.inner@[j]).ids()).contains(y) by {
                            assert(self.inner@[j] == old_inner[j]);
                        }
                    }
                }
                assert(after =~= seek_result(before, x));
            }
        } else {
            assert(before =~= seek_result(before, x));
        }
    }

    fn next_at(&mut self, Ghost(d): Ghost<nat>) -> (r: Option<u64>)
        requires
            Postings::Intersect(*old(self)).wf_at(d),
        ensures
            Postings::Intersect(*final(self)).wf_at(d),
            next_result(Postings::Intersect(*old(self)).ids(), Postings::Intersect(*final(self)).ids(), r),
        decreases d, 0nat,
    {
        let ghost before = Postings::Intersect(*self).ids();
        let n = self.inner.len();
        if n == 0 {
            assert(before =~= Set::<u64>::empty());
            return None;
        }
        let ghost mut lo: int = 0;
        loop
            invariant
                n == self.inner@.len() == self.prevs@.len(),
                n > 0,
                d > 0,
                Postings::Intersect(*self).wf_at(d),
                Postings::Intersect(*self).ids() == before,
                before == Postings::Intersect(*old(self)).ids(),
                0 <= lo <= u64::MAX + 1,
                forall|y: u64| #[trigger] self.inner@[0].ids().contains(y) ==> lo <= y,
            decreases u64::MAX + 1 - lo,
        {
            let ghost pre_inner = self.inner@;
            let ghost s0 = self.inner@[0].ids();
            let c = match self.inner[0].next_at(Ghost((d - 1) as nat)) {
                None => {
                    proof {
                        assert(before =~= Set::<u64>::empty());
                        assert forall|j: int| 1 <= j < n implies (#[trigger] self.inner@[j]) == pre_inner[j] by {}
                        assert(Postings::Intersect(*self).ids() =~= before);
                    }
                    return None;
                },
                Some(c) => c,
            };
            let ghost s_inner = self.inner@;
            let ghost s_prevs = self.prevs@;
            proof {
                assert forall|j: int| 1 <= j < n implies (#[trigger] s_inner[j]) == pre_inner[j] by {}
            }
            let mut ok = true;
            let mut i: usize = 1;
            while i < n && ok
                invariant
                    1 <= i <= n,
                    n == self.inner@.len() == self.prevs@.len() == s_inner.len() == s_prevs.len(),
                    d > 0,
                    self.inner@[0] == s_inner[0],
                    forall|j: int| 0 <= j < n ==> (#[trigger] self.inner@[j]).wf_at((d - 1) as nat)
                        && (j >= 1 ==> cached_ok(self.prevs@[j], self.inner@[j].ids())),
                    forall|j: int| i <= j < n ==> (#[trigger] self.inner@[j]) == s_inner[j],
                    forall|j: int| i <= j < n ==> (#[trigger] self.prevs@[j]) == s_prevs[j],
                    forall|j: int, y: u64| 1 <= j < n && y >= c ==>
                        (#[trigger] with_head(self.prevs@[j], self.inner@[j].ids()).contains(y))
                            == with_head(s_prevs[j], s_inner[j].ids()).contains(y),
                    ok ==> forall|j: int| 1 <= j < i ==> #[trigger] with_head(s_prevs[j], s_inner[j].ids()).contains(c),
                    !ok ==> exists|j: int| 1 <= j < n && !(#[trigger] with_head(s_prevs[j], s_inner[j].ids()).contains(c)),
                decreases n - i,
            {
                let ghost s_old = self.inner@[i as int].ids();
                let ghost p_old = self.prevs@[i as int];
                let mut fetch = true;
                if let Some(p) = self.prevs[i] {
                    if p == c {
                        fetch = false;
                    } else if p > c {
                        fetch = false;
                        ok = false;
                        assert(!with_head(s_prevs[i as int], s_inner[i as int].ids()).contains(c));
                    }
                }
                if fetch {
                    self.inner[i].seek_at(c, Ghost((d - 1) as nat));
                    let ghost s_mid = self.inner@[i as int].ids();
                    let r = self.inner[i].next_at(Ghost((d - 1) as nat));
                    self.prevs[i] = r;
                    proof {
                        let s_new = self.inner@[i as int].ids();
                        assert(with_head(r, s_new) =~= s_mid);
                        assert forall|y: u64| y >= c implies #[trigger] with_head(r, s_new).contains(y)
                            == with_head(p_old, s_old).contains(y) by {}
                    }
                    proof {
                        assert(s_prevs[i as int] == p_old);
                        assert(s_inner[i as int].ids() == s_old);
                        if s_old.contains(c) {
                            assert(s_mid.contains(c));
                        }
                    }
                    match r {
                        Some(v) => {
                            if v != c {
                                ok = false;
                                assert(!with_head(s_prevs[i as int], s_inner[i as int].ids()).contains(c));
                            }
                        },
                        None => {
                            ok = false;
                            assert(!with_head(s_prevs[i as int], s_inner[i as int].ids()).contains(c));
                        },
                    }
                }
                i += 1;
            }
            if ok {
                proof {
                    let after = Postings::Intersect(*self).ids();
                    assert(before.contains(c)) by {
                        assert forall|j: int| 1 <= j < n implies with_head(s_prevs[j], (#[trigger] pre_inner[j]).ids()).contains(c) by {
                            assert(with_head(s_prevs[j], s_inner[j].ids()).contains(c));
                        }
                    }
                    assert forall|y: u64| after.contains(y) == before.remove(c).contains(y) by {
                        if after.contains(y) {
                            assert forall|j: int| 1 <= j < n implies with_head(s_prevs[j], (#[trigger] pre_inner[j]).ids()).contains(y) by {
                                assert(with_head(self.prevs@[j], self.inner@[j].ids()).contains(y));
                            }
                        }
                        if before.remove(c).contains(y) {
                            assert forall|j: int| 1 <= j < n implies with_head(self.prevs@[j], (#[trigger] self.inner@[j]).ids()).contains(y) by {
                                assert(with_head(s_prevs[j], pre_inner[j].ids()).contains(y));
                            }
                        }
                    }
                    assert(after =~= before.remove(c));
                }
                return Some(c);
            }
            proof {
                let after = Postings::Intersect(*self).ids();
                let k = choose|j: int| 1 <= j < n && !(#[trigger] with_head(s_prevs[j], s_inner[j].ids()).contains(c));
                assert(!before.contains(c)) by {
                    assert(pre_inner[k] == s_inner[k]);
                }
                assert forall|y: u64| after.contains(y) == before.contains(y) by {
                    if after.contains(y) {
                        assert forall|j: int| 1 <= j < n implies with_head(s_prevs[j], (#[trigger] pre_inner[j]).ids()).contains(y) by {
                            assert(with_head(self.prevs@[j], self.inner@[j].ids()).contains(y));
                        }
                    }
                    if before.contains(y) {
                        assert forall|j: int| 1 <= j < n implies with_head(self.prevs@[j], (#[trigger] self.inner@[j]).ids()).contains(y) by {
                            assert(with_head(s_prevs[j], pre_inner[j].ids()).contains(y));
                        }
                    }
                }
                assert(after =~= before);
                lo = c + 1;
            }
        }
    }
}

impl MergedPostings {
    /// Hands out the smallest id that some child still holds.
    pub fn next(&mut self) -> (r: Option<u64>)
        requires
            Postings::Merged(*old(self)).wf(),
        ensures
            Postings::Merged(*final(self)).wf(),
            next_result(Postings::Merged(*old(self)).ids(), Postings::Merged(*final(self)).ids(), r),
    {
        let ghost d = choose|d: nat| Postings::Merged(*self).wf_at(d);
        let r = self.next_at(Ghost(d));
        assert(Postings::Merged(*self).wf_at(d));
        r
    }

    /// Drops the remaining ids below `x`.
    pub fn seek(&mut self, x: u64)
        requires
            Postings::Merged(*old(self)).wf(),
        ensures
            Postings::Merged(*final(self)).wf(),
            Postings::Merged(*final(self)).ids() == seek_result(Postings::Merged(*old(self)).ids(), x),
    {
        let ghost d = choose|d: nat| Postings::Merged(*self).wf_at(d);
        self.seek_at(x, Ghost(d));
        assert(Postings::Merged(*self).wf_at(d));
    }
}

impl IntersectPostings {
    /// Hands out the smallest id that every child holds.
    pub fn next(&mut self) -> (r: Option<u64>)
        requires
            Postings::Intersect(*old(self)).wf(),
        ensures
            Postings::Intersect(*final(self)).wf(),
            next_result(Postings::Intersect(*old(self)).ids(), Postings::Intersect(*final(self)).ids(), r),
    {
        let ghost d = choose|d: nat| Postings::Intersect(*self).wf_at(d);
        let r = self.next_at(Ghost(d));
        assert(Postings::Intersect(*self).wf_at(d));
        r
    }

    /// Drops the remaining ids below `x`.
    pub fn seek(&mut self, x: u64)
        requires
            Postings::Intersect(*old(self)).wf(),
        ensures
            Postings::Intersect(*final(self)).wf(),
            Postings::Intersect(*final(self)).ids() == seek_result(Postings::Intersect(*old(self)).ids(), x),
    {
        let ghost d = choose|d: nat| Postings::Intersect(*self).wf_at(d);
        self.seek_at(x, Ghost(d));
        assert(Postings::Intersect(*self).wf_at(d));
    }
}

/// Two ids that `next` hands out one after the other come in strictly
/// ascending order, whatever the postings.
pub proof fn lemma_next_strictly_ascending(a: Set<u64>, b: Set<u64>, c: Set<u64>, v: u64, w: u64)
    requires
        next_result(a, b, Some(v)),
        next_result(b, c, Some(w)),
    ensures
        v < w,
{
    assert(a.contains(w));
}

/// After `seek(x)`, `next` hands out nothing or the smallest remaining id
/// that is at least `x`.
pub proof fn lemma_seek_then_next(a: Set<u64>, x: u64, c: Set<u64>, r: Option<u64>)
    requires
        next_result(seek_result(a, x), c, r),
    ensures
        r matches Some(v) ==> v >= x && a.contains(v) && forall|y: u64| #[trigger] a.contains(y) && y >= x ==> v <= y,
        r is None ==> forall|y: u64| #[trigger] a.contains(y) ==> y < x,
{
    if r is None {
        assert forall|y: u64| #[trigger] a.contains(y) implies y < x by {
            if y >= x {
                assert(seek_result(a, x).contains(y));
            }
        }
    } else {
        assert forall|y: u64| #[trigger] a.contains(y) && y >= x implies r->Some_0 <= y by {
            assert(seek_result(a, x).contains(y));
        }
    }
}

} // verus!
