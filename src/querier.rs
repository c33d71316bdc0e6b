//! Queries over one block: the postings of a conjunction of matchers, and
//! the series that they name.
use std::sync::Arc;
use vstd::prelude::*;
use vstd::utf8::encode_utf8;
use crate::error::IndexError;
use crate::labels::{LabelView, Labels, Matcher, compare_labels, labels_lt, lemma_labels_order};
use crate::postings::{Postings, common_ids, next_result};
use crate::reader::{Reader, utf8_of};

verus! {

/// A series that a query selected.
#[derive(Debug)]
pub struct ChunkSeriesEntry {
    series_ref: u64,
    labels: Labels,
}

impl ChunkSeriesEntry {
    pub closed spec fn view_ref(self) -> u64 {
        self.series_ref
    }

    /// The reference of the series in its block's index.
    pub fn series_ref(&self) -> (r: u64)
        ensures
            r == self.view_ref(),
    {
        self.series_ref
    }

    pub closed spec fn view_labels(self) -> Seq<crate::labels::LabelView> {
        self.labels@
    }

    pub fn labels(&self) -> (r: &Labels)
        ensures
            r@ == self.view_labels(),
    {
        &self.labels
    }
}

/// The postings of one matcher: the series whose label has the value.
pub fn postings_for_matcher(index: &Reader, matcher: &Matcher) -> (r: Result<Postings, IndexError>)
    requires
        index.wf(),
    ensures
        match matcher {
            Matcher::MatchEqual(m) => {
                &&& r matches Ok(p) ==> p.wf() && forall|x: u64| #[trigger] p.ids().contains(x)
                    ==> exists|pos: int| index.entry_holds(encode_utf8(m.name@), seq![encode_utf8(m.value@)], pos, x)
                &&& index.nothing_for(encode_utf8(m.name@), seq![encode_utf8(m.value@)])
                    ==> (r is Ok && r->Ok_0.ids() == Set::<u64>::empty())
            },
            Matcher::MatchNotEqual(_) => r == Err::<Postings, IndexError>(IndexError::NotImplemented),
        },
{
    match matcher {
        Matcher::MatchEqual(m) => {
            let values: Vec<&str> = vec![m.value.as_str()];
            assert(utf8_of(values@) =~= seq![encode_utf8(m.value@)]);
            index.postings(m.name.as_str(), values.as_slice())
        },
        Matcher::MatchNotEqual(_) => Err(IndexError::NotImplemented),
    }
}

/// `x` is in a postings list of `index` whose entry has the name and the
/// value of the equality matcher `m`.
pub open spec fn matched_by(index: Reader, m: Matcher, x: u64) -> bool {
    match m {
        Matcher::MatchEqual(mm) => exists|pos: int|
            index.entry_holds(encode_utf8(mm.name@), seq![encode_utf8(mm.value@)], pos, x),
        Matcher::MatchNotEqual(_) => false,
    }
}

/// The intersection of the postings of all matchers.
pub fn postings_for_matchers(index: &Reader, matchers: &Vec<Matcher>) -> (r: Result<Postings, IndexError>)
    requires
        index.wf(),
    ensures
        r matches Ok(p) ==> p.wf() && forall|x: u64, i: int| #![trigger p.ids().contains(x), matchers@[i]]
            p.ids().contains(x) && 0 <= i < matchers@.len() ==> matched_by(*index, matchers@[i], x),
        (exists|i: int| 0 <= i < matchers@.len() && matchers@[i] is MatchNotEqual)
            ==> r is Err,
{
    let mut its: Vec<Postings> = Vec::new();
    let n = matchers.len();
    let mut i: usize = 0;
    while i < n
        invariant
            index.wf(),
            n == matchers@.len(),
            i <= n,
            its@.len() == i,
            forall|j: int| 0 <= j < i ==> !(matchers@[j] is MatchNotEqual),
            forall|j: int| 0 <= j < its@.len() ==> (#[trigger] its@[j]).wf(),
            forall|j: int, x: u64| 0 <= j < its@.len() && #[trigger] its@[j].ids().contains(x)
                ==> matched_by(*index, matchers@[j], x),
        decreases n - i,
    {
        let p = postings_for_matcher(index, &matchers[i])?;
        its.push(p);
        i += 1;
    }
    let r = Postings::new_intersect(its);
    proof {
        assert forall|x: u64, k: int| #![trigger r.ids().contains(x), matchers@[k]]
            r.ids().contains(x) && 0 <= k < matchers@.len() implies matched_by(*index, matchers@[k], x) by {
            assert(common_ids(its@).contains(x));
            assert(its@[k].ids().contains(x));
        }
    }
    Ok(r)
}

/// The series of one block that a query selected, read one by one.
pub struct BlockSeriesSet {
    index: Arc<Reader>,
    postings: Postings,
}

impl BlockSeriesSet {
    pub closed spec fn wf(self) -> bool {
        self.index.wf() && self.postings.wf()
    }

    /// The series ids not yet read.
    pub closed spec fn ids(self) -> Set<u64> {
        self.postings.ids()
    }

    pub closed spec fn reader(self) -> Reader {
        *self.index
    }

    pub fn new(index: Arc<Reader>, postings: Postings) -> (r: Self)
        requires
            index.wf(),
            postings.wf(),
        ensures
            r.wf(),
            r.ids() == postings.ids(),
            r.reader() == *index,
    {
        BlockSeriesSet { index, postings }
    }

    /// The next series, in ascending id order; `None` when none is left or
    /// its record cannot be read.
    pub fn next(&mut self) -> (r: Option<ChunkSeriesEntry>)
        requires
            old(self).wf(),
        ensures
            final(self).wf(),
            final(self).reader() == old(self).reader(),
            old(self).ids() == Set::<u64>::empty() ==> r is None,
            r matches Some(e) ==> next_result(old(self).ids(), final(self).ids(), Some(e.view_ref()))
                && old(self).reader().series_post(e.view_ref(), e.view_labels()),
            (r is None && old(self).ids() != Set::<u64>::empty()) ==> exists|v: u64, err: IndexError|
                next_result(old(self).ids(), final(self).ids(), Some(v))
                && #[trigger] old(self).reader().series_error(v, err),
    {
        let ghost before = self.ids();
        let id = self.postings.next();
        let p = match id {
            Some(p) => p,
            None => {
                return None;
            },
        };
        let labels = match self.index.series(p) {
            Ok(labels) => labels,
            Err(err) => {
                assert(next_result(before, self.ids(), Some(p)) && old(self).reader().series_error(p, err));
                return None;
            },
        };
        let e = ChunkSeriesEntry { series_ref: p, labels };
        assert(next_result(before, self.ids(), Some(p)) && self.reader().series_post(p, e.view_labels()));
        Some(e)
    }

    /// Reads all remaining series: in ascending id order, each the labels of
    /// its series, until none is left or a record cannot be read.
    pub fn collect_entries(&mut self) -> (r: Vec<ChunkSeriesEntry>)
        requires
            old(self).wf(),
        ensures
            final(self).wf(),
            final(self).reader() == old(self).reader(),
            forall|j: int| 0 <= j < r@.len() ==> old(self).ids().contains((#[trigger] r@[j]).view_ref())
                && old(self).reader().series_post(r@[j].view_ref(), r@[j].view_labels()),
            forall|i: int, j: int| 0 <= i < j < r@.len() ==> (#[trigger] r@[i]).view_ref() < (#[trigger] r@[j]).view_ref(),
            forall|j: int| 0 <= j < r@.len() ==> forall|y: u64| #[trigger] old(self).ids().contains(y) && y < (#[trigger] r@[j]).view_ref()
                ==> exists|i: int| 0 <= i < j && r@[i].view_ref() == y,
    {
        let mut out: Vec<ChunkSeriesEntry> = Vec::new();
        let ghost start = self.ids();
        let ghost rd = self.reader();
        let ghost mut lo: int = 0;
        loop
            invariant
                self.wf(),
                self.reader() == rd,
                rd == old(self).reader(),
                start == old(self).ids(),
                0 <= lo <= u64::MAX + 1,
                forall|y: u64| #[trigger] self.ids().contains(y) ==> lo <= y,
                forall|y: u64| #[trigger] self.ids().contains(y) ==> start.contains(y),
                forall|y: u64| #[trigger] start.contains(y) && y >= lo ==> self.ids().contains(y),
                forall|j: int| 0 <= j < out@.len() ==> (#[trigger] out@[j]).view_ref() < lo,
                forall|j: int| 0 <= j < out@.len() ==> start.contains((#[trigger] out@[j]).view_ref())
                    && rd.series_post(out@[j].view_ref(), out@[j].view_labels()),
                forall|i: int, j: int| 0 <= i < j < out@.len() ==> (#[trigger] out@[i]).view_ref() < (#[trigger] out@[j]).view_ref(),
                forall|y: u64| #[trigger] start.contains(y) && y < lo ==> !self.ids().contains(y)
                    && exists|i: int| 0 <= i < out@.len() && out@[i].view_ref() == y,
            decreases u64::MAX + 1 - lo,
        {
            let ghost before = self.ids();
            match self.next() {
                Some(e) => {
                    let ghost v = e.view_ref();
                    let ghost o0 = out@;
                    out.push(e);
                    proof {
                        assert(out@[o0.len() as int].view_ref() == v);
                        assert forall|y: u64| #[trigger] start.contains(y) && y < v + 1 implies !self.ids().contains(y)
                            && exists|i: int| 0 <= i < out@.len() && out@[i].view_ref() == y by {
                            if y < lo {
                                let i = choose|i: int| 0 <= i < o0.len() && o0[i].view_ref() == y;
                                assert(out@[i] == o0[i]);
                            } else if y != v {
                                assert(before.contains(y));
                                assert(v <= y);
                            }
                        }
                        assert forall|j: int| 0 <= j < out@.len() implies start.contains((#[trigger] out@[j]).view_ref())
                            && rd.series_post(out@[j].view_ref(), out@[j].view_labels()) by {
                            if j < o0.len() {
                                assert(out@[j] == o0[j]);
                            }
                        }
                        assert forall|i: int, j: int| 0 <= i < j < out@.len() implies (#[trigger] out@[i]).view_ref() < (#[trigger] out@[j]).view_ref() by {
                            if j < o0.len() {
                                assert(out@[i] == o0[i] && out@[j] == o0[j]);
                            } else {
                                assert(out@[i] == o0[i]);
                            }
                        }
                        assert forall|j: int| 0 <= j < out@.len() implies (#[trigger] out@[j]).view_ref() < v + 1 by {
                            if j < o0.len() {
                                assert(out@[j] == o0[j]);
                            }
                        }
                        lo = v + 1;
                    }
                },
                None => {
                    proof {
                        assert forall|j: int| 0 <= j < out@.len() implies forall|y: u64| #[trigger] start.contains(y) && y < (#[trigger] out@[j]).view_ref()
                            ==> exists|i: int| 0 <= i < j && out@[i].view_ref() == y by {
                            assert forall|y: u64| #[trigger] start.contains(y) && y < out@[j].view_ref()
                                implies exists|i: int| 0 <= i < j && out@[i].view_ref() == y by {
                                let i = choose|i: int| 0 <= i < out@.len() && out@[i].view_ref() == y;
                                if i >= j {
                                    if i > j {
                                        assert(out@[j].view_ref() < out@[i].view_ref());
                                    }
                                }
                            }
                        }
                    }
                    return out;
                },
            }
        }
    }
}

/// The labels of the entries, in order.
pub open spec fn entry_labels(v: Seq<ChunkSeriesEntry>) -> Seq<Seq<LabelView>> {
    v.map_values(|e: ChunkSeriesEntry| e.view_labels())
}

/// Each label sequence sorts strictly after every later one.
pub open spec fn strictly_descending(s: Seq<Seq<LabelView>>) -> bool {
    forall|i: int, j: int| 0 <= i < j < s.len() ==> labels_lt(s[j], s[i])
}

/// Series of several blocks, merged: ascending by labels, each label
/// sequence once. Held in descending order, so that the next is the last.
pub struct MergedSeriesSet {
    entries: Vec<ChunkSeriesEntry>,
}

impl MergedSeriesSet {
    pub closed spec fn wf(self) -> bool {
        strictly_descending(entry_labels(self.entries@))
    }

    /// The label sequences still to come, largest first.
    pub closed spec fn remaining(self) -> Seq<Seq<LabelView>> {
        entry_labels(self.entries@)
    }

    pub fn new() -> (r: Self)
        ensures
            r.wf(),
            r.remaining() == Seq::<Seq<LabelView>>::empty(),
    {
        let r = MergedSeriesSet { entries: Vec::new() };
        assert(entry_labels(r.entries@) =~= Seq::<Seq<LabelView>>::empty());
        r
    }

    /// Adds `e` unless an entry with the same labels is held already.
    pub fn insert(&mut self, e: ChunkSeriesEntry)
        requires
            old(self).wf(),
        ensures
            final(self).wf(),
            forall|x: Seq<LabelView>| #[trigger] final(self).remaining().contains(x)
                <==> (old(self).remaining().contains(x) || x == e.view_labels()),
    {
        let ghost s = entry_labels(self.entries@);
        let ghost x = e.view_labels();
        let n = self.entries.len();
        let mut p: usize = 0;
        while p < n && compare_labels(self.entries[p].labels(), e.labels()) >= 0
            invariant
                n == self.entries@.len(),
                p <= n,
                s == entry_labels(self.entries@),
                x == e.view_labels(),
                forall|k: int| 0 <= k < p ==> !labels_lt(s[k], x),
            decreases n - p,
        {
            p += 1;
        }
        if p > 0 && compare_labels(self.entries[p - 1].labels(), e.labels()) == 0 {
            assert(s[p - 1] == x);
            return;
        }
        proof {
            assert forall|k: int| 0 <= k < p implies labels_lt(x, #[trigger] s[k]) by {
                lemma_labels_order(s[k], x, s[p - 1]);
                lemma_labels_order(x, s[p - 1], s[k]);
                if k < p - 1 {
                    assert(labels_lt(s[p - 1], s[k]));
                }
            }
        }
        self.entries.insert(p, e);
        proof {
            let t = entry_labels(self.entries@);
            assert(t =~= s.insert(p as int, x));
            assert forall|a: int, b: int| 0 <= a < b < t.len() implies labels_lt(t[b], t[a]) by {
                if b < p {
                } else if a < p && b == p {
                } else if a < p && b > p {
                    assert(labels_lt(s[b - 1], s[a]));
                } else if a == p {
                    if b - 1 > p {
                        assert(labels_lt(s[b - 1], s[p as int]));
                        lemma_labels_order(s[b - 1], s[p as int], x);
                    }
                } else {
                    assert(labels_lt(s[b - 1], s[a - 1]));
                }
            }
            assert forall|y: Seq<LabelView>| #[trigger] t.contains(y) <==> (s.contains(y) || y == x) by {
                if t.contains(y) {
                    let k = choose|k: int| 0 <= k < t.len() && t[k] == y;
                    if k < p {
                        assert(s[k] == y);
                    } else if k > p {
                        assert(s[k - 1] == y);
                    }
                }
                if s.contains(y) {
                    let k = choose|k: int| 0 <= k < s.len() && s[k] == y;
                    if k < p {
                        assert(t[k] == y);
                    } else {
                        assert(t[k + 1] == y);
                    }
                }
                if y == x {
                    assert(t[p as int] == y);
                }
            }
        }
    }

    /// The entry with the smallest labels.
    pub fn next(&mut self) -> (r: Option<ChunkSeriesEntry>)
        requires
            old(self).wf(),
        ensures
            final(self).wf(),
            match r {
                None => old(self).remaining().len() == 0,
                Some(e) => {
                    &&& old(self).remaining().len() > 0
                    &&& e.view_labels() == old(self).remaining().last()
                    &&& final(self).remaining() == old(self).remaining().drop_last()
                },
            },
    {
        if self.entries.len() == 0 {
            return None;
        }
        let r = self.entries.pop();
        proof {
            assert(entry_labels(self.entries@) =~= entry_labels(old(self).entries@).drop_last());
        }
        r
    }
}

/// What a query yields.
pub enum SeriesSet {
    BlockSeriesSet(BlockSeriesSet),
    Merged(MergedSeriesSet),
    NoopSeriesSet,
}

impl SeriesSet {
    pub closed spec fn wf(self) -> bool {
        match self {
            SeriesSet::BlockSeriesSet(s) => s.wf(),
            SeriesSet::Merged(s) => s.wf(),
            SeriesSet::NoopSeriesSet => true,
        }
    }

    pub fn next(&mut self) -> (r: Option<ChunkSeriesEntry>)
        requires
            old(self).wf(),
        ensures
            final(self).wf(),
            match (*old(self), *final(self)) {
                (SeriesSet::BlockSeriesSet(a), SeriesSet::BlockSeriesSet(b)) => {
                    &&& b.reader() == a.reader()
                    &&& a.ids() == Set::<u64>::empty() ==> r is None
                    &&& r matches Some(e) ==> next_result(a.ids(), b.ids(), Some(e.view_ref()))
                        && a.reader().series_post(e.view_ref(), e.view_labels())
                },
                (SeriesSet::Merged(a), SeriesSet::Merged(b)) => match r {
                    None => a.remaining().len() == 0,
                    Some(e) => {
                        &&& a.remaining().len() > 0
                        &&& e.view_labels() == a.remaining().last()
                        &&& b.remaining() == a.remaining().drop_last()
                    },
                },
                (SeriesSet::NoopSeriesSet, SeriesSet::NoopSeriesSet) => r is None,
                _ => false,
            },
    {
        match self {
            SeriesSet::BlockSeriesSet(s) => s.next(),
            SeriesSet::Merged(s) => s.next(),
            SeriesSet::NoopSeriesSet => None,
        }
    }

    /// Reads all remaining series: those of a block set as its own
    /// `collect_entries` says, those of a merged set smallest labels first.
    pub fn collect_entries(&mut self) -> (r: Vec<ChunkSeriesEntry>)
        requires
            old(self).wf(),
        ensures
            final(self).wf(),
            match *old(self) {
                SeriesSet::BlockSeriesSet(a) => {
                    &&& forall|j: int| 0 <= j < r@.len() ==> a.ids().contains((#[trigger] r@[j]).view_ref())
                        && a.reader().series_post(r@[j].view_ref(), r@[j].view_labels())
                    &&& forall|i: int, j: int| 0 <= i < j < r@.len() ==> (#[trigger] r@[i]).view_ref() < (#[trigger] r@[j]).view_ref()
                },
                SeriesSet::Merged(a) => {
                    &&& r@.len() == a.remaining().len()
                    &&& forall|j: int| 0 <= j < r@.len() ==> (#[trigger] r@[j]).view_labels()
                        == a.remaining()[a.remaining().len() - 1 - j]
                },
                SeriesSet::NoopSeriesSet => r@.len() == 0,
            },
    {
        match self {
            SeriesSet::BlockSeriesSet(s) => s.collect_entries(),
            SeriesSet::Merged(s) => {
                let ghost start = s.remaining();
                let mut out: Vec<ChunkSeriesEntry> = Vec::new();
                while s.entries.len() > 0
                    invariant
                        s.wf(),
                        s.remaining().len() == s.entries@.len(),
                        out@.len() + s.remaining().len() == start.len(),
                        s.remaining() == start.subrange(0, s.remaining().len() as int),
                        forall|j: int| 0 <= j < out@.len() ==> (#[trigger] out@[j]).view_labels()
                            == start[start.len() - 1 - j],
                    decreases s.remaining().len(),
                {
                    let ghost cur = s.remaining();
                    let ghost o0 = out@;
                    match s.next() {
                        Some(e) => {
                            out.push(e);
                            proof {
                                assert(cur.last() == start[start.len() - 1 - o0.len()]);
                                assert(s.remaining() =~= start.subrange(0, s.remaining().len() as int));
                                assert forall|j: int| 0 <= j < out@.len() implies (#[trigger] out@[j]).view_labels()
                                    == start[start.len() - 1 - j] by {
                                    if j < o0.len() {
                                        assert(out@[j] == o0[j]);
                                    }
                                }
                            }
                        },
                        None => {},
                    }
                }
                out
            },
            SeriesSet::NoopSeriesSet => Vec::new(),
        }
    }
}

/// Something that answers a conjunction of matchers.
pub trait Querier {
    spec fn inv(&self) -> bool;

    fn select(&mut self, matchers: Vec<Matcher>) -> (r: Result<SeriesSet, IndexError>)
        requires
            old(self).inv(),
        ensures
            final(self).inv(),
            r matches Ok(s) ==> s.wf();
}

/// A querier over several queriers: none yields nothing, one answers alone,
/// more are merged by labels.
pub struct MergeGenericQuerier<Q: Querier> {
    queriers: Vec<Q>,
}

/// The merge of the block queriers.
pub fn new_generic_querier(queriers: Vec<BlockQuerier>) -> (r: MergeGenericQuerier<BlockQuerier>)
    ensures
        r.len_view() == queriers@.len(),
        forall|i: int| 0 <= i < queriers@.len() ==> r.part(i) == #[trigger] queriers@[i],
{
    MergeGenericQuerier { queriers }
}

impl<Q: Querier> MergeGenericQuerier<Q> {
    pub closed spec fn len_view(self) -> nat {
        self.queriers@.len()
    }

    pub closed spec fn part(self, i: int) -> Q {
        self.queriers@[i]
    }

    pub fn len(&self) -> (r: usize)
        ensures
            r == self.len_view(),
    {
        self.queriers.len()
    }
}

impl<Q: Querier> MergeGenericQuerier<Q> {
    pub closed spec fn all_inv(self) -> bool {
        forall|i: int| 0 <= i < self.queriers@.len() ==> (#[trigger] self.queriers@[i]).inv()
    }

    /// Answers `matchers`: nothing without queriers, the one querier's answer
    /// when there is one, and otherwise the answers of all, merged: ascending
    /// by labels, each label sequence once.
    pub fn select_all(&mut self, matchers: Vec<Matcher>) -> (r: Result<SeriesSet, IndexError>)
        requires
            old(self).all_inv(),
        ensures
            final(self).all_inv(),
            final(self).len_view() == old(self).len_view(),
            r matches Ok(s) ==> s.wf(),
            old(self).len_view() == 0 ==> r matches Ok(SeriesSet::NoopSeriesSet),
            old(self).len_view() >= 2 ==> (r matches Ok(s) ==> s is Merged),
    {
        let n = self.queriers.len();
        if n == 0 {
            return Ok(SeriesSet::NoopSeriesSet);
        }
        if n == 1 {
            return self.queriers[0].select(matchers);
        }
        let mut merged = MergedSeriesSet::new();
        let mut i: usize = 0;
        while i < n
            invariant
                n == self.queriers@.len(),
                n == old(self).queriers@.len(),
                n >= 2,
                i <= n,
                merged.wf(),
                forall|k: int| 0 <= k < self.queriers@.len() ==> (#[trigger] self.queriers@[k]).inv(),
            decreases n - i,
        {
            let mut set = self.queriers[i].select(matchers.clone())?;
            let mut entries = set.collect_entries();
            while entries.len() > 0
                invariant
                    merged.wf(),
                decreases entries@.len(),
            {
                match entries.pop() {
                    Some(e) => merged.insert(e),
                    None => {},
                }
            }
            i += 1;
        }
        Ok(SeriesSet::Merged(merged))
    }
}

impl<Q: Querier> Querier for MergeGenericQuerier<Q> {
    closed spec fn inv(&self) -> bool {
        forall|i: int| 0 <= i < self.queriers@.len() ==> (#[trigger] self.queriers@[i]).inv()
    }

    fn select(&mut self, matchers: Vec<Matcher>) -> (r: Result<SeriesSet, IndexError>) {
        self.select_all(matchers)
    }
}

/// The querier of one block.
pub struct BlockQuerier {
    block_id: u128,
    index: Arc<Reader>,
}

impl BlockQuerier {
    pub closed spec fn wf(self) -> bool {
        self.index.wf()
    }

    pub closed spec fn reader(self) -> Reader {
        *self.index
    }

    pub fn new(block_id: u128, index: Arc<Reader>) -> (r: Self)
        requires
            index.wf(),
        ensures
            r.wf(),
            r.reader() == *index,
            r.block_id() == block_id,
    {
        BlockQuerier { block_id, index }
    }

    pub closed spec fn block_id(self) -> u128 {
        self.block_id
    }

    /// The ULID of the block, as an integer.
    pub fn id(&self) -> (r: u128)
        ensures
            r == self.block_id(),
    {
        self.block_id
    }

    /// The series whose labels satisfy all matchers.
    pub fn inner_select(&self, matchers: Vec<Matcher>) -> (r: Result<BlockSeriesSet, IndexError>)
        requires
            self.wf(),
        ensures
            r matches Ok(s) ==> s.wf() && s.reader() == self.reader()
                && forall|x: u64, i: int| #![trigger s.ids().contains(x), matchers@[i]]
                    s.ids().contains(x) && 0 <= i < matchers@.len() ==> matched_by(self.reader(), matchers@[i], x),
            (exists|i: int| 0 <= i < matchers@.len() && matchers@[i] is MatchNotEqual) ==> r is Err,
    {
        let postings = postings_for_matchers(&self.index, &matchers)?;
        Ok(BlockSeriesSet::new(self.index.clone(), postings))
    }
}

impl Querier for BlockQuerier {
    closed spec fn inv(&self) -> bool {
        self.wf()
    }

    fn select(&mut self, matchers: Vec<Matcher>) -> (r: Result<SeriesSet, IndexError>) {
        match self.inner_select(matchers) {
            Ok(s) => Ok(SeriesSet::BlockSeriesSet(s)),
            Err(e) => Err(e),
        }
    }
}

} // verus!
