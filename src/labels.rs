//! Labels: the name/value pairs that identify a series, kept sorted by name,
//! and matchers over label values.
use vstd::prelude::*;
use vstd::string::StringExecFns;
use vstd::utf8::encode_utf8;
use crate::order::{compare_bytes, lex_le, lex_lt, lemma_lex_irreflexive, lemma_lex_transitive, lemma_lex_trichotomy};

verus! {

/// A label: a name and its value.
#[derive(Debug, Clone, PartialEq, Eq)]
pub struct Label {
    pub name: String,
    pub value: String,
}

impl Label {
    pub fn new(name: String, value: String) -> (r: Label)
        ensures
            r.name == name,
            r.value == value,
    {
        Label { name, value }
    }
}

/// A label as characters: name, then value.
pub type LabelView = (Seq<char>, Seq<char>);

/// Names sort by their UTF-8 bytes, which is the order of `str`.
pub open spec fn name_key(l: LabelView) -> Seq<u8> {
    encode_utf8(l.0)
}

/// No label's name sorts after a later label's name.
pub open spec fn sorted_by_name(s: Seq<LabelView>) -> bool {
    forall|i: int, j: int| 0 <= i < j < s.len() ==> lex_le(name_key(s[i]), name_key(s[j]))
}

/// `name="value"`.
pub open spec fn label_text(l: LabelView) -> Seq<char> {
    l.0 + seq!['=', '"'] + l.1 + seq!['"']
}

/// The labels' texts, separated by `, `.
pub open spec fn join_labels(s: Seq<LabelView>) -> Seq<char>
    decreases s.len(),
{
    if s.len() == 0 {
        Seq::empty()
    } else if s.len() == 1 {
        label_text(s[0])
    } else {
        join_labels(s.drop_last()) + seq![',', ' '] + label_text(s.last())
    }
}

/// `{a="1", b="2"}`.
pub open spec fn labels_text(s: Seq<LabelView>) -> Seq<char> {
    seq!['{'] + join_labels(s) + seq!['}']
}

/// `a` sorts before `b`: by name, then by value, each by its UTF-8 bytes.
pub open spec fn pair_lt(a: LabelView, b: LabelView) -> bool {
    ||| lex_lt(encode_utf8(a.0), encode_utf8(b.0))
    ||| (encode_utf8(a.0) == encode_utf8(b.0) && lex_lt(encode_utf8(a.1), encode_utf8(b.1)))
}

/// Label sequence `a` sorts before `b`: at the first label where they differ,
/// or `a` is a proper prefix of `b`.
pub open spec fn labels_lt(a: Seq<LabelView>, b: Seq<LabelView>) -> bool
    decreases a.len(),
{
    if a.len() == 0 {
        b.len() > 0
    } else if b.len() == 0 {
        false
    } else if a[0] != b[0] {
        pair_lt(a[0], b[0])
    } else {
        labels_lt(a.drop_first(), b.drop_first())
    }
}

proof fn lemma_encode_injective(a: Seq<char>, b: Seq<char>)
    requires
        encode_utf8(a) == encode_utf8(b),
    ensures
        a == b,
{
    vstd::utf8::encode_utf8_decode_utf8(a);
    vstd::utf8::encode_utf8_decode_utf8(b);
}

proof fn lemma_pair_order(a: LabelView, b: LabelView, c: LabelView)
    ensures
        a != b ==> (pair_lt(a, b) || pair_lt(b, a)),
        !pair_lt(a, a),
        pair_lt(a, b) && pair_lt(b, c) ==> pair_lt(a, c),
        pair_lt(a, b) ==> !pair_lt(b, a),
{
    lemma_lex_trichotomy(encode_utf8(a.0), encode_utf8(b.0));
    lemma_lex_trichotomy(encode_utf8(a.1), encode_utf8(b.1));
    lemma_lex_irreflexive(encode_utf8(a.0));
    lemma_lex_irreflexive(encode_utf8(a.1));
    if a != b && !pair_lt(a, b) && !pair_lt(b, a) {
        lemma_encode_injective(a.0, b.0);
        lemma_encode_injective(a.1, b.1);
    }
    if pair_lt(a, b) && pair_lt(b, c) {
        if lex_lt(encode_utf8(a.0), encode_utf8(b.0)) && lex_lt(encode_utf8(b.0), encode_utf8(c.0)) {
            lemma_lex_transitive(encode_utf8(a.0), encode_utf8(b.0), encode_utf8(c.0));
        }
        if lex_lt(encode_utf8(a.1), encode_utf8(b.1)) && lex_lt(encode_utf8(b.1), encode_utf8(c.1)) {
            lemma_lex_transitive(encode_utf8(a.1), encode_utf8(b.1), encode_utf8(c.1));
        }
    }
}

/// `labels_lt` is a strict total order.
pub proof fn lemma_labels_order(a: Seq<LabelView>, b: Seq<LabelView>, c: Seq<LabelView>)
    ensures
        !labels_lt(a, a),
        a != b ==> (labels_lt(a, b) || labels_lt(b, a)),
        labels_lt(a, b) ==> !labels_lt(b, a),
        labels_lt(a, b) && labels_lt(b, c) ==> labels_lt(a, c),
    decreases a.len(),
{
    if a.len() > 0 {
        lemma_pair_order(a[0], a[0], a[0]);
        if b.len() > 0 {
            lemma_pair_order(a[0], b[0], a[0]);
            if c.len() > 0 {
                lemma_pair_order(a[0], b[0], c[0]);
                lemma_pair_order(b[0], c[0], a[0]);
                lemma_pair_order(a[0], c[0], b[0]);
                lemma_labels_order(a.drop_first(), b.drop_first(), c.drop_first());
            } else {
                lemma_labels_order(a.drop_first(), b.drop_first(), c);
            }
            if a.drop_first() == b.drop_first() && a[0] == b[0] {
                assert(a =~= b) by {
                    assert forall|i: int| 0 <= i < a.len() implies a[i] == b[i] by {
                        if i > 0 {
                            assert(a[i] == a.drop_first()[i - 1]);
                            assert(b[i] == b.drop_first()[i - 1]);
                        }
                    }
                }
            }
        }
        lemma_labels_order(a.drop_first(), a.drop_first(), a.drop_first());
    } else if b.len() == 0 {
        assert(a =~= b);
    }
}

/// Compares two label sequences: negative, zero or positive as `a` sorts
/// before, equal to or after `b`.
pub fn compare_labels(a: &Labels, b: &Labels) -> (r: i8)
    ensures
        (r < 0) == labels_lt(a@, b@),
        (r == 0) == (a@ == b@),
        (r > 0) == labels_lt(b@, a@),
{
    proof {
        lemma_labels_order(a@, b@, a@);
        lemma_labels_order(b@, a@, b@);
    }
    let n = a.0.len();
    let m = b.0.len();
    let mut i: usize = 0;
    assert(a@.subrange(0, n as int) =~= a@);
    assert(b@.subrange(0, m as int) =~= b@);
    assert(a@.subrange(0, 0) =~= b@.subrange(0, 0));
    while i < n && i < m
        invariant
            n == a@.len(),
            m == b@.len(),
            i <= n,
            i <= m,
            a@.subrange(0, i as int) == b@.subrange(0, i as int),
            labels_lt(a@, b@) == labels_lt(a@.subrange(i as int, n as int), b@.subrange(i as int, m as int)),
            labels_lt(b@, a@) == labels_lt(b@.subrange(i as int, m as int), a@.subrange(i as int, n as int)),
        decreases n - i,
    {
        let x = &a.0[i];
        let y = &b.0[i];
        let ghost sa = a@.subrange(i as int, n as int);
        let ghost sb = b@.subrange(i as int, m as int);
        assert(sa[0] == (x.name@, x.value@));
        assert(sb[0] == (y.name@, y.value@));
        proof {
            lemma_pair_order(sa[0], sb[0], sa[0]);
            lemma_lex_trichotomy(encode_utf8(x.name@), encode_utf8(y.name@));
            lemma_lex_trichotomy(encode_utf8(x.value@), encode_utf8(y.value@));
        }
        let cn = compare_bytes(x.name.as_str().as_bytes(), y.name.as_str().as_bytes());
        if cn != 0 {
            proof {
                if encode_utf8(x.name@) != encode_utf8(y.name@) {
                    assert(sa[0] != sb[0]);
                }
            }
            return cn;
        }
        let cv = compare_bytes(x.value.as_str().as_bytes(), y.value.as_str().as_bytes());
        if cv != 0 {
            proof {
                assert(sa[0] != sb[0]);
            }
            return cv;
        }
        proof {
            lemma_encode_injective(x.name@, y.name@);
            lemma_encode_injective(x.value@, y.value@);
            assert(sa[0] == sb[0]);
            assert(sa.drop_first() =~= a@.subrange(i + 1, n as int));
            assert(sb.drop_first() =~= b@.subrange(i + 1, m as int));
            assert(a@.subrange(0, i + 1) =~= a@.subrange(0, i as int).push(sa[0]));
            assert(b@.subrange(0, i + 1) =~= b@.subrange(0, i as int).push(sb[0]));
        }
        i += 1;
    }
    if n == m {
        assert(a@ =~= b@) by {
            assert(a@.subrange(0, i as int) =~= a@);
            assert(b@.subrange(0, i as int) =~= b@);
        }
        0
    } else if n < m {
        proof {
            assert(a@.subrange(0, i as int) =~= a@);
            assert(a@ != b@) by {
                assert(a@.len() != b@.len());
            }
        }
        -1
    } else {
        proof {
            assert(b@.subrange(0, i as int) =~= b@);
            assert(a@.len() != b@.len());
        }
        1
    }
}

/// The labels that a flat list of strings names, two strings a label.
pub open spec fn pairs_of(ss: Seq<Seq<char>>) -> Seq<LabelView> {
    Seq::new(ss.len() / 2, |i: int| (ss[2 * i], ss[2 * i + 1]))
}

/// Why a list of strings does not name labels.
#[derive(Debug, Clone, Copy, PartialEq, Eq, Structural)]
pub enum LabelsError {
    /// The strings do not come in pairs.
    InvalidNumberOfStrings,
}

/// The labels of a series.
#[derive(Debug, Clone, PartialEq, Eq)]
pub struct Labels(Vec<Label>);

impl View for Labels {
    type V = Seq<LabelView>;

    closed spec fn view(&self) -> Seq<LabelView> {
        self.0@.map_values(|l: Label| (l.name@, l.value@))
    }
}

impl Labels {
    pub fn new() -> (r: Labels)
        ensures
            r@ == Seq::<LabelView>::empty(),
    {
        let r = Labels(Vec::new());
        assert(r@ =~= Seq::<LabelView>::empty());
        r
    }

    /// The labels named by `ss`, two strings a label, sorted by name.
    pub fn from_string(ss: Vec<&str>) -> (r: Result<Labels, LabelsError>)
        ensures
            match r {
                Ok(ls) => {
                    &&& ss@.len() % 2 == 0
                    &&& sorted_by_name(ls@)
                    &&& ls@.to_multiset() == pairs_of(ss@.map_values(|s: &str| s@)).to_multiset()
                },
                Err(e) => ss@.len() % 2 == 1 && e == LabelsError::InvalidNumberOfStrings,
            },
    {
        if ss.len() % 2 != 0 {
            return Err(LabelsError::InvalidNumberOfStrings);
        }
        let ghost chars = ss@.map_values(|s: &str| s@);
        let mut ret = Labels::new();
        let mut i: usize = 0;
        while i < ss.len()
            invariant
                ss@.len() % 2 == 0,
                i % 2 == 0,
                i <= ss@.len(),
                chars == ss@.map_values(|s: &str| s@),
                ret@ == pairs_of(chars).subrange(0, (i / 2) as int),
            decreases ss@.len() - i,
        {
            let l = Label { name: String::from_str(ss[i]), value: String::from_str(ss[i + 1]) };
            ret.push(l);
            assert(ret@ =~= pairs_of(chars).subrange(0, ((i + 2) / 2) as int));
            i += 2;
        }
        assert(pairs_of(chars).subrange(0, (i / 2) as int) =~= pairs_of(chars));
        ret.sort();
        Ok(ret)
    }

    pub fn push(&mut self, label: Label)
        ensures
            final(self)@ == old(self)@.push((label.name@, label.value@)),
    {
        let ghost l = (label.name@, label.value@);
        self.0.push(label);
        assert(self@ =~= old(self)@.push(l));
    }

    pub fn len(&self) -> (r: usize)
        ensures
            r == self@.len(),
    {
        self.0.len()
    }

    /// The `i`-th label.
    pub fn get(&self, i: usize) -> (r: &Label)
        requires
            i < self@.len(),
        ensures
            (r.name@, r.value@) == self@[i as int],
    {
        &self.0[i]
    }

    /// Sorts by name.
    pub fn sort(&mut self)
        ensures
            sorted_by_name(final(self)@),
            final(self)@.to_multiset() == old(self)@.to_multiset(),
    {
        let mut out: Vec<Label> = Vec::new();
        let ghost orig = self@;
        let n = self.0.len();
        let mut i: usize = 0;
        proof {
            assert(Labels(out)@ =~= Seq::<LabelView>::empty());
            assert(orig.subrange(0, 0) =~= Seq::<LabelView>::empty());
            assert(Labels(out)@.to_multiset() =~= orig.subrange(0, 0).to_multiset());
        }
        while i < n
            invariant
                n == self.0@.len(),
                i <= n,
                orig == self@,
                sorted_by_name(Labels(out)@),
                Labels(out)@.to_multiset() == orig.subrange(0, i as int).to_multiset(),
            decreases n - i,
        {
            let ghost before = Labels(out)@;
            let item = Label { name: self.0[i].name.clone(), value: self.0[i].value.clone() };
            let ghost x = (item.name@, item.value@);
            assert(x == orig[i as int]);
            let key = item.name.as_str().as_bytes();
            let mut p: usize = 0;
            while p < out.len() && compare_bytes(out[p].name.as_str().as_bytes(), key) <= 0
                invariant
                    p <= out@.len(),
                    before == Labels(out)@,
                    key@ == name_key(x),
                    forall|j: int| 0 <= j < p ==> lex_le(name_key(before[j]), name_key(x)),
                decreases out@.len() - p,
            {
                p += 1;
            }
            proof {
                if p < out@.len() {
                    assert(lex_lt(name_key(x), name_key(before[p as int])));
                }
            }
            out.insert(p, item);
            proof {
                let after = Labels(out)@;
                assert(after =~= before.insert(p as int, x));
                assert forall|a: int, b: int| 0 <= a < b < after.len() implies lex_le(name_key(after[a]), name_key(after[b])) by {
                    if a < p && b == p {
                    } else if a < p && b > p {
                        assert(lex_le(name_key(before[a]), name_key(before[b - 1])));
                    } else if a == p && b > p {
                        assert(lex_le(name_key(before[p as int]), name_key(before[b - 1])));
                        if lex_lt(name_key(before[p as int]), name_key(before[b - 1])) {
                            lemma_lex_transitive(name_key(x), name_key(before[p as int]), name_key(before[b - 1]));
                        }
                    } else if a > p {
                        assert(lex_le(name_key(before[a - 1]), name_key(before[b - 1])));
                    } else {
                        assert(lex_le(name_key(before[a]), name_key(before[b])));
                    }
                }
                vstd::seq_lib::to_multiset_insert(before, p as int, x);
                assert(orig.subrange(0, i + 1) =~= orig.subrange(0, i as int).push(x));
                vstd::seq_lib::to_multiset_build(orig.subrange(0, i as int), x);
            }
            i += 1;
        }
        assert(orig.subrange(0, n as int) =~= orig);
        self.0 = out;
    }

    /// The labels as text: `{a="1", b="2"}`.
    pub fn to_string(&self) -> (r: String)
        ensures
            r@ == labels_text(self@),
    {
        let mut r = String::from_str("{");
        proof {
            reveal_strlit("{");
        }
        let n = self.0.len();
        let mut i: usize = 0;
        while i < n
            invariant
                n == self@.len(),
                i <= n,
                r@ == seq!['{'] + join_labels(self@.subrange(0, i as int)),
            decreases n - i,
        {
            let ghost before = r@;
            if i > 0 {
                r.append(", ");
                proof {
                    reveal_strlit(", ");
                }
            }
            let l = &self.0[i];
            r.append(l.name.as_str());
            r.append("=\"");
            r.append(l.value.as_str());
            r.append("\"");
            proof {
                reveal_strlit("=\"");
                reveal_strlit("\"");
                let s = self@.subrange(0, i + 1);
                assert(s.drop_last() =~= self@.subrange(0, i as int));
                assert(s.last() == (l.name@, l.value@));
                assert(r@ =~= seq!['{'] + join_labels(s));
            }
            i += 1;
        }
        assert(self@.subrange(0, n as int) =~= self@);
        r.append("}");
        proof {
            reveal_strlit("}");
            assert(r@ =~= labels_text(self@));
        }
        r
    }

    /// A copy of these labels.
    pub fn duplicate(&self) -> (r: Labels)
        ensures
            r@ == self@,
    {
        let mut out = Labels::new();
        let n = self.0.len();
        let mut i: usize = 0;
        while i < n
            invariant
                n == self@.len(),
                i <= n,
                out@ == self@.subrange(0, i as int),
            decreases n - i,
        {
            let l = &self.0[i];
            out.push(Label { name: l.name.clone(), value: l.value.clone() });
            assert(out@ =~= self@.subrange(0, i + 1));
            i += 1;
        }
        assert(self@.subrange(0, n as int) =~= self@);
        out
    }
}

/// Collects labels one by one, then sorts them.
#[derive(Debug, Clone)]
pub struct ScratchBuilder {
    add: Labels,
}

impl ScratchBuilder {
    pub closed spec fn added(self) -> Seq<LabelView> {
        self.add@
    }

    pub fn new() -> (r: ScratchBuilder)
        ensures
            r.added() == Seq::<LabelView>::empty(),
    {
        ScratchBuilder { add: Labels::new() }
    }

    pub fn add(&mut self, name: String, value: String)
        ensures
            final(self).added() == old(self).added().push((name@, value@)),
    {
        self.add.push(Label::new(name, value))
    }

    pub fn sort(&mut self)
        ensures
            sorted_by_name(final(self).added()),
            final(self).added().to_multiset() == old(self).added().to_multiset(),
    {
        self.add.sort()
    }

    pub fn labels(&self) -> (r: Labels)
        ensures
            r@ == self.added(),
    {
        self.add.duplicate()
    }
}

/// The name and value that a matcher compares with.
#[derive(Debug, Clone, PartialEq, Eq)]
pub struct MustMatch {
    pub name: String,
    pub value: String,
}

/// A condition on the value of one label.
#[derive(Debug, Clone, PartialEq, Eq)]
pub enum Matcher {
    MatchEqual(MustMatch),
    MatchNotEqual(MustMatch),
}

impl Matcher {
    /// Matches the label `name` where it has the value `value`.
    pub fn new_must_matcher(name: &str, value: &str) -> (r: Matcher)
        ensures
            r matches Matcher::MatchEqual(m) && m.name@ == name@ && m.value@ == value@,
    {
        Matcher::MatchEqual(MustMatch { name: String::from_str(name), value: String::from_str(value) })
    }

    /// Whether the label value `s` satisfies the matcher.
    pub fn matches(&self, s: &str) -> (r: bool)
        ensures
            r == match self {
                Matcher::MatchEqual(m) => m.value@ == s@,
                Matcher::MatchNotEqual(m) => m.value@ != s@,
            },
    {
        let (m, equal) = match self {
            Matcher::MatchEqual(m) => (m, true),
            Matcher::MatchNotEqual(m) => (m, false),
        };
        let same = compare_bytes(m.value.as_str().as_bytes(), s.as_bytes()) == 0;
        proof {
            vstd::utf8::encode_utf8_decode_utf8(m.value@);
            vstd::utf8::encode_utf8_decode_utf8(s@);
        }
        if equal {
            same
        } else {
            !same
        }
    }
}

} // verus!
