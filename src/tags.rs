//! Message tags: a map from tag name to tag value, kept in ascending key order
//! so that formatting walks it deterministically.
use vstd::prelude::*;

use crate::text::chars_of;

verus! {

/// Lexicographic order on keys, character by character by code point; a
/// proper prefix comes first. This is the order of `String`'s `Ord`.
pub open spec fn key_lt(a: Seq<char>, b: Seq<char>) -> bool
    decreases a.len(),
{
    if b.len() == 0 {
        false
    } else if a.len() == 0 {
        true
    } else if a[0] != b[0] {
        a[0] < b[0]
    } else {
        key_lt(a.drop_first(), b.drop_first())
    }
}

/// The keys of `es` strictly ascend, so each key occurs once.
pub open spec fn sorted(es: Seq<(Seq<char>, Seq<char>)>) -> bool {
    forall|i: int, j: int| 0 <= i < j < es.len() ==> key_lt(#[trigger] es[i].0, #[trigger] es[j].0)
}

/// `es` with `(k, v)` put in its place by key; an entry with key `k` is replaced.
pub open spec fn sorted_insert(es: Seq<(Seq<char>, Seq<char>)>, k: Seq<char>, v: Seq<char>) -> Seq<
    (Seq<char>, Seq<char>),
>
    decreases es.len(),
{
    if es.len() == 0 {
        seq![(k, v)]
    } else if es[0].0 == k {
        seq![(k, v)] + es.drop_first()
    } else if key_lt(k, es[0].0) {
        seq![(k, v)] + es
    } else {
        seq![es[0]] + sorted_insert(es.drop_first(), k, v)
    }
}

/// The value stored under `k`, if any.
pub open spec fn lookup(es: Seq<(Seq<char>, Seq<char>)>, k: Seq<char>) -> Option<Seq<char>>
    decreases es.len(),
{
    if es.len() == 0 {
        None
    } else if es[0].0 == k {
        Some(es[0].1)
    } else {
        lookup(es.drop_first(), k)
    }
}

/// Any two keys are ordered one way or the other, or are equal, and never both.
pub proof fn lemma_key_order(a: Seq<char>, b: Seq<char>)
    ensures
        !(key_lt(a, b) && key_lt(b, a)),
        a == b || key_lt(a, b) || key_lt(b, a),
        key_lt(a, b) ==> a != b,
    decreases a.len(),
{
    if a.len() > 0 && b.len() > 0 {
        if a[0] == b[0] {
            lemma_key_order(a.drop_first(), b.drop_first());
            if a.drop_first() == b.drop_first() {
                assert(a =~= seq![a[0]] + a.drop_first());
                assert(b =~= seq![b[0]] + b.drop_first());
            }
        }
    } else if a.len() == 0 && b.len() == 0 {
        assert(a =~= b);
    }
}

pub proof fn lemma_key_lt_transitive(a: Seq<char>, b: Seq<char>, c: Seq<char>)
    requires
        key_lt(a, b),
        key_lt(b, c),
    ensures
        key_lt(a, c),
    decreases a.len(),
{
    if a.len() > 0 && a[0] == b[0] && b[0] == c[0] {
        lemma_key_lt_transitive(a.drop_first(), b.drop_first(), c.drop_first());
    }
}

/// A bound below every key and below `k` stays below every key after the insertion.
proof fn lemma_insert_lower_bound(
    es: Seq<(Seq<char>, Seq<char>)>,
    k: Seq<char>,
    v: Seq<char>,
    x: Seq<char>,
)
    requires
        key_lt(x, k),
        forall|j: int| 0 <= j < es.len() ==> key_lt(x, #[trigger] es[j].0),
    ensures
        forall|j: int|
            0 <= j < sorted_insert(es, k, v).len() ==> key_lt(x, #[trigger] sorted_insert(es, k, v)[j].0),
    decreases es.len(),
{
    if es.len() > 0 && es[0].0 != k && !key_lt(k, es[0].0) {
        lemma_insert_lower_bound(es.drop_first(), k, v, x);
        let r = sorted_insert(es, k, v);
        assert forall|j: int| 0 <= j < r.len() implies key_lt(x, #[trigger] r[j].0) by {
            if j > 0 {
                assert(r[j] == sorted_insert(es.drop_first(), k, v)[j - 1]);
            }
        }
    }
}

/// Inserting keeps the keys ascending.
pub proof fn lemma_sorted_insert_sorted(es: Seq<(Seq<char>, Seq<char>)>, k: Seq<char>, v: Seq<char>)
    requires
        sorted(es),
    ensures
        sorted(sorted_insert(es, k, v)),
    decreases es.len(),
{
    let r = sorted_insert(es, k, v);
    if es.len() > 0 {
        let h = es[0].0;
        if h == k {
            assert forall|i: int, j: int| 0 <= i < j < r.len() implies key_lt(
                #[trigger] r[i].0,
                #[trigger] r[j].0,
            ) by {
                assert(key_lt(es[i].0, es[j].0));
            }
        } else if key_lt(k, h) {
            assert forall|i: int, j: int| 0 <= i < j < r.len() implies key_lt(
                #[trigger] r[i].0,
                #[trigger] r[j].0,
            ) by {
                if i == 0 {
                    if j > 1 {
                        assert(key_lt(es[0].0, es[j - 1].0));
                        lemma_key_lt_transitive(k, h, es[j - 1].0);
                    }
                } else {
                    assert(key_lt(es[i - 1].0, es[j - 1].0));
                }
            }
        } else {
            lemma_key_order(k, h);
            let t = es.drop_first();
            lemma_sorted_insert_sorted(t, k, v);
            assert forall|j: int| 0 <= j < t.len() implies key_lt(h, #[trigger] t[j].0) by {
                assert(key_lt(es[0].0, es[j + 1].0));
            }
            lemma_insert_lower_bound(t, k, v, h);
            let rt = sorted_insert(t, k, v);
            assert forall|i: int, j: int| 0 <= i < j < r.len() implies key_lt(
                #[trigger] r[i].0,
                #[trigger] r[j].0,
            ) by {
                assert(r[j] == rt[j - 1]);
                if i > 0 {
                    assert(r[i] == rt[i - 1]);
                }
            }
        }
    }
}

/// Inserting a key above every present key appends the entry.
pub proof fn lemma_sorted_insert_last(es: Seq<(Seq<char>, Seq<char>)>, k: Seq<char>, v: Seq<char>)
    requires
        forall|j: int| 0 <= j < es.len() ==> key_lt(#[trigger] es[j].0, k),
    ensures
        sorted_insert(es, k, v) == es.push((k, v)),
    decreases es.len(),
{
    if es.len() > 0 {
        lemma_key_order(es[0].0, k);
        let t = es.drop_first();
        assert forall|j: int| 0 <= j < t.len() implies key_lt(#[trigger] t[j].0, k) by {
            assert(t[j] == es[j + 1]);
        }
        lemma_sorted_insert_last(t, k, v);
        assert(es.push((k, v)) =~= seq![es[0]] + t.push((k, v)));
    }
}

/// Below the first key not under `k`, insertion leaves the entries alone.
proof fn lemma_sorted_insert_skip(
    es: Seq<(Seq<char>, Seq<char>)>,
    k: Seq<char>,
    v: Seq<char>,
    i: int,
)
    requires
        0 <= i <= es.len(),
        forall|j: int| 0 <= j < i ==> key_lt(#[trigger] es[j].0, k),
    ensures
        sorted_insert(es, k, v) == es.take(i) + sorted_insert(es.skip(i), k, v),
    decreases i,
{
    if i == 0 {
        assert(es.skip(0) =~= es);
        assert(es.take(0) + sorted_insert(es, k, v) =~= sorted_insert(es, k, v));
    } else {
        lemma_key_order(es[0].0, k);
        let t = es.drop_first();
        assert forall|j: int| 0 <= j < i - 1 implies key_lt(#[trigger] t[j].0, k) by {
            assert(t[j] == es[j + 1]);
        }
        lemma_sorted_insert_skip(t, k, v, i - 1);
        assert(t.skip(i - 1) =~= es.skip(i));
        assert(es.take(i) =~= seq![es[0]] + t.take(i - 1));
        assert(seq![es[0]] + (t.take(i - 1) + sorted_insert(es.skip(i), k, v)) =~= es.take(i)
            + sorted_insert(es.skip(i), k, v));
    }
}

/// `es` with the pairs of `ps` inserted one after another, first to last.
pub open spec fn insert_all(
    es: Seq<(Seq<char>, Seq<char>)>,
    ps: Seq<(Seq<char>, Seq<char>)>,
) -> Seq<(Seq<char>, Seq<char>)>
    decreases ps.len(),
{
    if ps.len() == 0 {
        es
    } else {
        insert_all(sorted_insert(es, ps[0].0, ps[0].1), ps.drop_first())
    }
}

/// No key occurs twice in `ps`.
pub open spec fn distinct_keys(ps: Seq<(Seq<char>, Seq<char>)>) -> bool {
    forall|i: int, j: int| 0 <= i < ps.len() && 0 <= j < ps.len() && i != j ==> #[trigger] ps[i].0 != #[trigger] ps[j].0
}

/// Inserting a new key adds exactly its entry.
proof fn lemma_sorted_insert_contents(es: Seq<(Seq<char>, Seq<char>)>, k: Seq<char>, v: Seq<char>)
    requires
        forall|j: int| 0 <= j < es.len() ==> #[trigger] es[j].0 != k,
    ensures
        sorted_insert(es, k, v).contains((k, v)),
        forall|x: (Seq<char>, Seq<char>)| #[trigger] es.contains(x) ==> sorted_insert(es, k, v).contains(x),
        forall|x: (Seq<char>, Seq<char>)|
            #[trigger] sorted_insert(es, k, v).contains(x) ==> es.contains(x) || x == (k, v),
    decreases es.len(),
{
    let r = sorted_insert(es, k, v);
    if es.len() == 0 {
        assert(r[0] == (k, v));
    } else if key_lt(k, es[0].0) {
        assert(r[0] == (k, v));
        assert forall|x: (Seq<char>, Seq<char>)| #[trigger] es.contains(x) implies r.contains(x) by {
            let i = choose|i: int| 0 <= i < es.len() && es[i] == x;
            assert(r[i + 1] == x);
        }
        assert forall|x: (Seq<char>, Seq<char>)| #[trigger] r.contains(x) implies es.contains(x) || x == (k, v) by {
            let i = choose|i: int| 0 <= i < r.len() && r[i] == x;
            if i > 0 {
                assert(es[i - 1] == x);
            }
        }
    } else {
        let t = es.drop_first();
        assert forall|j: int| 0 <= j < t.len() implies #[trigger] t[j].0 != k by {
            assert(t[j] == es[j + 1]);
        }
        lemma_sorted_insert_contents(t, k, v);
        let rt = sorted_insert(t, k, v);
        assert(r == seq![es[0]] + rt);
        let j0 = choose|j: int| 0 <= j < rt.len() && rt[j] == (k, v);
        assert(r[j0 + 1] == (k, v));
        assert forall|x: (Seq<char>, Seq<char>)| #[trigger] es.contains(x) implies r.contains(x) by {
            let i = choose|i: int| 0 <= i < es.len() && es[i] == x;
            if i == 0 {
                assert(r[0] == x);
            } else {
                assert(t[i - 1] == x);
                assert(t.contains(x));
                let j = choose|j: int| 0 <= j < rt.len() && rt[j] == x;
                assert(r[j + 1] == x);
            }
        }
        assert forall|x: (Seq<char>, Seq<char>)| #[trigger] r.contains(x) implies es.contains(x) || x == (k, v) by {
            let i = choose|i: int| 0 <= i < r.len() && r[i] == x;
            if i > 0 {
                assert(rt[i - 1] == x);
                assert(rt.contains(x));
                if t.contains(x) {
                    let j = choose|j: int| 0 <= j < t.len() && t[j] == x;
                    assert(es[j + 1] == x);
                }
            } else {
                assert(es[0] == x);
            }
        }
    }
}

/// Inserting pairs under new, distinct keys keeps the order and holds
/// exactly the old entries and the pairs.
proof fn lemma_insert_all_contents(es: Seq<(Seq<char>, Seq<char>)>, ps: Seq<(Seq<char>, Seq<char>)>)
    requires
        sorted(es),
        distinct_keys(ps),
        forall|i: int, j: int| 0 <= i < es.len() && 0 <= j < ps.len() ==> #[trigger] es[i].0 != #[trigger] ps[j].0,
    ensures
        sorted(insert_all(es, ps)),
        forall|x: (Seq<char>, Seq<char>)|
            insert_all(es, ps).contains(x) <==> (es.contains(x) || ps.contains(x)),
    decreases ps.len(),
{
    if ps.len() == 0 {
        assert(insert_all(es, ps) == es);
        assert forall|x: (Seq<char>, Seq<char>)| insert_all(es, ps).contains(x) <==> (es.contains(x) || ps.contains(x)) by {
            if ps.contains(x) {
                let i = choose|i: int| 0 <= i < ps.len() && ps[i] == x;
            }
        }
    } else {
        let (k, v) = ps[0];
        let e2 = sorted_insert(es, k, v);
        let rest = ps.drop_first();
        assert forall|j: int| 0 <= j < es.len() implies #[trigger] es[j].0 != k by {
            assert(es[j].0 != ps[0].0);
        }
        lemma_sorted_insert_contents(es, k, v);
        lemma_sorted_insert_sorted(es, k, v);
        assert forall|i: int, j: int| 0 <= i < rest.len() && 0 <= j < rest.len() && i != j implies #[trigger] rest[i].0 != #[trigger] rest[j].0 by {
            assert(rest[i] == ps[i + 1] && rest[j] == ps[j + 1]);
        }
        assert forall|i: int, j: int| 0 <= i < e2.len() && 0 <= j < rest.len() implies #[trigger] e2[i].0 != #[trigger] rest[j].0 by {
            assert(e2.contains(e2[i]));
            assert(rest[j] == ps[j + 1]);
            if es.contains(e2[i]) {
                let a = choose|a: int| 0 <= a < es.len() && es[a] == e2[i];
                assert(es[a].0 != ps[j + 1].0);
            } else {
                assert(ps[0].0 != ps[j + 1].0);
            }
        }
        lemma_insert_all_contents(e2, rest);
        assert(insert_all(es, ps) == insert_all(e2, rest));
        assert forall|x: (Seq<char>, Seq<char>)| insert_all(es, ps).contains(x) <==> (es.contains(x) || ps.contains(x)) by {
            if ps.contains(x) {
                let i = choose|i: int| 0 <= i < ps.len() && ps[i] == x;
                if i > 0 {
                    assert(rest[i - 1] == x);
                    assert(rest.contains(x));
                }
            }
            if e2.contains(x) {
                assert(es.contains(x) || x == (k, v));
            }
            if es.contains(x) {
                assert(e2.contains(x));
            }
            if rest.contains(x) {
                let i = choose|i: int| 0 <= i < rest.len() && rest[i] == x;
                assert(ps[i + 1] == x);
            }
        }
    }
}

/// Two key-ordered sequences with the same entries are the same sequence.
proof fn lemma_sorted_unique(s1: Seq<(Seq<char>, Seq<char>)>, s2: Seq<(Seq<char>, Seq<char>)>)
    requires
        sorted(s1),
        sorted(s2),
        forall|x: (Seq<char>, Seq<char>)| s1.contains(x) <==> s2.contains(x),
    ensures
        s1 == s2,
    decreases s1.len(),
{
    if s1.len() == 0 {
        if s2.len() > 0 {
            assert(s2.contains(s2[0]));
        }
        assert(s1 =~= s2);
    } else {
        assert(s1.contains(s1[0]));
        assert(s2.len() > 0);
        assert(s2.contains(s2[0]));
        let i = choose|i: int| 0 <= i < s1.len() && s1[i] == s2[0];
        let j = choose|j: int| 0 <= j < s2.len() && s2[j] == s1[0];
        if i > 0 && j > 0 {
            assert(key_lt(s1[0].0, s1[i].0));
            assert(key_lt(s2[0].0, s2[j].0));
            lemma_key_order(s1[0].0, s2[0].0);
        }
        let a = s1[0];
        let t1 = s1.drop_first();
        let t2 = s2.drop_first();
        assert forall|x: (Seq<char>, Seq<char>)| t1.contains(x) <==> t2.contains(x) by {
            if t1.contains(x) {
                let k = choose|k: int| 0 <= k < t1.len() && t1[k] == x;
                assert(s1[k + 1] == x && s1.contains(x));
                assert(key_lt(s1[0].0, s1[k + 1].0));
                lemma_key_order(a.0, x.0);
                let m = choose|m: int| 0 <= m < s2.len() && s2[m] == x;
                assert(m > 0);
                assert(t2[m - 1] == x);
            }
            if t2.contains(x) {
                let k = choose|k: int| 0 <= k < t2.len() && t2[k] == x;
                assert(s2[k + 1] == x && s2.contains(x));
                assert(key_lt(s2[0].0, s2[k + 1].0));
                lemma_key_order(a.0, x.0);
                let m = choose|m: int| 0 <= m < s1.len() && s1[m] == x;
                assert(m > 0);
                assert(t1[m - 1] == x);
            }
        }
        assert(sorted(t1)) by {
            assert forall|p: int, q: int| 0 <= p < q < t1.len() implies key_lt(
                #[trigger] t1[p].0,
                #[trigger] t1[q].0,
            ) by {
                assert(key_lt(s1[p + 1].0, s1[q + 1].0));
            }
        }
        assert(sorted(t2)) by {
            assert forall|p: int, q: int| 0 <= p < q < t2.len() implies key_lt(
                #[trigger] t2[p].0,
                #[trigger] t2[q].0,
            ) by {
                assert(key_lt(s2[p + 1].0, s2[q + 1].0));
            }
        }
        lemma_sorted_unique(t1, t2);
        assert(s1 =~= seq![a] + t1);
        assert(s2 =~= seq![a] + t2);
    }
}

/// Tags built by inserting the same pairs, under distinct keys, in any two
/// orders are the same tags, entry for entry in the same order.
pub proof fn lemma_insertion_order_irrelevant(
    ps: Seq<(Seq<char>, Seq<char>)>,
    qs: Seq<(Seq<char>, Seq<char>)>,
)
    requires
        distinct_keys(ps),
        distinct_keys(qs),
        forall|x: (Seq<char>, Seq<char>)| ps.contains(x) <==> qs.contains(x),
    ensures
        insert_all(seq![], ps) == insert_all(seq![], qs),
{
    let e: Seq<(Seq<char>, Seq<char>)> = seq![];
    lemma_insert_all_contents(e, ps);
    lemma_insert_all_contents(e, qs);
    assert forall|x: (Seq<char>, Seq<char>)| insert_all(e, ps).contains(x) <==> insert_all(e, qs).contains(x) by {
        if e.contains(x) {
            let i = choose|i: int| 0 <= i < e.len() && e[i] == x;
        }
    }
    lemma_sorted_unique(insert_all(e, ps), insert_all(e, qs));
}

/// Whether `a` comes strictly before `b` in key order.
pub fn key_less(a: &Vec<char>, b: &Vec<char>) -> (r: bool)
    ensures
        r == key_lt(a@, b@),
{
    let mut i: usize = 0;
    assert(a@.skip(0) =~= a@ && b@.skip(0) =~= b@);
    while i < a.len() && i < b.len() && a[i] == b[i]
        invariant
            i <= a.len(),
            i <= b.len(),
            key_lt(a@, b@) == key_lt(a@.skip(i as int), b@.skip(i as int)),
        decreases a.len() - i,
    {
        assert(a@.skip(i as int).drop_first() =~= a@.skip(i + 1));
        assert(b@.skip(i as int).drop_first() =~= b@.skip(i + 1));
        i += 1;
    }
    if i == b.len() {
        false
    } else if i == a.len() {
        true
    } else {
        a[i] < b[i]
    }
}

/// Whether `a` and `b` are the same key.
fn same_key(a: &Vec<char>, b: &Vec<char>) -> (r: bool)
    ensures
        r == (a@ == b@),
{
    proof {
        lemma_key_order(a@, b@);
    }
    !key_less(a, b) && !key_less(b, a)
}

/// Tag names and their values, ascending by name, each name once.
#[derive(Debug, Clone, PartialEq, Eq)]
pub struct Tags {
    entries: Vec<(String, String)>,
}

impl View for Tags {
    type V = Seq<(Seq<char>, Seq<char>)>;

    closed spec fn view(&self) -> Seq<(Seq<char>, Seq<char>)> {
        self.entries@.map_values(|e: (String, String)| (e.0@, e.1@))
    }
}

impl Tags {
    /// The entries ascend by key, each key once.
    pub open spec fn wf(&self) -> bool {
        sorted(self@)
    }

    /// No tags.
    pub fn new() -> (r: Tags)
        ensures
            r.wf(),
            r@ == Seq::<(Seq<char>, Seq<char>)>::empty(),
    {
        let r = Tags { entries: Vec::new() };
        assert(r@ =~= Seq::<(Seq<char>, Seq<char>)>::empty());
        r
    }

    /// Number of tags.
    pub fn len(&self) -> (r: usize)
        ensures
            r == self@.len(),
    {
        self.entries.len()
    }

    /// Whether there are no tags.
    pub fn is_empty(&self) -> (r: bool)
        ensures
            r == (self@.len() == 0),
    {
        self.entries.len() == 0
    }

    /// The `i`-th tag in key order, as name and value.
    pub fn entry(&self, i: usize) -> (r: (&String, &String))
        requires
            i < self@.len(),
        ensures
            r.0@ == self@[i as int].0,
            r.1@ == self@[i as int].1,
    {
        let e = &self.entries[i];
        (&e.0, &e.1)
    }

    /// Sets the value of tag `key`, adding the tag when it is not there.
    pub fn insert(&mut self, key: String, value: String)
        requires
            old(self).wf(),
        ensures
            final(self).wf(),
            final(self)@ == sorted_insert(old(self)@, key@, value@),
    {
        let ghost es = self@;
        let kc = chars_of(key.as_str());
        let n = self.entries.len();
        let mut i: usize = 0;
        while i < n && key_less(&chars_of(self.entries[i].0.as_str()), &kc)
            invariant
                n == self.entries.len(),
                es == self@,
                kc@ == key@,
                i <= n,
                forall|j: int| 0 <= j < i ==> key_lt(#[trigger] es[j].0, key@),
            decreases n - i,
        {
            i += 1;
        }
        proof {
            lemma_sorted_insert_skip(es, key@, value@, i as int);
            if i < n {
                lemma_key_order(es[i as int].0, key@);
                assert(es.skip(i as int).drop_first() =~= es.skip(i + 1));
            }
            lemma_sorted_insert_sorted(es, key@, value@);
        }
        if i < n && same_key(&chars_of(self.entries[i].0.as_str()), &kc) {
            self.entries.remove(i);
            self.entries.insert(i, (key, value));
            assert(self@ =~= sorted_insert(es, key@, value@));
        } else {
            self.entries.insert(i, (key, value));
            assert(self@ =~= sorted_insert(es, key@, value@));
        }
    }

    /// The value of tag `key`, if it is there.
    pub fn get(&self, key: &str) -> (r: Option<&String>)
        ensures
            r matches Some(v) ==> lookup(self@, key@) == Some(v@),
            r is None ==> lookup(self@, key@) is None,
    {
        let kc = chars_of(key);
        let n = self.entries.len();
        let mut i: usize = 0;
        assert(self@.skip(0) =~= self@);
        while i < n
            invariant
                kc@ == key@,
                n == self@.len(),
                i <= n,
                lookup(self@, key@) == lookup(self@.skip(i as int), key@),
            decreases n - i,
        {
            assert(self@.skip(i as int)[0] == self@[i as int]);
            if same_key(&chars_of(self.entries[i].0.as_str()), &kc) {
                return Some(&self.entries[i].1);
            }
            assert(self@.skip(i as int).drop_first() =~= self@.skip(i + 1));
            i += 1;
        }
        None
    }
}

} // verus!
