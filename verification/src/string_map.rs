//! A map from strings to values, kept as a vector that is sorted by key.

use vstd::prelude::*;
use crate::text::chars_of;

verus! {

/// Whether `a` stands before `b` when texts are ordered character by character.
pub open spec fn before(a: Seq<char>, b: Seq<char>) -> bool
    decreases a.len(),
{
    if b.len() == 0 {
        false
    } else if a.len() == 0 {
        true
    } else if a[0] != b[0] {
        a[0] < b[0]
    } else {
        before(a.drop_first(), b.drop_first())
    }
}

/// Whether the keys of some entries stand in strictly ascending order.
pub open spec fn sorted<V>(entries: Seq<(Seq<char>, V)>) -> bool {
    forall|i: int, j: int|
        0 <= i < j < entries.len() ==> before(#[trigger] entries[i].0, #[trigger] entries[j].0)
}

/// Whether `key` is the key of one of the entries.
pub open spec fn has_key<V>(entries: Seq<(Seq<char>, V)>, key: Seq<char>) -> bool {
    exists|i: int| 0 <= i < entries.len() && (#[trigger] entries[i]).0 == key
}

/// Where `key` stands among the keys of the entries.
pub open spec fn key_index<V>(entries: Seq<(Seq<char>, V)>, key: Seq<char>) -> int {
    choose|i: int| 0 <= i < entries.len() && (#[trigger] entries[i]).0 == key
}

/// The value stored under `key`.
pub open spec fn lookup<V>(entries: Seq<(Seq<char>, V)>, key: Seq<char>) -> Option<V> {
    if has_key(entries, key) {
        Some(entries[key_index(entries, key)].1)
    } else {
        None
    }
}

/// How many keys at the start of the entries stand before `key`.
pub open spec fn rank<V>(entries: Seq<(Seq<char>, V)>, key: Seq<char>) -> nat
    decreases entries.len(),
{
    if entries.len() > 0 && before(entries[0].0, key) {
        1 + rank(entries.drop_first(), key)
    } else {
        0
    }
}

/// The entries with `value` under `key`, in place of what was stored there.
pub open spec fn put<V>(entries: Seq<(Seq<char>, V)>, key: Seq<char>, value: V) -> Seq<
    (Seq<char>, V),
> {
    if has_key(entries, key) {
        entries.update(key_index(entries, key), (key, value))
    } else {
        entries.insert(rank(entries, key) as int, (key, value))
    }
}

/// The entries with `value` under `key`, unless something is stored there.
pub open spec fn put_new<V>(entries: Seq<(Seq<char>, V)>, key: Seq<char>, value: V) -> Seq<
    (Seq<char>, V),
> {
    if has_key(entries, key) {
        entries
    } else {
        put(entries, key, value)
    }
}

pub proof fn lemma_before_irreflexive(a: Seq<char>)
    ensures
        !before(a, a),
    decreases a.len(),
{
    if a.len() > 0 {
        lemma_before_irreflexive(a.drop_first());
    }
}

pub proof fn lemma_before_transitive(a: Seq<char>, b: Seq<char>, c: Seq<char>)
    requires
        before(a, b),
        before(b, c),
    ensures
        before(a, c),
    decreases a.len(),
{
    if a.len() > 0 && b.len() > 0 && c.len() > 0 && a[0] == b[0] && b[0] == c[0] {
        lemma_before_transitive(a.drop_first(), b.drop_first(), c.drop_first());
    }
}

pub proof fn lemma_before_total(a: Seq<char>, b: Seq<char>)
    ensures
        a == b || before(a, b) || before(b, a),
    decreases a.len(),
{
    if a.len() == 0 || b.len() == 0 {
        if a.len() == b.len() {
            assert(a =~= b);
        }
    } else if a[0] == b[0] {
        lemma_before_total(a.drop_first(), b.drop_first());
        if a.drop_first() == b.drop_first() {
            assert(a =~= seq![a[0]] + a.drop_first());
            assert(b =~= seq![b[0]] + b.drop_first());
        }
    }
}

/// In sorted entries a key stands at one place only.
pub proof fn lemma_key_unique<V>(entries: Seq<(Seq<char>, V)>, i: int, j: int)
    requires
        sorted(entries),
        0 <= i < entries.len(),
        0 <= j < entries.len(),
        entries[i].0 == entries[j].0,
    ensures
        i == j,
{
    lemma_before_irreflexive(entries[i].0);
}

pub proof fn lemma_lookup_at<V>(entries: Seq<(Seq<char>, V)>, i: int)
    requires
        sorted(entries),
        0 <= i < entries.len(),
    ensures
        has_key(entries, entries[i].0),
        key_index(entries, entries[i].0) == i,
        lookup(entries, entries[i].0) == Some(entries[i].1),
{
    lemma_key_unique(entries, i, key_index(entries, entries[i].0));
}

/// `rank` is `i` when exactly the first `i` keys stand before `key`.
pub proof fn lemma_rank_at<V>(entries: Seq<(Seq<char>, V)>, key: Seq<char>, i: int)
    requires
        0 <= i <= entries.len(),
        forall|j: int| 0 <= j < i ==> before((#[trigger] entries[j]).0, key),
        i < entries.len() ==> !before(entries[i].0, key),
    ensures
        rank(entries, key) == i,
    decreases entries.len(),
{
    if i > 0 {
        assert(before(entries[0].0, key));
        let rest = entries.drop_first();
        assert forall|j: int| 0 <= j < i - 1 implies before((#[trigger] rest[j]).0, key) by {
            assert(rest[j] == entries[j + 1]);
        }
        lemma_rank_at(rest, key, i - 1);
    }
}

pub proof fn lemma_rank_bounds<V>(entries: Seq<(Seq<char>, V)>, key: Seq<char>)
    ensures
        rank(entries, key) <= entries.len(),
        forall|j: int| 0 <= j < rank(entries, key) ==> before((#[trigger] entries[j]).0, key),
        rank(entries, key) < entries.len() ==> !before(entries[rank(entries, key) as int].0, key),
    decreases entries.len(),
{
    if entries.len() > 0 && before(entries[0].0, key) {
        let rest = entries.drop_first();
        lemma_rank_bounds(rest, key);
        assert forall|j: int| 0 <= j < rank(entries, key) implies before(
            (#[trigger] entries[j]).0,
            key,
        ) by {
            if j > 0 {
                assert(rest[j - 1] == entries[j]);
            }
        }
        if rank(entries, key) < entries.len() {
            assert(rest[rank(rest, key) as int] == entries[rank(entries, key) as int]);
        }
    }
}

/// Storing under a key keeps the entries sorted.
pub proof fn lemma_put_sorted<V>(entries: Seq<(Seq<char>, V)>, key: Seq<char>, value: V)
    requires
        sorted(entries),
    ensures
        sorted(put(entries, key, value)),
{
    let after = put(entries, key, value);
    if has_key(entries, key) {
        let k = key_index(entries, key);
        assert forall|i: int, j: int| 0 <= i < j < after.len() implies before(
            #[trigger] after[i].0,
            #[trigger] after[j].0,
        ) by {
            assert(after[i].0 == entries[i].0);
            assert(after[j].0 == entries[j].0);
        }
    } else {
        let r = rank(entries, key) as int;
        lemma_rank_bounds(entries, key);
        assert forall|i: int, j: int| 0 <= i < j < after.len() implies before(
            #[trigger] after[i].0,
            #[trigger] after[j].0,
        ) by {
            if i < r && j == r {
                assert(before(entries[i].0, key));
            } else if i == r {
                assert(after[j] == entries[j - 1]);
                lemma_before_total(entries[r].0, key);
                if j - 1 > r {
                    lemma_before_transitive(key, entries[r].0, entries[j - 1].0);
                }
            } else if i < r {
                if j > r {
                    assert(after[j] == entries[j - 1]);
                }
            } else {
                assert(after[i] == entries[i - 1]);
                assert(after[j] == entries[j - 1]);
            }
        }
    }
}

/// What is found under each key after storing under one.
pub proof fn lemma_lookup_put<V>(
    entries: Seq<(Seq<char>, V)>,
    key: Seq<char>,
    value: V,
    other: Seq<char>,
)
    requires
        sorted(entries),
    ensures
        lookup(put(entries, key, value), other) == if other == key {
            Some(value)
        } else {
            lookup(entries, other)
        },
        has_key(put(entries, key, value), other) <==> other == key || has_key(entries, other),
{
    let after = put(entries, key, value);
    lemma_put_sorted(entries, key, value);
    let r = if has_key(entries, key) {
        key_index(entries, key)
    } else {
        rank(entries, key) as int
    };
    lemma_rank_bounds(entries, key);
    assert(after[r] == (key, value));
    if other == key {
        lemma_lookup_at(after, r);
    } else if has_key(entries, other) {
        let i = key_index(entries, other);
        let j = if has_key(entries, key) || i < r {
            i
        } else {
            i + 1
        };
        assert(after[j] == entries[i]);
        lemma_lookup_at(after, j);
        lemma_lookup_at(entries, i);
    } else if has_key(after, other) {
        let j = key_index(after, other);
        if has_key(entries, key) {
            assert(after[j].0 == entries[j].0);
        } else if j < r {
            assert(after[j] == entries[j]);
        } else {
            assert(after[j] == entries[j - 1]);
        }
        assert(false);
    }
}

/// Storing under a key that stands after all others appends.
pub proof fn lemma_put_last<V>(entries: Seq<(Seq<char>, V)>, key: Seq<char>, value: V)
    requires
        forall|i: int| 0 <= i < entries.len() ==> before((#[trigger] entries[i]).0, key),
    ensures
        !has_key(entries, key),
        put(entries, key, value) == entries.push((key, value)),
{
    lemma_rank_at(entries, key, entries.len() as int);
    lemma_before_irreflexive(key);
    assert(entries.insert(entries.len() as int, (key, value)) =~= entries.push((key, value)));
}

/// Whether `a` stands before `b` when texts are ordered character by character.
fn text_before(a: &str, b: &str) -> (r: bool)
    ensures
        r == before(a@, b@),
{
    let x = chars_of(a);
    let y = chars_of(b);
    let mut i: usize = 0;
    assert(x@.skip(0) =~= x@);
    assert(y@.skip(0) =~= y@);
    while i < x.len() && i < y.len() && x[i] == y[i]
        invariant
            i <= x@.len(),
            i <= y@.len(),
            x@ == a@,
            y@ == b@,
            before(x@.skip(i as int), y@.skip(i as int)) == before(a@, b@),
        decreases x.len() - i,
    {
        assert(x@.skip(i as int).drop_first() =~= x@.skip(i + 1));
        assert(y@.skip(i as int).drop_first() =~= y@.skip(i + 1));
        i += 1;
    }
    if i == y.len() {
        false
    } else if i == x.len() {
        true
    } else {
        x[i] < y[i]
    }
}

/// A map from strings to values in ascending order of the keys.
#[derive(Debug)]
pub struct StringMap<V> {
    entries: Vec<(String, V)>,
}

/// The view of the entries that a map is made of.
pub open spec fn entries_view<V: DeepView>(entries: Seq<(String, V)>) -> Seq<(Seq<char>, V::V)> {
    Seq::new(entries.len(), |i: int| (entries[i].0@, entries[i].1.deep_view()))
}

impl<V: DeepView> View for StringMap<V> {
    type V = Seq<(Seq<char>, V::V)>;

    closed spec fn view(&self) -> Seq<(Seq<char>, V::V)> {
        entries_view(self.entries@)
    }
}

impl<V: DeepView> DeepView for StringMap<V> {
    type V = Seq<(Seq<char>, V::V)>;

    open spec fn deep_view(&self) -> Seq<(Seq<char>, V::V)> {
        self.view()
    }
}

impl<V> StringMap<V> {
    #[verifier::type_invariant]
    spec fn keys_ascend(self) -> bool {
        forall|i: int, j: int|
            0 <= i < j < self.entries@.len() ==> before(
                #[trigger] self.entries@[i].0@,
                #[trigger] self.entries@[j].0@,
            )
    }
}

impl<V: DeepView> StringMap<V> {
    /// The map without entries.
    pub fn new() -> (r: Self)
        ensures
            r@ == Seq::<(Seq<char>, V::V)>::empty(),
    {
        let r = StringMap { entries: Vec::new() };
        assert(r@ =~= Seq::<(Seq<char>, V::V)>::empty());
        r
    }

    /// The number of entries.
    pub fn len(&self) -> (n: usize)
        ensures
            n == self@.len(),
            sorted(self@),
    {
        proof {
            use_type_invariant(self);
        }
        self.entries.len()
    }

    /// The `i`th key in ascending order.
    pub fn key(&self, i: usize) -> (r: &String)
        requires
            i < self@.len(),
        ensures
            r@ == self@[i as int].0,
    {
        &self.entries[i].0
    }

    /// The value under the `i`th key.
    pub fn value(&self, i: usize) -> (r: &V)
        requires
            i < self@.len(),
        ensures
            r.deep_view() == self@[i as int].1,
    {
        &self.entries[i].1
    }

    /// The keys with their values, in ascending order.
    pub fn into_entries(self) -> (r: Vec<(String, V)>)
        ensures
            entries_view(r@) == self@,
            sorted(self@),
    {
        proof {
            use_type_invariant(&self);
        }
        self.entries
    }

    /// Where `key` stands, or else where it would be inserted.
    fn search(entries: &Vec<(String, V)>, key: &str) -> (r: (usize, bool))
        requires
            sorted(entries_view(entries@)),
        ensures
            r.0 <= entries@.len(),
            r.1 == has_key(entries_view(entries@), key@),
            r.1 ==> r.0 < entries@.len() && r.0 == key_index(entries_view(entries@), key@),
            !r.1 ==> r.0 == rank(entries_view(entries@), key@),
    {
        let ghost e = entries_view(entries@);
        let mut lo: usize = 0;
        let mut hi: usize = entries.len();
        while lo < hi
            invariant
                lo <= hi <= entries@.len(),
                e == entries_view(entries@),
                sorted(e),
                forall|i: int| 0 <= i < lo ==> before((#[trigger] e[i]).0, key@),
                forall|i: int| hi <= i < e.len() ==> !before((#[trigger] e[i]).0, key@),
            decreases hi - lo,
        {
            let mid: usize = lo + (hi - lo) / 2;
            if text_before(entries[mid].0.as_str(), key) {
                proof {
                    assert forall|i: int| 0 <= i < mid + 1 implies before(
                        (#[trigger] e[i]).0,
                        key@,
                    ) by {
                        if i < mid {
                            lemma_before_transitive(e[i].0, e[mid as int].0, key@);
                        }
                    }
                }
                lo = mid + 1;
            } else {
                proof {
                    assert forall|i: int| mid <= i < e.len() implies !before(
                        (#[trigger] e[i]).0,
                        key@,
                    ) by {
                        if i > mid && before(e[i].0, key@) {
                            lemma_before_transitive(e[mid as int].0, e[i].0, key@);
                        }
                    }
                }
                hi = mid;
            }
        }
        proof {
            lemma_rank_at(e, key@, lo as int);
        }
        if lo < entries.len() && !text_before(key, entries[lo].0.as_str()) {
            proof {
                lemma_before_total(e[lo as int].0, key@);
                lemma_lookup_at(e, lo as int);
            }
            (lo, true)
        } else {
            proof {
                if has_key(e, key@) {
                    let k = key_index(e, key@);
                    lemma_before_irreflexive(key@);
                    if k < lo {
                        assert(before(e[k].0, key@));
                    } else if k > lo {
                        assert(before(e[lo as int].0, e[k].0));
                    }
                    assert(false);
                }
            }
            (lo, false)
        }
    }

    /// The value stored under `key`.
    pub fn get(&self, key: &str) -> (r: Option<&V>)
        ensures
            r is Some <==> has_key(self@, key@),
            r matches Some(v) ==> lookup(self@, key@) == Some(v.deep_view()),
            r is None ==> lookup(self@, key@) is None,
            sorted(self@),
    {
        proof {
            use_type_invariant(self);
        }
        let (i, found) = Self::search(&self.entries, key);
        if found {
            Some(&self.entries[i].1)
        } else {
            None
        }
    }

    /// Where `key` stands among the keys.
    pub fn index_of(&self, key: &str) -> (r: Option<usize>)
        ensures
            r is Some <==> has_key(self@, key@),
            r matches Some(i) ==> i < self@.len() && i == key_index(self@, key@)
                && self@[i as int].0 == key@,
            sorted(self@),
    {
        proof {
            use_type_invariant(self);
        }
        let (i, found) = Self::search(&self.entries, key);
        if found {
            Some(i)
        } else {
            None
        }
    }

    /// Whether something is stored under `key`.
    pub fn contains_key(&self, key: &str) -> (r: bool)
        ensures
            r == has_key(self@, key@),
    {
        self.index_of(key).is_some()
    }

    /// Stores `value` under `key`, in place of what was stored there.
    pub fn insert(&mut self, key: String, value: V)
        ensures
            final(self)@ == put(old(self)@, key@, value.deep_view()),
            sorted(final(self)@),
    {
        proof {
            use_type_invariant(&*self);
        }
        let mut entries: Vec<(String, V)> = Vec::new();
        std::mem::swap(&mut entries, &mut self.entries);
        let ghost e = entries_view(entries@);
        let ghost v = value.deep_view();
        proof {
            lemma_put_sorted(e, key@, v);
            lemma_rank_bounds(e, key@);
        }
        let (i, found) = Self::search(&entries, key.as_str());
        if found {
            let ghost k = key@;
            entries[i] = (key, value);
            assert(entries_view(entries@) =~= put(e, k, v));
        } else {
            let ghost k = key@;
            entries.insert(i, (key, value));
            assert(entries_view(entries@) =~= put(e, k, v));
        }
        proof {
            assert forall|i: int, j: int| 0 <= i < j < entries@.len() implies before(
                #[trigger] entries@[i].0@,
                #[trigger] entries@[j].0@,
            ) by {
                let after = entries_view(entries@);
                assert(before(after[i].0, after[j].0));
            }
        }
        self.entries = entries;
    }
}

/// Of two texts the one that starts the other comes first; otherwise the first characters
/// in which they differ decide.
pub proof fn law_order(start: Seq<char>, a: Seq<char>, b: Seq<char>)
    ensures
        b.len() > 0 ==> before(start, start + b),
        !before(start + a, start),
        a.len() > 0 && b.len() > 0 && a[0] != b[0] ==> (before(start + a, start + b) <==> a[0]
            < b[0]),
    decreases start.len(),
{
    if start.len() == 0 {
        assert(start + a =~= a);
        assert(start + b =~= b);
    } else {
        law_order(start.drop_first(), a, b);
        assert((start + a).drop_first() =~= start.drop_first() + a);
        assert((start + b).drop_first() =~= start.drop_first() + b);
    }
}

} // verus!
