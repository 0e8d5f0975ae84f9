//! The in-memory index: an ordered map from byte-string keys, with a walk
//! over it by prefix and direction.

use vstd::prelude::*;
use vstd::slice::slice_to_vec;

use crate::log_record::LogRecordPos;
use crate::option::IteratorOptions;

verus! {

/// Lexicographic order on byte strings: the order in which the index keeps
/// and lists its keys.
pub open spec fn lex_lt(a: Seq<u8>, b: Seq<u8>) -> bool
    decreases a.len(),
{
    if a.len() == 0 {
        b.len() > 0
    } else if b.len() == 0 {
        false
    } else if a[0] != b[0] {
        a[0] < b[0]
    } else {
        lex_lt(a.drop_first(), b.drop_first())
    }
}

/// Each key comes strictly before the next.
pub open spec fn strictly_sorted(ks: Seq<Seq<u8>>) -> bool {
    forall|i: int, j: int| 0 <= i < j < ks.len() ==> lex_lt(#[trigger] ks[i], #[trigger] ks[j])
}

pub proof fn lemma_lex_irreflexive(a: Seq<u8>)
    ensures
        !lex_lt(a, a),
    decreases a.len(),
{
    if a.len() > 0 {
        lemma_lex_irreflexive(a.drop_first());
    }
}

pub proof fn lemma_lex_total(a: Seq<u8>, b: Seq<u8>)
    ensures
        a == b || lex_lt(a, b) || lex_lt(b, a),
    decreases a.len(),
{
    if a.len() == 0 {
        if b.len() == 0 {
            assert(a =~= b);
        }
    } else if b.len() > 0 && a[0] == b[0] {
        lemma_lex_total(a.drop_first(), b.drop_first());
        if a.drop_first() == b.drop_first() {
            assert(a.drop_first().len() == b.drop_first().len());
            assert forall|i: int| 0 <= i < a.len() implies a[i] == b[i] by {
                if i > 0 {
                    assert(a[i] == a.drop_first()[i - 1]);
                    assert(b[i] == b.drop_first()[i - 1]);
                }
            }
            assert(a =~= b);
        }
    }
}

pub proof fn lemma_lex_asymmetric(a: Seq<u8>, b: Seq<u8>)
    ensures
        !(lex_lt(a, b) && lex_lt(b, a)),
    decreases a.len(),
{
    if a.len() > 0 && b.len() > 0 && a[0] == b[0] {
        lemma_lex_asymmetric(a.drop_first(), b.drop_first());
    }
}

pub proof fn lemma_lex_transitive(a: Seq<u8>, b: Seq<u8>, c: Seq<u8>)
    requires
        lex_lt(a, b),
        lex_lt(b, c),
    ensures
        lex_lt(a, c),
    decreases a.len(),
{
    if a.len() > 0 && b.len() > 0 && c.len() > 0 && a[0] == b[0] && b[0] == c[0] {
        lemma_lex_transitive(a.drop_first(), b.drop_first(), c.drop_first());
    }
}

proof fn lemma_lex_step(a: Seq<u8>, b: Seq<u8>, i: int)
    requires
        0 <= i < a.len(),
        i < b.len(),
        a[i] == b[i],
    ensures
        lex_lt(a.skip(i), b.skip(i)) == lex_lt(a.skip(i + 1), b.skip(i + 1)),
{
    assert(a.skip(i).drop_first() =~= a.skip(i + 1));
    assert(b.skip(i).drop_first() =~= b.skip(i + 1));
}

/// Compares two byte strings: negative, zero or positive as `a` comes before,
/// equals or comes after `b`.
pub fn compare_keys(a: &[u8], b: &[u8]) -> (r: i8)
    ensures
        (r < 0) == lex_lt(a@, b@),
        (r == 0) == (a@ == b@),
        (r > 0) == lex_lt(b@, a@),
{
    let mut i: usize = 0;
    assert(a@.skip(0) =~= a@);
    assert(b@.skip(0) =~= b@);
    while i < a.len() && i < b.len()
        invariant
            0 <= i <= a@.len(),
            i <= b@.len(),
            a@.subrange(0, i as int) == b@.subrange(0, i as int),
            lex_lt(a@, b@) == lex_lt(a@.skip(i as int), b@.skip(i as int)),
            lex_lt(b@, a@) == lex_lt(b@.skip(i as int), a@.skip(i as int)),
        decreases a@.len() - i,
    {
        if a[i] != b[i] {
            proof {
                assert(a@.skip(i as int)[0] == a@[i as int]);
                assert(b@.skip(i as int)[0] == b@[i as int]);
                assert(a@[i as int] != b@[i as int]);
            }
            if a[i] < b[i] {
                return -1;
            } else {
                return 1;
            }
        }
        proof {
            lemma_lex_step(a@, b@, i as int);
            lemma_lex_step(b@, a@, i as int);
            assert(a@.subrange(0, i + 1) =~= a@.subrange(0, i as int).push(a@[i as int]));
            assert(b@.subrange(0, i + 1) =~= b@.subrange(0, i as int).push(b@[i as int]));
        }
        i = i + 1;
    }
    if a.len() == b.len() {
        assert(a@ =~= a@.subrange(0, i as int));
        assert(b@ =~= b@.subrange(0, i as int));
        proof {
            lemma_lex_irreflexive(a@);
        }
        0
    } else if a.len() < b.len() {
        -1
    } else {
        1
    }
}

/// The byte strings held in a vector of keys.
pub open spec fn keys_of(v: Seq<Vec<u8>>) -> Seq<Seq<u8>> {
    v.map_values(|k: Vec<u8>| k@)
}

/// A map from byte strings, kept in key order.
pub struct SortedMap<V> {
    entries: Vec<(Vec<u8>, V)>,
    map: Ghost<Map<Seq<u8>, V>>,
}

impl<V> View for SortedMap<V> {
    type V = Map<Seq<u8>, V>;

    closed spec fn view(&self) -> Map<Seq<u8>, V> {
        self.map@
    }
}

impl<V> SortedMap<V> {
    /// The keys in the order they are kept.
    pub closed spec fn key_seq(&self) -> Seq<Seq<u8>> {
        self.entries@.map_values(|e: (Vec<u8>, V)| e.0@)
    }

    /// The keys are strictly increasing and the entries agree with the map.
    pub closed spec fn wf(&self) -> bool {
        &&& strictly_sorted(self.key_seq())
        &&& forall|i: int|
            0 <= i < self.entries@.len() ==> {
                &&& self.map@.contains_key(#[trigger] self.entries@[i].0@)
                &&& self.map@[self.entries@[i].0@] == self.entries@[i].1
            }
        &&& forall|k: Seq<u8>| #[trigger] self.map@.contains_key(k) ==> self.key_seq().contains(k)
    }

    /// An empty index.
    pub fn new() -> (r: Self)
        ensures
            r.wf(),
            r@ == Map::<Seq<u8>, V>::empty(),
    {
        let r = SortedMap { entries: Vec::new(), map: Ghost(Map::empty()) };
        assert(r.key_seq() =~= Seq::<Seq<u8>>::empty());
        r
    }

    /// Where `key` stands, or where it would be inserted.
    fn find(&self, key: &[u8]) -> (r: core::result::Result<usize, usize>)
        requires
            self.wf(),
        ensures
            r is Ok ==> r->Ok_0 < self.entries@.len() && self.entries@[r->Ok_0 as int].0@ == key@,
            r is Err ==> {
                &&& r->Err_0 <= self.entries@.len()
                &&& forall|j: int| 0 <= j < r->Err_0 ==> lex_lt(#[trigger] self.key_seq()[j], key@)
                &&& forall|j: int|
                    r->Err_0 <= j < self.entries@.len() ==> lex_lt(key@, #[trigger] self.key_seq()[j])
            },
    {
        let mut lo: usize = 0;
        let mut hi: usize = self.entries.len();
        while lo < hi
            invariant
                self.wf(),
                0 <= lo <= hi <= self.entries@.len(),
                forall|j: int| 0 <= j < lo ==> lex_lt(#[trigger] self.key_seq()[j], key@),
                forall|j: int| hi <= j < self.entries@.len() ==> lex_lt(key@, #[trigger] self.key_seq()[j]),
            decreases hi - lo,
        {
            let mid = lo + (hi - lo) / 2;
            let c = compare_keys(self.entries[mid].0.as_slice(), key);
            assert(self.key_seq()[mid as int] == self.entries@[mid as int].0@);
            if c == 0 {
                return Ok(mid);
            } else if c < 0 {
                assert forall|j: int| 0 <= j < mid + 1 implies lex_lt(#[trigger] self.key_seq()[j], key@) by {
                    if j < mid {
                        lemma_lex_transitive(self.key_seq()[j], self.key_seq()[mid as int], key@);
                    }
                }
                lo = mid + 1;
            } else {
                assert forall|j: int| mid <= j < self.entries@.len() implies lex_lt(key@, #[trigger] self.key_seq()[j]) by {
                    if j > mid {
                        lemma_lex_transitive(key@, self.key_seq()[mid as int], self.key_seq()[j]);
                    }
                }
                hi = mid;
            }
        }
        Err(lo)
    }

    /// The value recorded for `key`.
    pub fn get(&self, key: &[u8]) -> (r: Option<&V>)
        requires
            self.wf(),
        ensures
            r is Some <==> self@.contains_key(key@),
            r is Some ==> *r->Some_0 == self@[key@],
    {
        match self.find(key) {
            Ok(i) => Some(&self.entries[i].1),
            Err(i) => {
                proof {
                    if self@.contains_key(key@) {
                        let j = choose|j: int| 0 <= j < self.key_seq().len() && self.key_seq()[j] == key@;
                        lemma_lex_irreflexive(key@);
                        if j < i {
                            assert(lex_lt(self.key_seq()[j], key@));
                        } else {
                            assert(lex_lt(key@, self.key_seq()[j]));
                        }
                    }
                }
                None
            },
        }
    }

    /// The key kept at place `i`.
    pub fn key_at(&self, i: usize) -> (r: &Vec<u8>)
        requires
            self.wf(),
            i < self.key_seq().len(),
        ensures
            r@ == self.key_seq()[i as int],
    {
        &self.entries[i].0
    }

    /// The value of the key kept at place `i`.
    pub fn value_at(&self, i: usize) -> (r: &V)
        requires
            self.wf(),
            i < self.key_seq().len(),
        ensures
            *r == self@[self.key_seq()[i as int]],
    {
        &self.entries[i].1
    }

    /// The keys are kept in strictly increasing order, one place per key.
    pub proof fn lemma_key_seq(&self)
        requires
            self.wf(),
        ensures
            strictly_sorted(self.key_seq()),
            self.key_seq().len() == self@.len(),
            forall|k: Seq<u8>| self@.contains_key(k) <==> #[trigger] self.key_seq().contains(k),
    {
        self.lemma_len();
        assert forall|k: Seq<u8>| self@.contains_key(k) <==> #[trigger] self.key_seq().contains(k) by {
            if self.key_seq().contains(k) {
                let j = choose|j: int| 0 <= j < self.key_seq().len() && self.key_seq()[j] == k;
                assert(self.entries@[j].0@ == k);
            }
        }
    }

    /// Removes every key.
    pub fn clear(&mut self)
        ensures
            final(self).wf(),
            final(self)@ == Map::<Seq<u8>, V>::empty(),
    {
        self.entries.clear();
        self.map = Ghost(Map::empty());
        assert(self.key_seq() =~= Seq::<Seq<u8>>::empty());
    }

    proof fn lemma_absent(&self, i: int, key: Seq<u8>)
        requires
            self.wf(),
            0 <= i <= self.entries@.len(),
            forall|j: int| 0 <= j < i ==> lex_lt(#[trigger] self.key_seq()[j], key),
            forall|j: int| i <= j < self.entries@.len() ==> lex_lt(key, #[trigger] self.key_seq()[j]),
        ensures
            !self@.contains_key(key),
    {
        if self@.contains_key(key) {
            let j = choose|j: int| 0 <= j < self.key_seq().len() && self.key_seq()[j] == key;
            lemma_lex_irreflexive(key);
            if j < i {
                assert(lex_lt(self.key_seq()[j], key));
            } else {
                assert(lex_lt(key, self.key_seq()[j]));
            }
        }
    }

    /// Records `pos` for `key`, handing back the value it replaces.
    pub fn put(&mut self, key: Vec<u8>, pos: V) -> (r: Option<V>)
        requires
            old(self).wf(),
        ensures
            final(self).wf(),
            final(self)@ == old(self)@.insert(key@, pos),
            r == (if old(self)@.contains_key(key@) {
                Some(old(self)@[key@])
            } else {
                None::<V>
            }),
    {
        let ghost k = key@;
        let ghost old_ks = self.key_seq();
        match self.find(key.as_slice()) {
            Ok(i) => {
                assert(self.key_seq()[i as int] == k);
                let ghost prev_v = self.entries@[i as int].1;
                let mut slot = (key, pos);
                self.entries.set_and_swap(i, &mut slot);
                let prev = slot.1;
                assert(prev == prev_v);
                self.map = Ghost(self.map@.insert(k, pos));
                proof {
                    assert(self.key_seq() =~= old_ks);
                    assert forall|j: int| 0 <= j < self.entries@.len() implies {
                        &&& self.map@.contains_key(#[trigger] self.entries@[j].0@)
                        &&& self.map@[self.entries@[j].0@] == self.entries@[j].1
                    } by {
                        assert(self.key_seq()[j] == self.entries@[j].0@);
                        if j != i {
                            lemma_lex_irreflexive(k);
                            if j < i {
                                assert(lex_lt(old_ks[j], old_ks[i as int]));
                            } else {
                                assert(lex_lt(old_ks[i as int], old_ks[j]));
                            }
                        }
                    }
                }
                Some(prev)
            },
            Err(i) => {
                proof {
                    self.lemma_absent(i as int, k);
                }
                self.entries.insert(i, (key, pos));
                self.map = Ghost(self.map@.insert(k, pos));
                proof {
                    let ks = self.key_seq();
                    assert(ks =~= old_ks.insert(i as int, k));
                    assert forall|a: int, b: int| 0 <= a < b < ks.len() implies lex_lt(
                        #[trigger] ks[a],
                        #[trigger] ks[b],
                    ) by {
                        if b < i {
                        } else if b == i {
                        } else if a < i {
                            lemma_lex_transitive(old_ks[a], k, old_ks[b - 1]);
                        } else if a == i {
                        } else {
                        }
                    }
                    assert forall|j: int| 0 <= j < self.entries@.len() implies {
                        &&& self.map@.contains_key(#[trigger] self.entries@[j].0@)
                        &&& self.map@[self.entries@[j].0@] == self.entries@[j].1
                    } by {
                        assert(ks[j] == self.entries@[j].0@);
                        if j != i {
                            lemma_lex_irreflexive(k);
                            if j < i {
                                assert(lex_lt(ks[j], k));
                            } else {
                                assert(lex_lt(k, ks[j]));
                            }
                        }
                    }
                    assert forall|k2: Seq<u8>| #[trigger] self.map@.contains_key(k2) implies ks.contains(k2) by {
                        if k2 != k {
                            let j = choose|j: int| 0 <= j < old_ks.len() && old_ks[j] == k2;
                            if j < i {
                                assert(ks[j] == k2);
                            } else {
                                assert(ks[j + 1] == k2);
                            }
                        } else {
                            assert(ks[i as int] == k2);
                        }
                    }
                }
                None
            },
        }
    }

    /// Removes `key`, handing back the value it had.
    pub fn delete(&mut self, key: &[u8]) -> (r: Option<V>)
        requires
            old(self).wf(),
        ensures
            final(self).wf(),
            final(self)@ == old(self)@.remove(key@),
            r == (if old(self)@.contains_key(key@) {
                Some(old(self)@[key@])
            } else {
                None::<V>
            }),
    {
        let ghost k = key@;
        let ghost old_ks = self.key_seq();
        match self.find(key) {
            Ok(i) => {
                assert(old_ks[i as int] == k);
                let (_, prev) = self.entries.remove(i);
                self.map = Ghost(self.map@.remove(k));
                proof {
                    let ks = self.key_seq();
                    assert(ks =~= old_ks.remove(i as int));
                    assert forall|a: int, b: int| 0 <= a < b < ks.len() implies lex_lt(
                        #[trigger] ks[a],
                        #[trigger] ks[b],
                    ) by {
                        if a < i && b >= i {
                            assert(ks[b] == old_ks[b + 1]);
                        } else if a >= i {
                            assert(ks[a] == old_ks[a + 1]);
                            assert(ks[b] == old_ks[b + 1]);
                        }
                    }
                    assert forall|j: int| 0 <= j < self.entries@.len() implies {
                        &&& self.map@.contains_key(#[trigger] self.entries@[j].0@)
                        &&& self.map@[self.entries@[j].0@] == self.entries@[j].1
                    } by {
                        assert(ks[j] == self.entries@[j].0@);
                        lemma_lex_irreflexive(k);
                        if j < i {
                            assert(lex_lt(old_ks[j], k));
                        } else {
                            assert(old_ks[j + 1] == ks[j]);
                            assert(lex_lt(k, old_ks[j + 1]));
                        }
                    }
                    assert forall|k2: Seq<u8>| #[trigger] self.map@.contains_key(k2) implies ks.contains(k2) by {
                        let j = choose|j: int| 0 <= j < old_ks.len() && old_ks[j] == k2;
                        if j < i {
                            assert(ks[j] == k2);
                        } else {
                            assert(ks[j - 1] == k2);
                        }
                    }
                }
                Some(prev)
            },
            Err(i) => {
                proof {
                    self.lemma_absent(i as int, k);
                    assert(self.map@.remove(k) =~= self.map@);
                }
                None
            },
        }
    }

    /// The number of keys in the index.
    pub fn len(&self) -> (r: usize)
        requires
            self.wf(),
        ensures
            r == self@.len(),
    {
        proof {
            self.lemma_len();
        }
        self.entries.len()
    }

    proof fn lemma_len(&self)
        requires
            self.wf(),
        ensures
            self@.dom().len() == self.entries@.len(),
    {
        let ks = self.key_seq();
        assert(ks.no_duplicates()) by {
            assert forall|a: int, b: int| 0 <= a < ks.len() && 0 <= b < ks.len() && a != b implies ks[a] != ks[b] by {
                lemma_lex_irreflexive(ks[a]);
                if a < b {
                    assert(lex_lt(ks[a], ks[b]));
                } else {
                    assert(lex_lt(ks[b], ks[a]));
                }
            }
        }
        assert(self@.dom() =~= ks.to_set()) by {
            assert forall|k: Seq<u8>| self@.dom().contains(k) implies ks.to_set().contains(k) by {
                assert(self.map@.contains_key(k));
            }
            assert forall|k: Seq<u8>| ks.to_set().contains(k) implies self@.dom().contains(k) by {
                let j = choose|j: int| 0 <= j < ks.len() && ks[j] == k;
                assert(self.entries@[j].0@ == ks[j]);
            }
        }
        ks.unique_seq_to_set();
    }

    /// All keys, in order.
    pub fn list_keys(&self) -> (r: Vec<Vec<u8>>)
        requires
            self.wf(),
        ensures
            strictly_sorted(keys_of(r@)),
            forall|k: Seq<u8>| self@.contains_key(k) <==> #[trigger] keys_of(r@).contains(k),
            r@.len() == self@.len(),
    {
        let mut out: Vec<Vec<u8>> = Vec::new();
        let mut i: usize = 0;
        while i < self.entries.len()
            invariant
                self.wf(),
                i <= self.entries@.len(),
                keys_of(out@) == self.key_seq().subrange(0, i as int),
            decreases self.entries@.len() - i,
        {
            let k = slice_to_vec(self.entries[i].0.as_slice());
            assert(k@ == self.key_seq()[i as int]);
            let ghost before = out@;
            out.push(k);
            proof {
                assert(out@ == before.push(k));
                assert(keys_of(out@) =~= keys_of(before).push(k@));
                assert(keys_of(out@) =~= self.key_seq().subrange(0, i + 1));
            }
            i = i + 1;
        }
        proof {
            assert(keys_of(out@) =~= self.key_seq());
            self.lemma_len();
            assert forall|k: Seq<u8>| self@.contains_key(k) <==> #[trigger] keys_of(out@).contains(k) by {
                if keys_of(out@).contains(k) {
                    let j = choose|j: int| 0 <= j < keys_of(out@).len() && keys_of(out@)[j] == k;
                    assert(self.entries@[j].0@ == k);
                }
            }
        }
        out
    }
}

/// The in-memory index: each live key with the position of its latest record.
pub type SortedIndex = SortedMap<LogRecordPos>;

/// `key` starts with `prefix`.
pub open spec fn has_prefix(key: Seq<u8>, prefix: Seq<u8>) -> bool {
    prefix.len() <= key.len() && key.subrange(0, prefix.len() as int) == prefix
}

/// In a walk in the given direction, `a` comes before `b`.
pub open spec fn walks_before(a: Seq<u8>, b: Seq<u8>, reverse: bool) -> bool {
    if reverse {
        lex_lt(b, a)
    } else {
        lex_lt(a, b)
    }
}

/// Walks the keys of an index, with their positions, in key order or in
/// reverse, keeping to the keys that start with a prefix.
pub trait IndexIterator {
    /// The entries walked, in walking order.
    spec fn items(&self) -> Seq<(Seq<u8>, LogRecordPos)>;

    /// How many entries are behind the walk.
    spec fn cursor(&self) -> int;

    spec fn prefix(&self) -> Seq<u8>;

    spec fn reverse(&self) -> bool;

    /// Goes back to the first entry.
    fn rewind(&mut self)
        ensures
            final(self).items() == old(self).items(),
            final(self).prefix() == old(self).prefix(),
            final(self).reverse() == old(self).reverse(),
            final(self).cursor() == 0,
    ;

    /// Goes to the first entry that does not come before `key`.
    fn seek(&mut self, key: Vec<u8>)
        ensures
            final(self).items() == old(self).items(),
            final(self).prefix() == old(self).prefix(),
            final(self).reverse() == old(self).reverse(),
            0 <= final(self).cursor() <= final(self).items().len(),
            forall|j: int|
                0 <= j < final(self).cursor() ==> walks_before(
                    #[trigger] final(self).items()[j].0,
                    key@,
                    final(self).reverse(),
                ),
            forall|j: int|
                final(self).cursor() <= j < final(self).items().len() ==> !walks_before(
                    #[trigger] final(self).items()[j].0,
                    key@,
                    final(self).reverse(),
                ),
    ;

    /// The next entry whose key starts with the prefix, if any, and moves
    /// past it.
    fn next(&mut self) -> (r: Option<(Vec<u8>, LogRecordPos)>)
        ensures
            final(self).items() == old(self).items(),
            final(self).prefix() == old(self).prefix(),
            final(self).reverse() == old(self).reverse(),
            r is None ==> final(self).cursor() >= final(self).items().len() && forall|j: int|
                old(self).cursor() <= j < old(self).items().len() ==> !has_prefix(
                    #[trigger] old(self).items()[j].0,
                    old(self).prefix(),
                ),
            r is Some ==> {
                let j = final(self).cursor() - 1;
                &&& old(self).cursor() <= j < old(self).items().len()
                &&& r->Some_0.0@ == old(self).items()[j].0
                &&& r->Some_0.1 == old(self).items()[j].1
                &&& has_prefix(old(self).items()[j].0, old(self).prefix())
                &&& forall|i: int|
                    old(self).cursor() <= i < j ==> !has_prefix(
                        #[trigger] old(self).items()[i].0,
                        old(self).prefix(),
                    )
            },
    ;
}

/// A walk over a copy of a sorted index's entries.
pub struct SortedIndexIterator {
    items: Vec<(Vec<u8>, LogRecordPos)>,
    curr_index: usize,
    prefix: Vec<u8>,
    reverse: bool,
}

impl SortedIndexIterator {
    pub closed spec fn entries(&self) -> Seq<(Seq<u8>, LogRecordPos)> {
        self.items@.map_values(|e: (Vec<u8>, LogRecordPos)| (e.0@, e.1))
    }

    #[verifier::type_invariant]
    closed spec fn wf(&self) -> bool {
        &&& self.curr_index <= self.items@.len()
        &&& forall|i: int, j: int|
            0 <= i < j < self.items@.len() ==> walks_before(
                #[trigger] self.items@[i].0@,
                #[trigger] self.items@[j].0@,
                self.reverse,
            )
    }
}

fn starts_with(key: &[u8], prefix: &[u8]) -> (r: bool)
    ensures
        r == has_prefix(key@, prefix@),
{
    if prefix.len() > key.len() {
        return false;
    }
    let mut i: usize = 0;
    while i < prefix.len()
        invariant
            prefix@.len() <= key@.len(),
            i <= prefix@.len(),
            forall|j: int| 0 <= j < i ==> key@[j] == prefix@[j],
        decreases prefix@.len() - i,
    {
        if key[i] != prefix[i] {
            assert(key@.subrange(0, prefix@.len() as int)[i as int] != prefix@[i as int]);
            return false;
        }
        i = i + 1;
    }
    assert(key@.subrange(0, prefix@.len() as int) =~= prefix@);
    true
}

impl IndexIterator for SortedIndexIterator {
    closed spec fn items(&self) -> Seq<(Seq<u8>, LogRecordPos)> {
        self.entries()
    }

    closed spec fn cursor(&self) -> int {
        self.curr_index as int
    }

    closed spec fn prefix(&self) -> Seq<u8> {
        self.prefix@
    }

    closed spec fn reverse(&self) -> bool {
        self.reverse
    }

    fn rewind(&mut self) {
        proof {
            use_type_invariant(&*self);
        }
        self.curr_index = 0;
    }

    fn seek(&mut self, key: Vec<u8>) {
        proof {
            use_type_invariant(&*self);
        }
        let mut lo: usize = 0;
        let mut hi: usize = self.items.len();
        while lo < hi
            invariant
                0 <= lo <= hi <= self.items@.len(),
                self.items == old(self).items,
                self.prefix == old(self).prefix,
                self.reverse == old(self).reverse,
                self.curr_index == old(self).curr_index,
                forall|i: int, j: int|
                    0 <= i < j < self.items@.len() ==> walks_before(
                        #[trigger] self.items@[i].0@,
                        #[trigger] self.items@[j].0@,
                        self.reverse,
                    ),
                forall|j: int| 0 <= j < lo ==> walks_before(#[trigger] self.items@[j].0@, key@, self.reverse),
                forall|j: int|
                    hi <= j < self.items@.len() ==> !walks_before(
                        #[trigger] self.items@[j].0@,
                        key@,
                        self.reverse,
                    ),
            decreases hi - lo,
        {
            let mid = lo + (hi - lo) / 2;
            let c = compare_keys(self.items[mid].0.as_slice(), key.as_slice());
            let before = if self.reverse {
                c > 0
            } else {
                c < 0
            };
            let ghost m = self.items@[mid as int].0@;
            if before {
                assert forall|j: int| 0 <= j < mid + 1 implies walks_before(
                    #[trigger] self.items@[j].0@,
                    key@,
                    self.reverse,
                ) by {
                    if j < mid {
                        let a = self.items@[j].0@;
                        if self.reverse {
                            lemma_lex_transitive(key@, m, a);
                        } else {
                            lemma_lex_transitive(a, m, key@);
                        }
                    }
                }
                lo = mid + 1;
            } else {
                assert forall|j: int| mid <= j < self.items@.len() implies !walks_before(
                    #[trigger] self.items@[j].0@,
                    key@,
                    self.reverse,
                ) by {
                    if j > mid {
                        let b = self.items@[j].0@;
                        if walks_before(b, key@, self.reverse) {
                            if self.reverse {
                                lemma_lex_transitive(key@, b, m);
                            } else {
                                lemma_lex_transitive(m, b, key@);
                            }
                        }
                    }
                }
                hi = mid;
            }
        }
        self.curr_index = lo;
    }

    fn next(&mut self) -> (r: Option<(Vec<u8>, LogRecordPos)>) {
        proof {
            use_type_invariant(&*self);
        }
        let ghost start = self.curr_index as int;
        while self.curr_index < self.items.len()
            invariant
                start <= self.curr_index <= self.items@.len(),
                self.items == old(self).items,
                self.prefix == old(self).prefix,
                self.reverse == old(self).reverse,
                start == old(self).curr_index,
                self.wf(),
                forall|i: int|
                    start <= i < self.curr_index ==> !has_prefix(
                        #[trigger] self.items@[i].0@,
                        self.prefix@,
                    ),
            decreases self.items@.len() - self.curr_index,
        {
            let i = self.curr_index;
            self.curr_index = i + 1;
            if starts_with(self.items[i].0.as_slice(), self.prefix.as_slice()) {
                let key = slice_to_vec(self.items[i].0.as_slice());
                return Some((key, self.items[i].1));
            }
        }
        None
    }
}

impl SortedMap<LogRecordPos> {
    /// A walk over the entries as they stand now, in key order or in reverse,
    /// keeping to the keys that start with `options.prefix`.
    pub fn iterator(&self, options: IteratorOptions) -> (r: SortedIndexIterator)
        requires
            self.wf(),
        ensures
            r.items().len() == self.key_seq().len(),
            forall|i: int|
                0 <= i < self.key_seq().len() ==> {
                    let k = if options.reverse {
                        self.key_seq()[self.key_seq().len() - 1 - i]
                    } else {
                        self.key_seq()[i]
                    };
                    &&& (#[trigger] r.items()[i]).0 == k
                    &&& r.items()[i].1 == self@[k]
                },
            r.cursor() == 0,
            r.prefix() == options.prefix@,
            r.reverse() == options.reverse,
    {
        let n = self.entries.len();
        let mut items: Vec<(Vec<u8>, LogRecordPos)> = Vec::new();
        let mut i: usize = 0;
        while i < n
            invariant
                self.wf(),
                n == self.entries@.len(),
                i <= n,
                items@.len() == i,
                forall|j: int|
                    0 <= j < i ==> {
                        let src = if options.reverse {
                            n - 1 - j
                        } else {
                            j
                        };
                        &&& (#[trigger] items@[j]).0@ == self.key_seq()[src]
                        &&& items@[j].1 == self.entries@[src].1
                    },
            decreases n - i,
        {
            let src = if options.reverse {
                n - 1 - i
            } else {
                i
            };
            let k = slice_to_vec(self.entries[src].0.as_slice());
            items.push((k, self.entries[src].1));
            i = i + 1;
        }
        proof {
            assert forall|a: int, b: int| 0 <= a < b < items@.len() implies walks_before(
                #[trigger] items@[a].0@,
                #[trigger] items@[b].0@,
                options.reverse,
            ) by {
                if options.reverse {
                    assert(lex_lt(self.key_seq()[n - 1 - b], self.key_seq()[n - 1 - a]));
                } else {
                    assert(lex_lt(self.key_seq()[a], self.key_seq()[b]));
                }
            }
        }
        let r = SortedIndexIterator {
            items,
            curr_index: 0,
            prefix: options.prefix,
            reverse: options.reverse,
        };
        proof {
            assert forall|i: int| 0 <= i < self.key_seq().len() implies {
                let k = if options.reverse {
                    self.key_seq()[self.key_seq().len() - 1 - i]
                } else {
                    self.key_seq()[i]
                };
                &&& (#[trigger] r.items()[i]).0 == k
                &&& r.items()[i].1 == self@[k]
            } by {
                let src = if options.reverse {
                    n - 1 - i
                } else {
                    i
                };
                assert(r.items()[i] == (r.items@[i].0@, r.items@[i].1));
                assert(self.key_seq()[src] == self.entries@[src].0@);
            }
        }
        r
    }
}

} // verus!
