//! Maps and sets keyed by strings, kept in key order.
use crate::text::{compare, lemma_text_asymmetric, lemma_text_irreflexive, lemma_text_total, lemma_text_transitive, text_lt, Rank};
use vstd::prelude::*;

verus! {

/// The keys come strictly in order.
pub open spec fn ascending(keys: Seq<Seq<char>>) -> bool {
    forall|i: int, j: int| 0 <= i < j < keys.len() ==> text_lt(#[trigger] keys[i], #[trigger] keys[j])
}

/// The members of a set of strings, in order.
pub open spec fn in_order(keys: Set<Seq<char>>) -> Seq<Seq<char>> {
    choose|s: Seq<Seq<char>>| ascending(s) && s.to_set() == keys
}

/// There is only one way to put the members of a set in order.
pub proof fn lemma_in_order_unique(s: Seq<Seq<char>>)
    requires
        ascending(s),
    ensures
        in_order(s.to_set()) == s,
{
    let t = in_order(s.to_set());
    assert(ascending(t) && t.to_set() == s.to_set());
    lemma_ascending_same(s, t);
}

proof fn lemma_ascending_same(s: Seq<Seq<char>>, t: Seq<Seq<char>>)
    requires
        ascending(s),
        ascending(t),
        s.to_set() == t.to_set(),
    ensures
        s == t,
    decreases s.len(),
{
    if s.len() == 0 {
        if t.len() > 0 {
            assert(t.to_set().contains(t[0]));
            assert(s.contains(t[0]));
        }
        assert(s =~= t);
    } else {
        assert(s.to_set().contains(s[0]));
        assert(t.contains(s[0]));
        assert(t.to_set().contains(t[0]));
        assert(s.contains(t[0]));
        let i = choose|i: int| 0 <= i < t.len() && t[i] == s[0];
        let j = choose|j: int| 0 <= j < s.len() && s[j] == t[0];
        if i > 0 && j > 0 {
            lemma_text_asymmetric(t[0], t[i]);
            assert(false);
        }
        assert(s[0] == t[0]);
        let u = s.drop_first();
        let v = t.drop_first();
        assert forall|k: Seq<char>| u.to_set().contains(k) == v.to_set().contains(k) by {
            if u.contains(k) {
                let a = choose|a: int| 0 <= a < u.len() && u[a] == k;
                assert(s[a + 1] == k);
                assert(s.to_set().contains(k));
                assert(t.contains(k));
                let b = choose|b: int| 0 <= b < t.len() && t[b] == k;
                if b == 0 {
                    lemma_text_asymmetric(s[0], s[a + 1]);
                }
                assert(v[b - 1] == k);
            }
            if v.contains(k) {
                let a = choose|a: int| 0 <= a < v.len() && v[a] == k;
                assert(t[a + 1] == k);
                assert(t.to_set().contains(k));
                assert(s.contains(k));
                let b = choose|b: int| 0 <= b < s.len() && s[b] == k;
                if b == 0 {
                    lemma_text_asymmetric(t[0], t[a + 1]);
                }
                assert(u[b - 1] == k);
            }
        }
        assert(u.to_set() =~= v.to_set());
        lemma_ascending_same(u, v);
        assert(s =~= seq![s[0]] + u);
        assert(t =~= seq![t[0]] + v);
    }
}

/// The members of a finite set can be put in order.
pub proof fn lemma_in_order_finite(s: Set<Seq<char>>)
    requires
        s.finite(),
    ensures
        ascending(in_order(s)),
        in_order(s).to_set() == s,
        in_order(s).no_duplicates(),
    decreases s.len(),
{
    assert(exists|t: Seq<Seq<char>>| ascending(t) && t.to_set() == s) by {
        if s.len() == 0 {
            let t = Seq::<Seq<char>>::empty();
            assert(t.to_set() =~= s);
        } else {
            let k = s.choose();
            let rest = s.remove(k);
            lemma_in_order_finite(rest);
            let t = in_order(rest);
            let u = placed_key(t, k);
            assert(!t.contains(k)) by {
                if t.contains(k) {
                    assert(rest.contains(k));
                }
            }
            lemma_placed_key(t, k);
            assert forall|x: Seq<char>| u.to_set().contains(x) == s.contains(x) by {
                assert(u.contains(x) == (t.contains(x) || x == k));
                assert(t.to_set().contains(x) == rest.contains(x));
            }
            assert(u.to_set() =~= s);
        }
    }
    let t = in_order(s);
    assert(ascending(t) && t.to_set() == s);
    assert forall|i: int, j: int| 0 <= i < t.len() && 0 <= j < t.len() && i != j implies t[i] != t[j] by {
        if i < j {
            lemma_text_asymmetric(t[i], t[j]);
        } else {
            lemma_text_asymmetric(t[j], t[i]);
        }
    }
}

/// Keys with one more key where it belongs.
spec fn placed_key(t: Seq<Seq<char>>, k: Seq<char>) -> Seq<Seq<char>>
    decreases t.len(),
{
    if t.len() == 0 || text_lt(t.last(), k) {
        t.push(k)
    } else {
        placed_key(t.drop_last(), k).push(t.last())
    }
}

proof fn lemma_placed_key(t: Seq<Seq<char>>, k: Seq<char>)
    requires
        ascending(t),
        !t.contains(k),
    ensures
        ascending(placed_key(t, k)),
        forall|x: Seq<char>| #[trigger] placed_key(t, k).contains(x) <==> t.contains(x) || x == k,
    decreases t.len(),
{
    let u = placed_key(t, k);
    if t.len() == 0 || text_lt(t.last(), k) {
        assert forall|i: int, j: int| 0 <= i < j < u.len() implies text_lt(#[trigger] u[i], #[trigger] u[j]) by {
            if j == t.len() && i < t.len() - 1 {
                lemma_text_transitive(t[i], t.last(), k);
            }
        }
        assert forall|x: Seq<char>| #[trigger] u.contains(x) <==> t.contains(x) || x == k by {
            if t.contains(x) {
                let i = choose|i: int| 0 <= i < t.len() && t[i] == x;
                assert(u[i] == x);
            }
            assert(u[t.len() as int] == k);
        }
    } else {
        let less = t.drop_last();
        let last = t.last();
        assert(!less.contains(k)) by {
            if less.contains(k) {
                let i = choose|i: int| 0 <= i < less.len() && less[i] == k;
                assert(t[i] == k);
            }
        }
        lemma_placed_key(less, k);
        let v = placed_key(less, k);
        assert(t[t.len() - 1] == last);
        lemma_text_total(last, k);
        assert forall|i: int| 0 <= i < v.len() implies text_lt(#[trigger] v[i], last) by {
            assert(v.contains(v[i]));
            if less.contains(v[i]) {
                let j = choose|j: int| 0 <= j < less.len() && less[j] == v[i];
                assert(t[j] == v[i]);
            }
        }
        assert forall|x: Seq<char>| #[trigger] u.contains(x) <==> t.contains(x) || x == k by {
            if u.contains(x) {
                let i = choose|i: int| 0 <= i < u.len() && u[i] == x;
                if i < v.len() {
                    assert(v.contains(v[i]));
                    if less.contains(x) {
                        let j = choose|j: int| 0 <= j < less.len() && less[j] == x;
                        assert(t[j] == x);
                    }
                }
            }
            if t.contains(x) {
                let i = choose|i: int| 0 <= i < t.len() && t[i] == x;
                if i < less.len() {
                    assert(less[i] == x);
                    assert(v.contains(x));
                    let j = choose|j: int| 0 <= j < v.len() && v[j] == x;
                    assert(u[j] == x);
                } else {
                    assert(u[v.len() as int] == x);
                }
            }
            if x == k {
                assert(v.contains(k));
                let j = choose|j: int| 0 <= j < v.len() && v[j] == k;
                assert(u[j] == k);
            }
        }
    }
}

/// One more key.
pub proof fn lemma_take_more(keys: Seq<Seq<char>>, i: int)
    requires
        0 <= i < keys.len(),
    ensures
        keys.take(i + 1).to_set() == keys.take(i).to_set().insert(keys[i]),
{
    let a = keys.take(i + 1);
    let b = keys.take(i);
    assert forall|k: Seq<char>| a.to_set().contains(k) == b.to_set().insert(keys[i]).contains(k) by {
        if a.contains(k) {
            let j = choose|j: int| 0 <= j < a.len() && a[j] == k;
            if j < i {
                assert(b[j] == k);
            }
        }
        if b.contains(k) {
            let j = choose|j: int| 0 <= j < b.len() && b[j] == k;
            assert(a[j] == k);
        }
        assert(a[i] == keys[i]);
    }
    assert(a.to_set() =~= b.to_set().insert(keys[i]));
}

/// A key is not among those that come before it.
pub proof fn lemma_take_fresh(keys: Seq<Seq<char>>, i: int)
    requires
        ascending(keys),
        0 <= i < keys.len(),
    ensures
        !keys.take(i).to_set().contains(keys[i]),
{
    let b = keys.take(i);
    if b.contains(keys[i]) {
        let j = choose|j: int| 0 <= j < b.len() && b[j] == keys[i];
        lemma_text_asymmetric(keys[j], keys[i]);
    }
}

/// No keys, and all keys.
pub proof fn lemma_take_ends(keys: Seq<Seq<char>>)
    ensures
        keys.take(0).to_set() == Set::<Seq<char>>::empty(),
        keys.take(keys.len() as int) == keys,
{
    assert(keys.take(0).to_set() =~= Set::<Seq<char>>::empty());
    assert(keys.take(keys.len() as int) =~= keys);
}

/// Walking keys in order and picking some of them gives these in order: one more key.
pub proof fn lemma_pick(keys: Seq<Seq<char>>, i: int, picked: Seq<Seq<char>>, keep: spec_fn(Seq<char>) -> bool)
    requires
        ascending(keys),
        0 <= i < keys.len(),
        ascending(picked),
        picked.to_set() == keys.take(i).to_set().filter(keep),
    ensures
        keep(keys[i]) ==> ascending(picked.push(keys[i])),
        keep(keys[i]) ==> picked.push(keys[i]).to_set() == keys.take(i + 1).to_set().filter(keep),
        !keep(keys[i]) ==> picked.to_set() == keys.take(i + 1).to_set().filter(keep),
{
    let k = keys[i];
    lemma_take_more(keys, i);
    if keep(k) {
        let more = picked.push(k);
        assert forall|a: int, b: int| 0 <= a < b < more.len() implies text_lt(#[trigger] more[a], #[trigger] more[b]) by {
            if b == picked.len() {
                assert(picked.to_set().contains(picked[a]));
                assert(keys.take(i).contains(picked[a]));
                let j = choose|j: int| 0 <= j < i && keys.take(i)[j] == picked[a];
                assert(keys[j] == picked[a]);
            }
        }
        assert forall|x: Seq<char>| more.to_set().contains(x) == keys.take(i + 1).to_set().filter(keep).contains(x) by {
            if more.contains(x) {
                let j = choose|j: int| 0 <= j < more.len() && more[j] == x;
                if j < picked.len() {
                    assert(picked[j] == x);
                    assert(picked.to_set().contains(x));
                }
            }
            if picked.to_set().contains(x) {
                let j = choose|j: int| 0 <= j < picked.len() && picked[j] == x;
                assert(more[j] == x);
            }
            assert(more[picked.len() as int] == k);
        }
        assert(more.to_set() =~= keys.take(i + 1).to_set().filter(keep));
    } else {
        assert(picked.to_set() =~= keys.take(i + 1).to_set().filter(keep));
    }
}

/// Nothing is picked at first, and in the end what is picked is in order.
pub proof fn lemma_pick_ends(keys: Seq<Seq<char>>, keep: spec_fn(Seq<char>) -> bool)
    ensures
        ascending(Seq::<Seq<char>>::empty()),
        Seq::<Seq<char>>::empty().to_set() == keys.take(0).to_set().filter(keep),
        keys.take(keys.len() as int) == keys,
{
    lemma_take_ends(keys);
    assert(Seq::<Seq<char>>::empty().to_set() =~= keys.take(0).to_set().filter(keep));
}

/// A key with what is stored under it.
#[derive(Debug)]
pub struct Entry<V> {
    pub(crate) key: String,
    pub(crate) val: V,
}

/// A map from strings, in key order.
#[derive(Debug)]
pub struct OrdMap<V> {
    pub(crate) entries: Vec<Entry<V>>,
}

/// The keys of the entries.
pub open(crate) spec fn keys_of<V>(entries: Seq<Entry<V>>) -> Seq<Seq<char>> {
    entries.map_values(|e: Entry<V>| e.key@)
}

impl<V> View for OrdMap<V> {
    type V = Map<Seq<char>, V>;

    closed spec fn view(&self) -> Map<Seq<char>, V> {
        map_of(self.entries@)
    }
}

/// What the entries say is stored under each key.
pub open(crate) spec fn map_of<V>(entries: Seq<Entry<V>>) -> Map<Seq<char>, V> {
    Map::new(
        |k: Seq<char>| keys_of(entries).contains(k),
        |k: Seq<char>| entries[keys_of(entries).index_of(k)].val,
    )
}

/// The view of a map is what its entries say.
pub(crate) proof fn lemma_view<V>(m: OrdMap<V>)
    ensures
        m@ == map_of(m.entries@),
{
}

/// In an ascending list of entries, each key has one place.
proof fn lemma_entry<V>(entries: Seq<Entry<V>>, i: int)
    requires
        ascending(keys_of(entries)),
        0 <= i < entries.len(),
    ensures
        keys_of(entries).index_of(entries[i].key@) == i,
        map_of(entries).contains_key(entries[i].key@),
        map_of(entries)[entries[i].key@] == entries[i].val,
{
    let keys = keys_of(entries);
    let k = entries[i].key@;
    assert(keys[i] == k);
    assert(keys.contains(k));
    let j = keys.index_of(k);
    assert(0 <= j < keys.len() && keys[j] == k);
    if i < j {
        lemma_text_asymmetric(keys[i], keys[j]);
    } else if j < i {
        lemma_text_asymmetric(keys[j], keys[i]);
    }
}

/// A key whose neighbours are on either side of it is not among the keys.
proof fn lemma_absent<V>(entries: Seq<Entry<V>>, k: Seq<char>, at: int)
    requires
        ascending(keys_of(entries)),
        0 <= at <= entries.len(),
        forall|i: int| 0 <= i < at ==> text_lt(#[trigger] entries[i].key@, k),
        forall|i: int| at <= i < entries.len() ==> text_lt(k, #[trigger] entries[i].key@),
    ensures
        !map_of(entries).contains_key(k),
{
    let keys = keys_of(entries);
    if keys.contains(k) {
        let i = choose|i: int| 0 <= i < keys.len() && keys[i] == k;
        assert(entries[i].key@ == k);
        lemma_text_irreflexive(k);
    }
}

/// Adding an entry at the place where its key belongs adds it to the map.
proof fn lemma_added<V>(entries: Seq<Entry<V>>, e: Entry<V>, at: int)
    requires
        ascending(keys_of(entries)),
        0 <= at <= entries.len(),
        forall|i: int| 0 <= i < at ==> text_lt(#[trigger] entries[i].key@, e.key@),
        forall|i: int| at <= i < entries.len() ==> text_lt(e.key@, #[trigger] entries[i].key@),
    ensures
        ascending(keys_of(entries.insert(at, e))),
        map_of(entries.insert(at, e)) == map_of(entries).insert(e.key@, e.val),
        keys_of(entries.insert(at, e)) == keys_of(entries).insert(at, e.key@),
{
    let more = entries.insert(at, e);
    let keys = keys_of(entries);
    let wide = keys_of(more);
    assert(wide =~= keys.insert(at, e.key@));
    assert forall|i: int, j: int| 0 <= i < j < wide.len() implies text_lt(#[trigger] wide[i], #[trigger] wide[j]) by {
        let a = if i < at { i } else { i - 1 };
        let b = if j < at { j } else { j - 1 };
        if i != at {
            assert(wide[i] == keys[a] && keys[a] == entries[a].key@);
        }
        if j != at {
            assert(wide[j] == keys[b] && keys[b] == entries[b].key@);
        }
    }
    assert(ascending(wide));
    assert forall|k: Seq<char>| map_of(more).contains_key(k) == map_of(entries).insert(e.key@, e.val).contains_key(k) by {
        if wide.contains(k) {
            let i = choose|i: int| 0 <= i < wide.len() && wide[i] == k;
            if i < at {
                assert(keys[i] == k);
            } else if i > at {
                assert(keys[i - 1] == k);
            }
        }
        if keys.contains(k) {
            let i = choose|i: int| 0 <= i < keys.len() && keys[i] == k;
            assert(wide[if i < at { i } else { i + 1 }] == k);
        }
        assert(wide[at] == e.key@);
    }
    assert forall|k: Seq<char>| map_of(more).contains_key(k) implies
        map_of(more)[k] == map_of(entries).insert(e.key@, e.val)[k] by {
        let i = choose|i: int| 0 <= i < wide.len() && wide[i] == k;
        assert(more[i].key@ == k);
        lemma_entry(more, i);
        if i < at {
            lemma_entry(entries, i);
            assert(entries[i].key@ == k);
            lemma_text_asymmetric(entries[i].key@, e.key@);
        } else if i > at {
            lemma_entry(entries, i - 1);
            assert(entries[i - 1].key@ == k);
            lemma_text_asymmetric(e.key@, entries[i - 1].key@);
        }
    }
    assert(map_of(more) =~= map_of(entries).insert(e.key@, e.val));
}

/// Taking an entry out takes its key out of the map.
proof fn lemma_taken<V>(entries: Seq<Entry<V>>, at: int)
    requires
        ascending(keys_of(entries)),
        0 <= at < entries.len(),
    ensures
        ascending(keys_of(entries.remove(at))),
        map_of(entries.remove(at)) == map_of(entries).remove(entries[at].key@),
{
    let fewer = entries.remove(at);
    let keys = keys_of(entries);
    let slim = keys_of(fewer);
    let key = entries[at].key@;
    assert forall|i: int, j: int| 0 <= i < j < slim.len() implies text_lt(#[trigger] slim[i], #[trigger] slim[j]) by {
        let a = if i < at { i } else { i + 1 };
        let b = if j < at { j } else { j + 1 };
        assert(slim[i] == keys[a] && slim[j] == keys[b]);
    }
    assert forall|k: Seq<char>| map_of(fewer).contains_key(k) == map_of(entries).remove(key).contains_key(k) by {
        if slim.contains(k) {
            let i = choose|i: int| 0 <= i < slim.len() && slim[i] == k;
            let a = if i < at { i } else { i + 1 };
            assert(keys[a] == k);
            if i < at {
                lemma_text_asymmetric(keys[a], keys[at]);
            } else {
                lemma_text_asymmetric(keys[at], keys[a]);
            }
        }
        if keys.contains(k) && k != key {
            let i = choose|i: int| 0 <= i < keys.len() && keys[i] == k;
            assert(slim[if i < at { i } else { i - 1 }] == k);
        }
    }
    assert forall|k: Seq<char>| map_of(fewer).contains_key(k) implies
        map_of(fewer)[k] == map_of(entries).remove(key)[k] by {
        let i = choose|i: int| 0 <= i < slim.len() && slim[i] == k;
        lemma_entry(fewer, i);
        let a = if i < at { i } else { i + 1 };
        lemma_entry(entries, a);
    }
    assert(map_of(fewer) =~= map_of(entries).remove(key));
}

/// Changing what is stored at an entry changes it in the map.
proof fn lemma_changed<V>(entries: Seq<Entry<V>>, e: Entry<V>, at: int)
    requires
        ascending(keys_of(entries)),
        0 <= at < entries.len(),
        e.key@ == entries[at].key@,
    ensures
        ascending(keys_of(entries.update(at, e))),
        map_of(entries.update(at, e)) == map_of(entries).insert(e.key@, e.val),
        keys_of(entries.update(at, e)) == keys_of(entries),
{
    let new = entries.update(at, e);
    assert(keys_of(new) =~= keys_of(entries));
    lemma_entry(entries, at);
    lemma_entry(new, at);
    assert forall|k: Seq<char>| map_of(new).contains_key(k) implies
        map_of(new)[k] == map_of(entries).insert(e.key@, e.val)[k] by {
        let keys = keys_of(entries);
        let i = choose|i: int| 0 <= i < keys.len() && keys[i] == k;
        lemma_entry(entries, i);
        lemma_entry(new, i);
    }
    assert(map_of(new) =~= map_of(entries).insert(e.key@, e.val));
}

proof fn lemma_keys<V>(entries: Seq<Entry<V>>)
    requires
        ascending(keys_of(entries)),
    ensures
        map_of(entries).dom() == keys_of(entries).to_set(),
        map_of(entries).dom().finite(),
        map_of(entries).len() == entries.len(),
        in_order(map_of(entries).dom()) == keys_of(entries),
{
    let keys = keys_of(entries);
    assert(map_of(entries).dom() =~= keys.to_set());
    assert forall|i: int, j: int| 0 <= i < j < keys.len() implies keys[i] != keys[j] by {
        lemma_text_asymmetric(keys[i], keys[j]);
    }
    assert(keys.no_duplicates());
    keys.unique_seq_to_set();
    vstd::seq_lib::seq_to_set_is_finite(keys);
    lemma_in_order_unique(keys);
}

/// A map has finitely many keys.
pub proof fn lemma_map_finite<V>(m: OrdMap<V>)
    ensures
        m@.dom().finite(),
{
    let keys = keys_of(m.entries@);
    vstd::seq_lib::seq_to_set_is_finite(keys);
    assert(m@.dom() =~= keys.to_set());
}

impl<V> OrdMap<V> {
    #[verifier::type_invariant]
    pub(crate) closed spec fn sorted(self) -> bool {
        ascending(keys_of(self.entries@))
    }

    /// The keys in order.
    pub closed spec fn keys(self) -> Seq<Seq<char>> {
        keys_of(self.entries@)
    }

    /// An empty map.
    pub fn new() -> (r: Self)
        ensures
            r@ == Map::<Seq<char>, V>::empty(),
    {
        let r = OrdMap { entries: Vec::new() };
        assert(r@ =~= Map::<Seq<char>, V>::empty());
        r
    }

    /// How many keys there are.
    pub fn len(&self) -> (n: usize)
        ensures
            n == self@.len(),
            n == self.keys().len(),
            self@.dom().finite(),
            self.keys() == in_order(self@.dom()),
            ascending(self.keys()),
            self.keys().to_set() == self@.dom(),
    {
        proof {
            use_type_invariant(self);
            lemma_keys(self.entries@);
        }
        self.entries.len()
    }

    /// The place of a key, and whether it is there.
    fn find(&self, key: &str) -> (r: (usize, bool))
        ensures
            r.0 <= self.entries@.len(),
            r.1 ==> r.0 < self.entries@.len() && self.entries@[r.0 as int].key@ == key@,
            r.1 == self@.contains_key(key@),
            r.1 ==> self.entries@[r.0 as int].val == self@[key@],
            !r.1 ==> forall|i: int| 0 <= i < r.0 ==> text_lt(#[trigger] self.entries@[i].key@, key@),
            !r.1 ==> forall|i: int| r.0 <= i < self.entries@.len() ==> text_lt(key@, #[trigger] self.entries@[i].key@),
    {
        proof {
            use_type_invariant(self);
        }
        let ghost keys = keys_of(self.entries@);
        let mut lo: usize = 0;
        let mut hi: usize = self.entries.len();
        while lo < hi
            invariant
                lo <= hi <= self.entries@.len(),
                keys == keys_of(self.entries@),
                ascending(keys),
                forall|i: int| 0 <= i < lo ==> text_lt(#[trigger] self.entries@[i].key@, key@),
                forall|i: int| hi <= i < self.entries@.len() ==> text_lt(key@, #[trigger] self.entries@[i].key@),
            decreases hi - lo,
        {
            let mid: usize = lo + (hi - lo) / 2;
            assert(keys[mid as int] == self.entries@[mid as int].key@);
            match compare(self.entries[mid].key.as_str(), key) {
                Rank::Equal => {
                    proof {
                        lemma_entry(self.entries@, mid as int);
                    }
                    return (mid, true);
                },
                Rank::Less => {
                    proof {
                        assert forall|i: int| 0 <= i < mid + 1 implies text_lt(#[trigger] self.entries@[i].key@, key@) by {
                            if i < mid {
                                assert(keys[i] == self.entries@[i].key@);
                                lemma_text_transitive(keys[i], keys[mid as int], key@);
                            }
                        }
                    }
                    lo = mid + 1;
                },
                Rank::Greater => {
                    proof {
                        lemma_text_total(self.entries@[mid as int].key@, key@);
                        assert forall|i: int| mid <= i < self.entries@.len() implies text_lt(key@, #[trigger] self.entries@[i].key@) by {
                            if i > mid {
                                assert(keys[i] == self.entries@[i].key@);
                                lemma_text_transitive(key@, keys[mid as int], keys[i]);
                            }
                        }
                    }
                    hi = mid;
                },
            }
        }
        proof {
            lemma_absent(self.entries@, key@, lo as int);
        }
        (lo, false)
    }

    /// Whether something is stored under `key`.
    pub fn contains(&self, key: &str) -> (r: bool)
        ensures
            r == self@.contains_key(key@),
    {
        self.find(key).1
    }

    /// What is stored under `key`.
    pub fn get(&self, key: &str) -> (r: Option<&V>)
        ensures
            r == (if self@.contains_key(key@) { Some(&self@[key@]) } else { None }),
    {
        let (at, found) = self.find(key);
        if found {
            Some(&self.entries[at].val)
        } else {
            None
        }
    }

    /// The key at a place.
    pub fn key_at(&self, i: usize) -> (r: &String)
        requires
            i < self.keys().len(),
        ensures
            r@ == self.keys()[i as int],
            self@.contains_key(r@),
    {
        proof {
            use_type_invariant(self);
            lemma_entry(self.entries@, i as int);
        }
        &self.entries[i].key
    }

    /// What is stored under the key at a place.
    pub fn val_at(&self, i: usize) -> (r: &V)
        requires
            i < self.keys().len(),
        ensures
            *r == self@[self.keys()[i as int]],
            self@.contains_key(self.keys()[i as int]),
    {
        proof {
            use_type_invariant(self);
            lemma_entry(self.entries@, i as int);
        }
        &self.entries[i].val
    }

    /// Stores `val` under `key` and gives back what was there.
    pub fn insert(&mut self, key: String, val: V) -> (r: Option<V>)
        ensures
            final(self)@ == old(self)@.insert(key@, val),
            r == (if old(self)@.contains_key(key@) { Some(old(self)@[key@]) } else { None }),
    {
        proof {
            use_type_invariant(&*self);
        }
        let (at, found) = self.find(key.as_str());
        let mut entries: Vec<Entry<V>> = Vec::new();
        std::mem::swap(&mut entries, &mut self.entries);
        let e = Entry { key, val };
        if found {
            proof {
                lemma_changed(entries@, e, at as int);
            }
            let ghost before = entries@;
            let mut e = e;
            std::mem::swap(&mut e, &mut entries[at]);
            self.entries = entries;
            Some(e.val)
        } else {
            proof {
                lemma_added(entries@, e, at as int);
            }
            entries.insert(at, e);
            self.entries = entries;
            None
        }
    }

    /// Stores `val` under the key at a place and gives back what was there.
    pub fn swap_at(&mut self, i: usize, val: V) -> (r: V)
        requires
            i < old(self).keys().len(),
        ensures
            final(self)@ == old(self)@.insert(old(self).keys()[i as int], val),
            final(self).keys() == old(self).keys(),
            old(self)@.contains_key(old(self).keys()[i as int]),
            r == old(self)@[old(self).keys()[i as int]],
    {
        proof {
            use_type_invariant(&*self);
        }
        let mut entries: Vec<Entry<V>> = Vec::new();
        std::mem::swap(&mut entries, &mut self.entries);
        let mut val = val;
        proof {
            let e = Entry { key: entries@[i as int].key, val };
            lemma_changed(entries@, e, i as int);
            lemma_entry(entries@, i as int);
        }
        std::mem::swap(&mut val, &mut entries[i].val);
        self.entries = entries;
        val
    }

    /// Takes out what is stored under `key`.
    pub fn remove(&mut self, key: &str) -> (r: Option<V>)
        ensures
            final(self)@ == old(self)@.remove(key@),
            r == (if old(self)@.contains_key(key@) { Some(old(self)@[key@]) } else { None }),
    {
        proof {
            use_type_invariant(&*self);
        }
        let (at, found) = self.find(key);
        if found {
            let mut entries: Vec<Entry<V>> = Vec::new();
            std::mem::swap(&mut entries, &mut self.entries);
            proof {
                lemma_taken(entries@, at as int);
            }
            let e = entries.remove(at);
            self.entries = entries;
            Some(e.val)
        } else {
            assert(self@ =~= old(self)@.remove(key@));
            None
        }
    }

    /// Takes out the last entry.
    pub fn pop(&mut self) -> (r: Option<(String, V)>)
        ensures
            match r {
                Some((key, val)) => {
                    &&& old(self)@.contains_key(key@)
                    &&& val == old(self)@[key@]
                    &&& final(self)@ == old(self)@.remove(key@)
                    &&& final(self).keys() == old(self).keys().drop_last()
                    &&& old(self).keys().len() > 0
                },
                None => old(self)@ == Map::<Seq<char>, V>::empty() && final(self)@ == old(self)@ && old(self).keys().len() == 0,
            },
    {
        proof {
            use_type_invariant(&*self);
        }
        let mut entries: Vec<Entry<V>> = Vec::new();
        std::mem::swap(&mut entries, &mut self.entries);
        let n: usize = entries.len();
        if n == 0 {
            assert(map_of(entries@) =~= Map::<Seq<char>, V>::empty());
            self.entries = entries;
            None
        } else {
            proof {
                lemma_taken(entries@, n - 1);
                lemma_entry(entries@, n - 1);
                assert(keys_of(entries@.remove(n - 1)) =~= keys_of(entries@).drop_last());
            }
            let e = entries.remove(n - 1);
            self.entries = entries;
            Some((e.key, e.val))
        }
    }
}

/// A set of strings, in order.
#[derive(Debug)]
pub struct StrSet {
    members: OrdMap<()>,
}

impl View for StrSet {
    type V = Set<Seq<char>>;

    closed spec fn view(&self) -> Set<Seq<char>> {
        self.members@.dom()
    }
}

/// A set has finitely many members.
pub proof fn lemma_set_finite(s: StrSet)
    ensures
        s@.finite(),
{
    lemma_map_finite(s.members);
}

impl StrSet {
    /// The members in order.
    pub closed spec fn keys(self) -> Seq<Seq<char>> {
        self.members.keys()
    }

    /// An empty set.
    pub fn new() -> (r: Self)
        ensures
            r@ == Set::<Seq<char>>::empty(),
    {
        StrSet { members: OrdMap::new() }
    }

    /// How many members there are.
    pub fn len(&self) -> (n: usize)
        ensures
            n == self@.len(),
            n == self.keys().len(),
            self@.finite(),
            self.keys() == in_order(self@),
            ascending(self.keys()),
            self.keys().to_set() == self@,
    {
        self.members.len()
    }

    /// Whether there is no member.
    pub fn is_empty(&self) -> (r: bool)
        ensures
            r == (self@ == Set::<Seq<char>>::empty()),
    {
        let n: usize = self.len();
        proof {
            if n == 0 {
                assert(self@ =~= Set::<Seq<char>>::empty());
            }
        }
        n == 0
    }

    /// Whether `s` is a member.
    pub fn contains(&self, s: &str) -> (r: bool)
        ensures
            r == self@.contains(s@),
    {
        self.members.contains(s)
    }

    /// The member at a place.
    pub fn at(&self, i: usize) -> (r: &String)
        requires
            i < self.keys().len(),
        ensures
            r@ == self.keys()[i as int],
            self@.contains(r@),
    {
        self.members.key_at(i)
    }

    /// Makes `s` a member.
    pub fn insert(&mut self, s: String)
        ensures
            final(self)@ == old(self)@.insert(s@),
    {
        self.members.insert(s, ());
        assert(self@ =~= old(self)@.insert(s@));
    }

    /// Makes `s` no member.
    pub fn remove(&mut self, s: &str)
        ensures
            final(self)@ == old(self)@.remove(s@),
    {
        self.members.remove(s);
        assert(self@ =~= old(self)@.remove(s@));
    }
}

impl Clone for StrSet {
    fn clone(&self) -> (r: Self)
        ensures
            r@ == self@,
    {
        let mut out = StrSet::new();
        let n: usize = self.len();
        let mut i: usize = 0;
        proof {
            lemma_take_ends(self.keys());
        }
        while i < n
            invariant
                i <= n,
                n == self.keys().len(),
                out@ == self.keys().take(i as int).to_set(),
            decreases n - i,
        {
            out.insert(self.at(i).clone());
            proof {
                lemma_take_more(self.keys(), i as int);
            }
            i = i + 1;
        }
        out
    }
}

} // verus!
