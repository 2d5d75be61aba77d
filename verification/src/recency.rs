//! When documents were last modified.
use crate::ordmap::{lemma_set_finite, StrSet};
use vstd::prelude::*;

verus! {

/// The moments come strictly in order.
pub open spec fn climbing(times: Seq<u64>) -> bool {
    forall|i: int, j: int| 0 <= i < j < times.len() ==> #[trigger] times[i] < #[trigger] times[j]
}

/// The members of a set of moments, in order.
pub open spec fn moments(times: Set<u64>) -> Seq<u64> {
    choose|s: Seq<u64>| climbing(s) && s.to_set() == times
}

/// There is only one way to put moments in order.
pub proof fn lemma_moments_unique(s: Seq<u64>)
    requires
        climbing(s),
    ensures
        moments(s.to_set()) == s,
{
    let t = moments(s.to_set());
    assert(climbing(t) && t.to_set() == s.to_set());
    lemma_climbing_same(s, t);
}

proof fn lemma_climbing_same(s: Seq<u64>, t: Seq<u64>)
    requires
        climbing(s),
        climbing(t),
        s.to_set() == t.to_set(),
    ensures
        s == t,
    decreases s.len(),
{
    if s.len() == 0 {
        if t.len() > 0 {
            assert(t.to_set().contains(t[0]));
            assert(s.contains(t[0]));
        }
        assert(s =~= t);
    } else {
        assert(s.to_set().contains(s[0]));
        assert(t.contains(s[0]));
        assert(t.to_set().contains(t[0]));
        assert(s.contains(t[0]));
        assert(s[0] == t[0]);
        let u = s.drop_first();
        let v = t.drop_first();
        assert forall|k: u64| u.to_set().contains(k) == v.to_set().contains(k) by {
            if u.contains(k) {
                let i = choose|i: int| 0 <= i < u.len() && u[i] == k;
                assert(s[i + 1] == k);
                assert(s.to_set().contains(k));
                let j = choose|j: int| 0 <= j < t.len() && t[j] == k;
                assert(v[j - 1] == k);
            }
            if v.contains(k) {
                let i = choose|i: int| 0 <= i < v.len() && v[i] == k;
                assert(t[i + 1] == k);
                assert(t.to_set().contains(k));
                let j = choose|j: int| 0 <= j < s.len() && s[j] == k;
                assert(u[j - 1] == k);
            }
        }
        assert(u.to_set() =~= v.to_set());
        lemma_climbing_same(u, v);
        assert(s =~= seq![s[0]] + u);
        assert(t =~= seq![t[0]] + v);
    }
}

/// A finite set of moments can be put in order.
pub proof fn lemma_moments_finite(times: Set<u64>)
    requires
        times.finite(),
    ensures
        climbing(moments(times)),
        moments(times).to_set() == times,
    decreases times.len(),
{
    assert(exists|s: Seq<u64>| climbing(s) && s.to_set() == times) by {
        if times.len() == 0 {
            let s = Seq::<u64>::empty();
            assert(s.to_set() =~= times);
        } else {
            let top = lemma_last_moment(times);
            let rest = times.remove(top);
            lemma_moments_finite(rest);
            let t = moments(rest);
            let s = t.push(top);
            assert forall|i: int, j: int| 0 <= i < j < s.len() implies #[trigger] s[i] < #[trigger] s[j] by {
                if j == t.len() {
                    assert(t.to_set().contains(t[i]));
                }
            }
            assert forall|x: u64| s.to_set().contains(x) == times.contains(x) by {
                if s.contains(x) {
                    let i = choose|i: int| 0 <= i < s.len() && s[i] == x;
                    if i < t.len() {
                        assert(t.to_set().contains(t[i]));
                    }
                }
                if times.contains(x) && x != top {
                    assert(t.to_set().contains(x));
                    let i = choose|i: int| 0 <= i < t.len() && t[i] == x;
                    assert(s[i] == x);
                }
                assert(s[t.len() as int] == top);
            }
            assert(s.to_set() =~= times);
        }
    }
}

/// The last of a finite set of moments.
proof fn lemma_last_moment(times: Set<u64>) -> (top: u64)
    requires
        times.finite(),
        times.len() > 0,
    ensures
        times.contains(top),
        forall|x: u64| #[trigger] times.contains(x) ==> x <= top,
    decreases times.len(),
{
    let k = times.choose();
    let rest = times.remove(k);
    if rest.len() == 0 {
        assert(rest =~= Set::<u64>::empty());
        assert forall|x: u64| #[trigger] times.contains(x) implies x <= k by {
            assert(!rest.contains(x));
        }
        k
    } else {
        let m = lemma_last_moment(rest);
        let top = if k < m { m } else { k };
        assert forall|x: u64| #[trigger] times.contains(x) implies x <= top by {
            if x != k {
                assert(rest.contains(x));
            }
        }
        top
    }
}

/// A moment, and the ids of the documents last modified at it.
pub struct Slot {
    ts: u64,
    ids: StrSet,
}

/// The ids of documents, by the moments at which they were last modified.
pub struct Timeline {
    slots: Vec<Slot>,
}

spec fn times_of(slots: Seq<Slot>) -> Seq<u64> {
    slots.map_values(|s: Slot| s.ts)
}

spec fn sets_at(slots: Seq<Slot>) -> Map<u64, Set<Seq<char>>> {
    Map::new(|t: u64| times_of(slots).contains(t), |t: u64| slots[times_of(slots).index_of(t)].ids@)
}

impl View for Timeline {
    type V = Map<u64, Set<Seq<char>>>;

    closed spec fn view(&self) -> Map<u64, Set<Seq<char>>> {
        sets_at(self.slots@)
    }
}

/// Each moment has one slot.
proof fn lemma_slot(slots: Seq<Slot>, i: int)
    requires
        climbing(times_of(slots)),
        0 <= i < slots.len(),
    ensures
        times_of(slots)[i] == slots[i].ts,
        sets_at(slots).contains_key(slots[i].ts),
        sets_at(slots)[slots[i].ts] == slots[i].ids@,
{
    let times = times_of(slots);
    assert(times[i] == slots[i].ts);
    assert(times.contains(slots[i].ts));
}

/// A moment between two slots has none.
proof fn lemma_no_slot(slots: Seq<Slot>, ts: u64, at: int)
    requires
        climbing(times_of(slots)),
        0 <= at <= slots.len(),
        forall|i: int| 0 <= i < at ==> #[trigger] slots[i].ts < ts,
        forall|i: int| at <= i < slots.len() ==> ts < #[trigger] slots[i].ts,
    ensures
        !sets_at(slots).contains_key(ts),
{
    let times = times_of(slots);
    if times.contains(ts) {
        let i = choose|i: int| 0 <= i < times.len() && times[i] == ts;
        assert(slots[i].ts == ts);
    }
}

proof fn lemma_slot_added(slots: Seq<Slot>, s: Slot, at: int)
    requires
        climbing(times_of(slots)),
        0 <= at <= slots.len(),
        forall|i: int| 0 <= i < at ==> #[trigger] slots[i].ts < s.ts,
        forall|i: int| at <= i < slots.len() ==> s.ts < #[trigger] slots[i].ts,
    ensures
        climbing(times_of(slots.insert(at, s))),
        sets_at(slots.insert(at, s)) == sets_at(slots).insert(s.ts, s.ids@),
{
    let more = slots.insert(at, s);
    let times = times_of(slots);
    let wide = times_of(more);
    assert(wide =~= times.insert(at, s.ts));
    assert forall|i: int, j: int| 0 <= i < j < wide.len() implies #[trigger] wide[i] < #[trigger] wide[j] by {
        let a = if i < at { i } else { i - 1 };
        let b = if j < at { j } else { j - 1 };
        if i != at {
            assert(wide[i] == times[a] && times[a] == slots[a].ts);
        }
        if j != at {
            assert(wide[j] == times[b] && times[b] == slots[b].ts);
        }
    }
    assert forall|t: u64| sets_at(more).contains_key(t) == sets_at(slots).insert(s.ts, s.ids@).contains_key(t) by {
        if wide.contains(t) {
            let i = choose|i: int| 0 <= i < wide.len() && wide[i] == t;
            if i < at {
                assert(times[i] == t);
            } else if i > at {
                assert(times[i - 1] == t);
            }
        }
        if times.contains(t) {
            let i = choose|i: int| 0 <= i < times.len() && times[i] == t;
            assert(wide[if i < at { i } else { i + 1 }] == t);
        }
        assert(wide[at] == s.ts);
    }
    assert forall|t: u64| sets_at(more).contains_key(t) implies sets_at(more)[t] == sets_at(slots).insert(s.ts, s.ids@)[t] by {
        let i = choose|i: int| 0 <= i < wide.len() && wide[i] == t;
        lemma_slot(more, i);
        if i < at {
            lemma_slot(slots, i);
            assert(slots[i].ts == t);
        } else if i > at {
            lemma_slot(slots, i - 1);
            assert(slots[i - 1].ts == t);
        }
    }
    assert(sets_at(more) =~= sets_at(slots).insert(s.ts, s.ids@));
}

proof fn lemma_slot_taken(slots: Seq<Slot>, at: int)
    requires
        climbing(times_of(slots)),
        0 <= at < slots.len(),
    ensures
        climbing(times_of(slots.remove(at))),
        sets_at(slots.remove(at)) == sets_at(slots).remove(slots[at].ts),
{
    let fewer = slots.remove(at);
    let times = times_of(slots);
    let slim = times_of(fewer);
    let ts = slots[at].ts;
    assert(slim =~= times.remove(at));
    assert forall|i: int, j: int| 0 <= i < j < slim.len() implies #[trigger] slim[i] < #[trigger] slim[j] by {
        let a = if i < at { i } else { i + 1 };
        let b = if j < at { j } else { j + 1 };
        assert(slim[i] == times[a] && slim[j] == times[b]);
    }
    assert forall|t: u64| sets_at(fewer).contains_key(t) == sets_at(slots).remove(ts).contains_key(t) by {
        assert(times[at] == ts);
        if slim.contains(t) {
            let i = choose|i: int| 0 <= i < slim.len() && slim[i] == t;
            assert(times[if i < at { i } else { i + 1 }] == t);
        }
        if times.contains(t) && t != ts {
            let i = choose|i: int| 0 <= i < times.len() && times[i] == t;
            assert(slim[if i < at { i } else { i - 1 }] == t);
        }
    }
    assert forall|t: u64| sets_at(fewer).contains_key(t) implies sets_at(fewer)[t] == sets_at(slots).remove(ts)[t] by {
        let i = choose|i: int| 0 <= i < slim.len() && slim[i] == t;
        lemma_slot(fewer, i);
        lemma_slot(slots, if i < at { i } else { i + 1 });
    }
    assert(sets_at(fewer) =~= sets_at(slots).remove(ts));
}

/// A timeline has finitely many moments, and finitely many ids at each of them.
pub proof fn lemma_timeline_finite(t: Timeline)
    ensures
        t@.dom().finite(),
        forall|ts: u64| #[trigger] t@.contains_key(ts) ==> t@[ts].finite(),
{
    let times = times_of(t.slots@);
    vstd::seq_lib::seq_to_set_is_finite(times);
    assert(t@.dom() =~= times.to_set());
    assert forall|ts: u64| #[trigger] t@.contains_key(ts) implies t@[ts].finite() by {
        lemma_set_finite(t.slots@[times.index_of(ts)].ids);
    }
}

impl Timeline {
    #[verifier::type_invariant]
    spec fn sorted(self) -> bool {
        climbing(times_of(self.slots@))
    }

    /// The moments in order.
    pub closed spec fn times(self) -> Seq<u64> {
        times_of(self.slots@)
    }

    /// No moments.
    pub fn new() -> (r: Self)
        ensures
            r@ == Map::<u64, Set<Seq<char>>>::empty(),
    {
        let r = Timeline { slots: Vec::new() };
        assert(r@ =~= Map::<u64, Set<Seq<char>>>::empty());
        r
    }

    /// How many moments there are.
    pub fn len(&self) -> (n: usize)
        ensures
            n == self.times().len(),
            self.times() == moments(self@.dom()),
            climbing(self.times()),
            self.times().to_set() == self@.dom(),
    {
        proof {
            use_type_invariant(self);
            lemma_moments_unique(times_of(self.slots@));
            assert(self@.dom() =~= times_of(self.slots@).to_set());
        }
        self.slots.len()
    }

    /// The moment at a place.
    pub fn ts_at(&self, i: usize) -> (ts: u64)
        requires
            i < self.times().len(),
        ensures
            ts == self.times()[i as int],
    {
        self.slots[i].ts
    }

    /// The ids at a place.
    pub fn ids_at(&self, i: usize) -> (ids: &StrSet)
        requires
            i < self.times().len(),
        ensures
            self@.contains_key(self.times()[i as int]),
            ids@ == self@[self.times()[i as int]],
    {
        proof {
            use_type_invariant(self);
            lemma_slot(self.slots@, i as int);
        }
        &self.slots[i].ids
    }

    /// The place of a moment, and whether it is there.
    fn find(&self, ts: u64) -> (r: (usize, bool))
        ensures
            r.0 <= self.slots@.len(),
            r.1 ==> r.0 < self.slots@.len() && self.slots@[r.0 as int].ts == ts,
            r.1 == self@.contains_key(ts),
            !r.1 ==> forall|i: int| 0 <= i < r.0 ==> #[trigger] self.slots@[i].ts < ts,
            !r.1 ==> forall|i: int| r.0 <= i < self.slots@.len() ==> ts < #[trigger] self.slots@[i].ts,
    {
        proof {
            use_type_invariant(self);
        }
        let ghost times = times_of(self.slots@);
        let mut lo: usize = 0;
        let mut hi: usize = self.slots.len();
        while lo < hi
            invariant
                lo <= hi <= self.slots@.len(),
                times == times_of(self.slots@),
                climbing(times),
                forall|i: int| 0 <= i < lo ==> #[trigger] self.slots@[i].ts < ts,
                forall|i: int| hi <= i < self.slots@.len() ==> ts < #[trigger] self.slots@[i].ts,
            decreases hi - lo,
        {
            let mid: usize = lo + (hi - lo) / 2;
            let at: u64 = self.slots[mid].ts;
            assert(forall|i: int| 0 <= i < self.slots@.len() ==> times[i] == #[trigger] self.slots@[i].ts);
            assert(times[mid as int] == at);
            if at == ts {
                proof {
                    lemma_slot(self.slots@, mid as int);
                }
                return (mid, true);
            } else if at < ts {
                lo = mid + 1;
            } else {
                hi = mid;
            }
        }
        proof {
            lemma_no_slot(self.slots@, ts, lo as int);
        }
        (lo, false)
    }

    /// Puts `ids` at a moment that has none.
    fn put(&mut self, ts: u64, ids: StrSet)
        requires
            !old(self)@.contains_key(ts),
        ensures
            final(self)@ == old(self)@.insert(ts, ids@),
    {
        proof {
            use_type_invariant(&*self);
        }
        let (at, _) = self.find(ts);
        let mut slots: Vec<Slot> = Vec::new();
        std::mem::swap(&mut slots, &mut self.slots);
        let s = Slot { ts, ids };
        proof {
            lemma_slot_added(slots@, s, at as int);
        }
        slots.insert(at, s);
        self.slots = slots;
    }

    /// Takes out the ids at a moment.
    fn take(&mut self, ts: u64) -> (r: Option<StrSet>)
        ensures
            final(self)@ == old(self)@.remove(ts),
            match r {
                Some(s) => old(self)@.contains_key(ts) && s@ == old(self)@[ts],
                None => !old(self)@.contains_key(ts),
            },
    {
        proof {
            use_type_invariant(&*self);
        }
        let (at, found) = self.find(ts);
        if found {
            let mut slots: Vec<Slot> = Vec::new();
            std::mem::swap(&mut slots, &mut self.slots);
            proof {
                lemma_slot_taken(slots@, at as int);
                lemma_slot(slots@, at as int);
            }
            let s = slots.remove(at);
            self.slots = slots;
            Some(s.ids)
        } else {
            assert(self@ =~= old(self)@.remove(ts));
            None
        }
    }

    /// Puts `ids` at a moment, in place of those that are there.
    pub fn insert(&mut self, ts: u64, ids: StrSet)
        ensures
            final(self)@ == old(self)@.insert(ts, ids@),
    {
        let ghost before = self@;
        self.take(ts);
        self.put(ts, ids);
        assert(before.remove(ts).insert(ts, ids@) =~= before.insert(ts, ids@));
    }

    /// Adds an id to those at a moment.
    pub fn add_id(&mut self, ts: u64, id: String)
        ensures
            final(self)@ == noted(old(self)@, ts, id@),
    {
        let ghost before = self@;
        let mut ids: StrSet = match self.take(ts) {
            Some(s) => s,
            None => StrSet::new(),
        };
        ids.insert(id);
        self.put(ts, ids);
        assert(self@ =~= noted(before, ts, id@));
    }

    /// Takes an id out of those at a moment; a moment without ids goes.
    pub fn remove_id(&mut self, ts: u64, id: &str)
        ensures
            final(self)@ == unnoted(old(self)@, ts, id@),
    {
        let ghost before = self@;
        match self.take(ts) {
            Some(s) => {
                let mut ids = s;
                ids.remove(id);
                if !ids.is_empty() {
                    self.put(ts, ids);
                }
                assert(self@ =~= unnoted(before, ts, id@));
            },
            None => {
                assert(self@ =~= before);
            },
        }
    }
}

/// A timeline with an id added at a moment.
pub open spec fn noted(m: Map<u64, Set<Seq<char>>>, ts: u64, id: Seq<char>) -> Map<u64, Set<Seq<char>>> {
    m.insert(
        ts,
        if m.contains_key(ts) {
            m[ts].insert(id)
        } else {
            Set::empty().insert(id)
        },
    )
}

/// A timeline with an id taken out at a moment; a moment without ids goes.
pub open spec fn unnoted(m: Map<u64, Set<Seq<char>>>, ts: u64, id: Seq<char>) -> Map<u64, Set<Seq<char>>> {
    if !m.contains_key(ts) {
        m
    } else if m[ts].remove(id) == Set::<Seq<char>>::empty() {
        m.remove(ts)
    } else {
        m.insert(ts, m[ts].remove(id))
    }
}

/// A timeline has an id at a moment.
pub open spec fn has_at(m: Map<u64, Set<Seq<char>>>, ts: u64, id: Seq<char>) -> bool {
    m.contains_key(ts) && m[ts].contains(id)
}

/// Adding an id at a moment, and taking it out, changes that and nothing else. Where no moment was without
/// ids, none is afterwards.
pub proof fn lemma_noted(m: Map<u64, Set<Seq<char>>>, ts: u64, id: Seq<char>, t: u64, x: Seq<char>)
    ensures
        has_at(noted(m, ts, id), t, x) <==> has_at(m, t, x) || (t == ts && x == id),
        has_at(unnoted(m, ts, id), t, x) <==> has_at(m, t, x) && !(t == ts && x == id),
        (m.contains_key(t) ==> exists|y: Seq<char>| #[trigger] has_at(m, t, y)) ==> (noted(m, ts, id).contains_key(t) ==> exists|
            y: Seq<char>,
        | #[trigger]
            has_at(noted(m, ts, id), t, y)),
        (m.contains_key(t) ==> exists|y: Seq<char>| #[trigger] has_at(m, t, y)) ==> (unnoted(m, ts, id).contains_key(t)
            ==> exists|y: Seq<char>| #[trigger] has_at(unnoted(m, ts, id), t, y)),
{
    let (a, b) = (noted(m, ts, id), unnoted(m, ts, id));
    if t == ts {
        assert(has_at(a, t, id));
        if m.contains_key(t) && m[t].remove(id) == Set::<Seq<char>>::empty() {
            if has_at(m, t, x) && x != id {
                assert(m[t].remove(id).contains(x));
            }
        }
        if b.contains_key(t) {
            if forall|y: Seq<char>| !b[t].contains(y) {
                assert(b[t] =~= Set::<Seq<char>>::empty());
            }
            let y = choose|y: Seq<char>| b[t].contains(y);
            assert(has_at(b, t, y));
        }
    } else if exists|y: Seq<char>| #[trigger] has_at(m, t, y) {
        let y = choose|y: Seq<char>| #[trigger] has_at(m, t, y);
        assert(has_at(a, t, y) && has_at(b, t, y));
    }
}

} // verus!
