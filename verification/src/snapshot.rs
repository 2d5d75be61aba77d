//! Snapshots: a whole store in one value.
use crate::index::{fields_of, sets_of, Index, IndexView, KeyedIds};
use crate::json::{as_parts, fields_ascend, holds_parts, index_view, inflated, keyed_view, packed, pair_keys, read_parts, unpack_parts};
use crate::named::{lemma_list_stays, list_form, to_list_form};
use crate::number::{Num, Number};
use crate::ordmap::{ascending, in_order, lemma_in_order_finite, lemma_take_ends, lemma_take_more, OrdMap, StrSet};
use crate::query::texts;
use crate::store::{Store, StoreView};
use crate::text::lemma_text_asymmetric;
use crate::value::{lemma_scalar_view, members_of, values_of, Json, JsonView};
use vstd::prelude::*;

verus! {

/// A set of ids as a value: a list of them, in order.
pub open spec fn set_json(ids: Set<Seq<char>>) -> JsonView {
    JsonView::Array(in_order(ids).map_values(|id: Seq<char>| JsonView::String(id)))
}

/// Sets under keys as a value.
pub open spec fn keyed_json(m: KeyedIds) -> JsonView {
    JsonView::Object(m.map_values(|ids: Set<Seq<char>>| set_json(ids)))
}

/// An index as a value.
pub open spec fn index_json(ix: IndexView) -> JsonView {
    JsonView::Object(ix.map_values(|m: KeyedIds| keyed_json(m)))
}

/// A snapshot as a value: the moment, the documents, the index and the collections.
pub open spec fn snapshot_json(ts: u64, s: StoreView) -> JsonView {
    JsonView::Array(
        seq![
            JsonView::Number(Num::PosInt(ts)),
            JsonView::Object(s.data),
            index_json(s.index),
            keyed_json(s.collections),
        ],
    )
}

/// The set of ids that a value stands for: a list of strings.
pub open spec fn set_of_json(v: JsonView) -> Option<Set<Seq<char>>> {
    match v {
        JsonView::Array(a) => if forall|i: int| 0 <= i < a.len() ==> #[trigger] a[i] is String {
            Some(a.map_values(|x: JsonView| x->String_0).to_set())
        } else {
            None
        },
        _ => None,
    }
}

/// The sets under keys that a value stands for.
pub open spec fn keyed_of_json(v: JsonView) -> Option<KeyedIds> {
    match v {
        JsonView::Object(m) => if forall|k: Seq<char>| #[trigger] m.contains_key(k) ==> set_of_json(m[k]) is Some {
            Some(m.map_values(|x: JsonView| set_of_json(x)->Some_0))
        } else {
            None
        },
        _ => None,
    }
}

/// The index that a value stands for.
pub open spec fn index_of_json(v: JsonView) -> Option<IndexView> {
    match v {
        JsonView::Object(m) => if forall|k: Seq<char>| #[trigger] m.contains_key(k) ==> keyed_of_json(m[k]) is Some {
            Some(m.map_values(|x: JsonView| keyed_of_json(x)->Some_0))
        } else {
            None
        },
        _ => None,
    }
}

/// What a store becomes when the bytes of a snapshot are loaded: its four parts in a list, or in a map
/// by their names.
pub open spec fn loaded_from(s: StoreView, bytes: Seq<u8>) -> Option<StoreView> {
    match read_parts(list_form(bytes)) {
        Ok((ts, data, index, collections)) => Some(s.restored(ts, data, index, collections)),
        Err(_) => None,
    }
}

/// What a store becomes when the file of a snapshot, which is compressed, is loaded.
pub open spec fn loaded_from_file(s: StoreView, file: Seq<u8>) -> Option<StoreView> {
    match inflated(file) {
        Some(bytes) => loaded_from(s, bytes),
        None => None,
    }
}

/// What is wrong with bytes that are those of no snapshot.
pub open spec fn snapshot_error(bytes: Seq<u8>) -> Seq<char> {
    read_parts(list_form(bytes))->Err_0
}

fn set_to_json(ids: &StrSet) -> (r: Json)
    ensures
        r@ == set_json(ids@),
        ids@.finite(),
{
    broadcast use lemma_scalar_view;

    let n: usize = ids.len();
    let mut out: Vec<Json> = Vec::new();
    let mut i: usize = 0;
    while i < n
        invariant
            i <= n,
            n == ids.keys().len(),
            out@.len() == i,
            forall|j: int| 0 <= j < i ==> (#[trigger] out@[j])@ == JsonView::String(ids.keys()[j]),
        decreases n - i,
    {
        let v = Json::String(ids.at(i).clone());
        proof {
            lemma_scalar_view(v);
        }
        out.push(v);
        i = i + 1;
    }
    assert(values_of(out@) =~= set_json(ids@)->Array_0);
    Json::Array(out)
}

fn keyed_to_json(m: &OrdMap<StrSet>) -> (r: Json)
    ensures
        r@ == keyed_json(sets_of(m@)),
        all_finite(sets_of(m@)),
{
    broadcast use lemma_scalar_view;

    let n: usize = m.len();
    let ghost keys = m.keys();
    let mut out: OrdMap<Json> = OrdMap::new();
    let mut i: usize = 0;
    proof {
        lemma_take_ends(keys);
        assert(out@.dom() =~= keys.take(0).to_set());
    }
    while i < n
        invariant
            i <= n,
            n == keys.len(),
            keys == m.keys(),
            out@.dom() == keys.take(i as int).to_set(),
            forall|k: Seq<char>| #[trigger] out@.contains_key(k) ==> out@[k]@ == set_json(m@[k]@) && m@[k]@.finite(),
        decreases n - i,
    {
        out.insert(m.key_at(i).clone(), set_to_json(m.val_at(i)));
        proof {
            lemma_take_more(keys, i as int);
            assert(out@.dom() =~= keys.take(i + 1).to_set());
        }
        i = i + 1;
    }
    proof {
        assert(keys.take(i as int) =~= keys);
        assert forall|k: Seq<char>| #[trigger] sets_of(m@).contains_key(k) implies sets_of(m@)[k].finite() by {
            assert(out@.contains_key(k));
        }
        assert(members_of(out@) =~= keyed_json(sets_of(m@))->Object_0);
    }
    Json::Object(out)
}

fn index_to_json(ix: &Index) -> (r: Json)
    ensures
        r@ == index_json(ix@),
        forall|f: Seq<char>| #[trigger] ix@.contains_key(f) ==> all_finite(ix@[f]),
{
    broadcast use lemma_scalar_view;

    let m = ix.fields();
    let n: usize = m.len();
    let ghost keys = m.keys();
    let mut out: OrdMap<Json> = OrdMap::new();
    let mut i: usize = 0;
    proof {
        lemma_take_ends(keys);
        assert(out@.dom() =~= keys.take(0).to_set());
    }
    while i < n
        invariant
            i <= n,
            n == keys.len(),
            keys == m.keys(),
            out@.dom() == keys.take(i as int).to_set(),
            forall|k: Seq<char>| #[trigger] out@.contains_key(k) ==> out@[k]@ == keyed_json(sets_of(m@[k]@)) && all_finite(
                sets_of(m@[k]@),
            ),
        decreases n - i,
    {
        out.insert(m.key_at(i).clone(), keyed_to_json(m.val_at(i)));
        proof {
            lemma_take_more(keys, i as int);
            assert(out@.dom() =~= keys.take(i + 1).to_set());
        }
        i = i + 1;
    }
    proof {
        assert(keys.take(i as int) =~= keys);
        assert forall|f: Seq<char>| #[trigger] ix@.contains_key(f) implies all_finite(ix@[f]) by {
            assert(out@.contains_key(f));
        }
        assert(members_of(out@) =~= index_json(ix@)->Object_0);
    }
    Json::Object(out)
}

/// Each key of an ascending list of pairs has one place.
proof fn lemma_key_place<V>(pairs: Seq<(String, V)>, i: int)
    requires
        ascending(pair_keys(pairs)),
        0 <= i < pairs.len(),
    ensures
        pair_keys(pairs)[i] == pairs[i].0@,
        pair_keys(pairs).contains(pairs[i].0@),
        pair_keys(pairs).index_of(pairs[i].0@) == i,
{
    let keys = pair_keys(pairs);
    let k = keys[i];
    assert(keys.contains(k));
    let j = keys.index_of(k);
    if i < j {
        lemma_text_asymmetric(keys[i], keys[j]);
    } else if j < i {
        lemma_text_asymmetric(keys[j], keys[i]);
    }
}

/// The set of a list of strings.
fn set_from(list: &Vec<String>) -> (r: StrSet)
    ensures
        r@ == texts(list@).to_set(),
{
    let ghost all = texts(list@);
    let mut out = StrSet::new();
    let mut i: usize = 0;
    proof {
        lemma_take_ends(all);
    }
    while i < list.len()
        invariant
            i <= list.len(),
            all == texts(list@),
            out@ == all.take(i as int).to_set(),
        decreases list.len() - i,
    {
        out.insert(list[i].clone());
        proof {
            lemma_take_more(all, i as int);
        }
        i = i + 1;
    }
    assert(all.take(i as int) =~= all);
    out
}

/// The sets of lists of strings, under their keys.
fn keyed_from(pairs: &Vec<(String, Vec<String>)>) -> (r: OrdMap<StrSet>)
    requires
        ascending(pair_keys(pairs@)),
    ensures
        sets_of(r@) == keyed_view(pairs@),
{
    let ghost keys = pair_keys(pairs@);
    let mut out: OrdMap<StrSet> = OrdMap::new();
    let mut i: usize = 0;
    proof {
        lemma_take_ends(keys);
        assert(out@.dom() =~= keys.take(0).to_set());
    }
    while i < pairs.len()
        invariant
            i <= pairs.len(),
            keys == pair_keys(pairs@),
            ascending(keys),
            out@.dom() == keys.take(i as int).to_set(),
            forall|k: Seq<char>| #[trigger] out@.contains_key(k) ==> out@[k]@ == keyed_view(pairs@)[k],
        decreases pairs.len() - i,
    {
        proof {
            lemma_key_place(pairs@, i as int);
            lemma_take_more(keys, i as int);
        }
        out.insert(pairs[i].0.clone(), set_from(&pairs[i].1));
        assert(out@.dom() =~= keys.take(i + 1).to_set());
        i = i + 1;
    }
    proof {
        assert(keys.take(i as int) =~= keys);
        assert(sets_of(out@) =~= keyed_view(pairs@));
    }
    out
}

/// The index of lists of strings, under their fields and keys.
fn index_from(pairs: &Vec<(String, Vec<(String, Vec<String>)>)>) -> (r: Index)
    requires
        fields_ascend(pairs@),
    ensures
        r@ == index_view(pairs@),
{
    let ghost keys = pair_keys(pairs@);
    let mut out: OrdMap<OrdMap<StrSet>> = OrdMap::new();
    let mut i: usize = 0;
    proof {
        lemma_take_ends(keys);
        assert(out@.dom() =~= keys.take(0).to_set());
    }
    while i < pairs.len()
        invariant
            i <= pairs.len(),
            keys == pair_keys(pairs@),
            fields_ascend(pairs@),
            out@.dom() == keys.take(i as int).to_set(),
            forall|k: Seq<char>| #[trigger] out@.contains_key(k) ==> sets_of(out@[k]@) == index_view(pairs@)[k],
        decreases pairs.len() - i,
    {
        proof {
            lemma_key_place(pairs@, i as int);
            lemma_take_more(keys, i as int);
        }
        out.insert(pairs[i].0.clone(), keyed_from(&pairs[i].1));
        assert(out@.dom() =~= keys.take(i + 1).to_set());
        i = i + 1;
    }
    proof {
        assert(keys.take(i as int) =~= keys);
        assert(fields_of(out@) =~= index_view(pairs@));
    }
    Index::from_fields(out)
}

/// A copy of the documents.
fn copy_data(o: &OrdMap<Json>) -> (r: OrdMap<Json>)
    ensures
        members_of(r@) == members_of(o@),
{
    let n: usize = o.len();
    let ghost keys = o.keys();
    let mut out: OrdMap<Json> = OrdMap::new();
    let mut i: usize = 0;
    proof {
        lemma_take_ends(keys);
        assert(out@.dom() =~= keys.take(0).to_set());
    }
    while i < n
        invariant
            i <= n,
            n == keys.len(),
            keys == o.keys(),
            out@.dom() == keys.take(i as int).to_set(),
            forall|k: Seq<char>| #[trigger] out@.contains_key(k) ==> out@[k]@ == o@[k]@,
        decreases n - i,
    {
        out.insert(o.key_at(i).clone(), o.val_at(i).clone());
        proof {
            lemma_take_more(keys, i as int);
            assert(out@.dom() =~= keys.take(i + 1).to_set());
        }
        i = i + 1;
    }
    assert(members_of(out@) =~= members_of(o@));
    out
}

impl Store {
    /// The snapshot of the store at a moment.
    pub fn to_snapshot(&self, ts: u64) -> (r: Json)
        ensures
            r@ == snapshot_json(ts, self@),
            finite_sets(self@),
    {
        broadcast use lemma_scalar_view;

        let mut out: Vec<Json> = Vec::new();
        out.push(Json::Number(Number::from_u64(ts)));
        out.push(Json::Object(copy_data(self.data())));
        out.push(index_to_json(self.index()));
        out.push(keyed_to_json(self.collections()));
        assert(values_of(out@) =~= snapshot_json(ts, self@)->Array_0);
        Json::Array(out)
    }

    /// Loads the bytes of a snapshot, or says what is wrong with them.
    pub fn load_snapshot(&mut self, bytes: &[u8]) -> (r: Result<(), String>)
        ensures
            match loaded_from(old(self)@, bytes@) {
                Some(s) => r is Ok && final(self)@ == s,
                None => r is Err && r->Err_0@ == snapshot_error(bytes@) && final(self)@ == old(self)@,
            },
    {
        broadcast use lemma_scalar_view;

        match unpack_parts(to_list_form(bytes).as_slice()) {
            Ok(parts) => {
                let index = index_from(&parts.index);
                let collections = keyed_from(&parts.collections);
                if let Json::Object(data) = parts.data {
                    self.restore(parts.ts, data, index, collections);
                }
                Ok(())
            },
            Err(e) => Err(e),
        }
    }
}

/// All sets are finite.
pub open spec fn all_finite(m: KeyedIds) -> bool {
    forall|k: Seq<char>| #[trigger] m.contains_key(k) ==> m[k].finite()
}

/// All sets that the store holds are finite.
pub open spec fn finite_sets(s: StoreView) -> bool {
    &&& forall|f: Seq<char>| #[trigger] s.index.contains_key(f) ==> all_finite(s.index[f])
    &&& all_finite(s.collections)
}

proof fn lemma_set_json(ids: Set<Seq<char>>)
    requires
        ids.finite(),
    ensures
        set_of_json(set_json(ids)) == Some(ids),
{
    lemma_in_order_finite(ids);
    let a = set_json(ids)->Array_0;
    assert(a.map_values(|x: JsonView| x->String_0) =~= in_order(ids));
}

proof fn lemma_keyed_json(m: KeyedIds)
    requires
        all_finite(m),
    ensures
        keyed_of_json(keyed_json(m)) == Some(m),
{
    let o = keyed_json(m)->Object_0;
    assert forall|k: Seq<char>| #[trigger] o.contains_key(k) implies set_of_json(o[k]) == Some(m[k]) by {
        assert(m.contains_key(k));
        lemma_set_json(m[k]);
    }
    assert(o.map_values(|x: JsonView| set_of_json(x)->Some_0) =~= m);
}

/// The parts of a snapshot are the documents, the index and the collections that it was taken of.
pub proof fn lemma_snapshot_parts(ts: u64, s: StoreView)
    requires
        finite_sets(s),
    ensures
        as_parts(snapshot_json(ts, s)) == Some((ts, s.data, s.index, s.collections)),
{
    let o = index_json(s.index)->Object_0;
    assert forall|f: Seq<char>| #[trigger] o.contains_key(f) implies keyed_of_json(o[f]) == Some(s.index[f]) by {
        assert(s.index.contains_key(f));
        lemma_keyed_json(s.index[f]);
    }
    assert(o.map_values(|x: JsonView| keyed_of_json(x)->Some_0) =~= s.index);
    lemma_keyed_json(s.collections);
}

/// Loading the bytes of a snapshot gives back the documents, the index and the collections that it
/// was taken of, where the parts are read back as they were written.
pub proof fn lemma_snapshot_bytes_restore(ts: u64, s: StoreView, t: StoreView, bytes: Seq<u8>)
    requires
        finite_sets(s),
        holds_parts(bytes, snapshot_json(ts, s)),
    ensures
        loaded_from(t, bytes) == Some(t.restored(ts, s.data, s.index, s.collections)),
{
    lemma_snapshot_parts(ts, s);
    lemma_list_stays(bytes);
}

/// Loading the file of a snapshot, which is its MessagePack bytes compressed, gives back the
/// documents, the index and the collections that it was taken of, where the parts are read back as
/// they were written.
pub proof fn lemma_snapshot_file_restores(ts: u64, s: StoreView, t: StoreView, file: Seq<u8>)
    requires
        finite_sets(s),
        inflated(file) == Some(packed(snapshot_json(ts, s))),
        holds_parts(packed(snapshot_json(ts, s)), snapshot_json(ts, s)),
    ensures
        loaded_from_file(t, file) == Some(t.restored(ts, s.data, s.index, s.collections)),
{
    lemma_snapshot_bytes_restore(ts, s, t, packed(snapshot_json(ts, s)));
}

} // verus!
