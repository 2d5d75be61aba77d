//! What holds of the settings of a node, of its files, its log and its shard.
use crate::clock::ms_of;
use crate::config::{mode_of, number_or, text_if_any, text_or, FsyncMode};
use crate::decimal::{decimal, digit_of, lemma_decimal_parsed, number_of, parsed, unsigned};
use crate::dump::listing;
use crate::engine::{have_ids, snapshot_ts, total, AledbView};
use crate::files::{dated_since, latest, lemma_dated_since, lemma_path_keeps_ts, path_of, paths_of, ts_of_name, Dated, FileView};
use crate::json::{json_text, unpacked};
use crate::number::{valid_num, Num};
use crate::ordmap::{ascending, in_order, lemma_in_order_finite};
use crate::record::{delete_record, insert_record, patch_record};
use crate::shard::{fnv1a_of, owned};
use crate::snapshot::{index_json, keyed_json, set_json, snapshot_json};
use crate::store::StoreView;
use crate::text::{bytes_lt, differ_first_at, lemma_text_asymmetric, lemma_text_irreflexive, lowered, text_lt, text_rank, Rank};
use crate::value::{member, text_at, JsonView};
use crate::wal::{frame, le_bytes, lemma_le_number, WalView};
use vstd::prelude::*;
use vstd::utf8::encode_utf8;

verus! {

/// The digits of an integer: one for an integer below ten, and otherwise those of its tenth with one more
/// behind them, from `0` to `9`.
pub proof fn lemma_digits(n: nat)
    ensures
        n < 10 ==> decimal(n).len() == 1,
        n >= 10 ==> decimal(n).drop_last() == decimal(n / 10),
        decimal(n).len() > 0,
        decimal(n).last() as int == 48 + n % 10,
{
    if n >= 10 {
        assert(decimal(n).drop_last() =~= decimal(n / 10));
    }
}

/// A digit behind a text of digits that stands for `n` makes it stand for ten times `n` and the digit, as
/// far as 64 bits go, and anything else behind it makes it stand for nothing.
pub proof fn lemma_parsed_more(s: Seq<char>, n: u64, c: char)
    requires
        parsed(s) == Some(n),
    ensures
        '0' <= c <= '9' && 10 * n + (c as int - 48) <= u64::MAX ==> parsed(s.push(c)) is Some && parsed(s.push(c))->Some_0 as int == 10
            * n + (c as int - 48),
        '0' <= c <= '9' && 10 * n + (c as int - 48) > u64::MAX ==> parsed(s.push(c)) is None,
        !('0' <= c <= '9') ==> parsed(s.push(c)) is None,
{
    let d = unsigned(s);
    let e = unsigned(s.push(c));
    assert(e =~= d.push(c));
    assert(e.drop_last() =~= d);
    assert(e.last() == c);
    assert(e[d.len() as int] == c);
    if '0' <= c <= '9' {
        assert forall|i: int| 0 <= i < e.len() implies digit_of(#[trigger] e[i]) is Some by {
            if i < d.len() {
                assert(d[i] == e[i]);
            }
        }
        assert(number_of(e) == number_of(d) * 10 + (c as int - 48));
    } else {
        assert(digit_of(e[d.len() as int]) is None);
    }
}

/// A digit stands for itself, and a text without digits for nothing.
pub proof fn lemma_parsed_first(c: char)
    ensures
        '0' <= c <= '9' ==> parsed(seq![c]) is Some && parsed(seq![c])->Some_0 as int == c as int - 48,
        !('0' <= c <= '9') ==> parsed(seq![c]) is None,
        parsed(Seq::empty()) is None,
{
    let s = seq![c];
    assert(s.skip(1) =~= Seq::<char>::empty());
    assert(s.drop_last() =~= Seq::<char>::empty());
    assert(number_of(Seq::<char>::empty()) == 0);
    if '0' <= c <= '9' {
        assert(unsigned(s) == s);
        assert(number_of(s) == number_of(s.drop_last()) * 10 + (c as int - 48));
    } else {
        assert(digit_of(s[0]) is None);
    }
}

/// A variable that is set to the digits of an integer gives the integer, for every integer of 64 bits. One
/// that is not set, or to no integer, gives the default.
pub proof fn lemma_number_set(vars: Map<Seq<char>, String>, name: Seq<char>, n: u64, default: u64)
    ensures
        vars.contains_key(name) && vars[name]@ == decimal(n as nat) ==> number_or(vars, name, default) == n,
        !vars.contains_key(name) ==> number_or(vars, name, default) == default,
        vars.contains_key(name) && parsed(vars[name]@) is None ==> number_or(vars, name, default) == default,
{
    lemma_decimal_parsed(n);
}

/// A variable that is set gives its text, and one that is not the default. A text that may be missing is
/// missing where the variable is not set, or to the empty text.
pub proof fn lemma_text_set(vars: Map<Seq<char>, String>, name: Seq<char>, default: Seq<char>)
    ensures
        vars.contains_key(name) ==> text_or(vars, name, default) == vars[name]@,
        !vars.contains_key(name) ==> text_or(vars, name, default) == default && text_if_any(vars, name) is None,
        vars.contains_key(name) && vars[name]@.len() > 0 ==> text_if_any(vars, name) == Some(vars[name]@),
        vars.contains_key(name) && vars[name]@.len() == 0 ==> text_if_any(vars, name) is None,
{
    reveal_strlit("");
    if vars.contains_key(name) && vars[name]@.len() == 0 {
        assert(vars[name]@ =~= ""@);
    }
}

/// A text is a word, whatever the case of its letters: each character is that of the word, or 32 below it
/// where that is a letter from `a` to `z`.
pub open spec fn spells(s: Seq<char>, word: Seq<char>) -> bool {
    &&& s.len() == word.len()
    &&& forall|i: int| 0 <= i < s.len() ==> #[trigger] s[i] == word[i] || ('a' <= word[i] <= 'z' && s[i] as int + 32 == word[i] as int)
}

proof fn lemma_spells(s: Seq<char>, word: Seq<char>)
    requires
        forall|i: int| 0 <= i < word.len() ==> 'a' <= #[trigger] word[i] <= 'z',
    ensures
        lowered(s) == word <==> spells(s, word),
{
    if lowered(s) == word {
        assert(s.len() == lowered(s).len());
        assert forall|i: int| 0 <= i < s.len() implies #[trigger] s[i] == word[i] || ('a' <= word[i] <= 'z' && s[i] as int + 32
            == word[i] as int) by {
            assert(lowered(s)[i] == word[i]);
        }
    }
    if spells(s, word) {
        assert forall|i: int| 0 <= i < s.len() implies #[trigger] lowered(s)[i] == word[i] by {
            assert('a' <= word[i] <= 'z');
            assert(s[i] == word[i] || s[i] as int + 32 == word[i] as int);
        }
        assert(lowered(s) =~= word);
    }
}

/// The log is forced to disk always or never where the setting says so, in any case of its letters, and at
/// intervals otherwise.
pub proof fn lemma_mode(s: Seq<char>)
    ensures
        mode_of(s) == FsyncMode::Always <==> spells(s, "always"@),
        mode_of(s) == FsyncMode::Never <==> spells(s, "never"@),
        mode_of(s) == FsyncMode::Interval <==> !spells(s, "always"@) && !spells(s, "never"@),
{
    reveal_strlit("always");
    reveal_strlit("never");
    assert("always"@.len() == 6 && "never"@.len() == 5);
    assert("always"@[0] == 'a' && "always"@[1] == 'l' && "always"@[2] == 'w' && "always"@[3] == 'a' && "always"@[4] == 'y'
        && "always"@[5] == 's');
    assert("never"@[0] == 'n' && "never"@[1] == 'e' && "never"@[2] == 'v' && "never"@[3] == 'e' && "never"@[4] == 'r');
    lemma_spells(s, "always"@);
    lemma_spells(s, "never"@);
}

/// The clock gives the milliseconds since the epoch as they are as far as 64 bits go, and zero before the
/// epoch; from there on it begins again.
pub proof fn lemma_clock(ms: u128)
    ensures
        ms < 0x1_0000_0000_0000_0000 ==> ms_of(Some(ms)) as int == ms as int,
        ms + 0x1_0000_0000_0000_0000 <= u128::MAX ==> ms_of(Some((ms + 0x1_0000_0000_0000_0000) as u128)) == ms_of(Some(ms)),
        ms_of(None) == 0,
{
}

/// The hash of a byte more: the hash so far, with the byte, times the prime of 64 bits.
pub proof fn lemma_hash(bytes: Seq<u8>, b: u8)
    ensures
        fnv1a_of(Seq::empty()) == 0xcbf2_9ce4_8422_2325,
        fnv1a_of(bytes.push(b)) as int == (fnv1a_of(bytes) ^ (b as u64)) * 0x100_0000_01b3 % 0x1_0000_0000_0000_0000,
{
    assert(bytes.push(b).drop_last() =~= bytes);
    assert(bytes.push(b).last() == b);
}

/// A document belongs to the shard that the hash of its value's JSON text gives. It belongs to every shard
/// where there is but one, where there is no shard key, and where it has no value under it.
pub proof fn lemma_owned(total_shards: u64, shard: u64, key: Seq<char>, m: Map<Seq<char>, JsonView>)
    ensures
        total_shards <= 1 ==> owned(total_shards, shard, Some(key), JsonView::Object(m)),
        owned(total_shards, shard, None, JsonView::Object(m)),
        !m.contains_key(key) ==> owned(total_shards, shard, Some(key), JsonView::Object(m)),
        total_shards > 1 && m.contains_key(key) ==> (owned(total_shards, shard, Some(key), JsonView::Object(m)) <==> fnv1a_of(
            encode_utf8(json_text(m[key])),
        ) as int % total_shards as int == shard as int),
{
}

/// A record in the log is four bytes more than its payload, which comes last. The four bytes are its
/// length, lowest byte first, as far as 32 bits go.
pub proof fn lemma_frame(payload: Seq<u8>)
    ensures
        frame(payload).len() == payload.len() + 4,
        frame(payload).skip(4) == payload,
        payload.len() < 0x1_0000_0000 ==> frame(payload)[0] + 0x100 * frame(payload)[1] + 0x1_0000 * frame(payload)[2] + 0x100_0000
            * frame(payload)[3] == payload.len(),
{
    assert(frame(payload).skip(4) =~= payload);
    if payload.len() < 0x1_0000_0000 {
        lemma_le_number(payload.len(), payload);
        assert(frame(payload)[0] == le_bytes(payload.len())[0]);
    }
}

/// A record that is queued comes after all that are; the one that is written is the first of them, counts
/// with all its bytes, and leaves the others; a new file is the last one, and empty. Nothing else changes.
pub proof fn lemma_log_steps(w: WalView, payload: Seq<u8>, mode: FsyncMode, path: Seq<char>)
    requires
        w.queue.len() > 0,
        w.size + w.queue[0].len() <= u64::MAX,
    ensures
        w.queued(payload).queue == w.queue + seq![frame(payload)],
        w.queued(payload) == (WalView { queue: w.queued(payload).queue, ..w }),
        w.without_one() == (WalView { dropped: w.dropped + 1, ..w }),
        w.advanced(mode).size as int == w.size + w.queue[0].len(),
        w.queue == seq![w.queue[0]] + w.advanced(mode).queue,
        w.advanced(mode).pending_fsync <==> w.pending_fsync || (w.current is Some && mode == FsyncMode::Interval),
        w.advanced(mode).current == w.current && w.advanced(mode).paths == w.paths && w.advanced(mode).dropped == w.dropped,
        w.rotated(path).current == Some(path) && w.rotated(path).size == 0,
        w.rotated(path).paths == w.paths + seq![path],
        w.rotated(path).queue == w.queue && w.rotated(path).pending_fsync == w.pending_fsync && w.rotated(path).dropped == w.dropped,
{
    assert(w.queued(payload).queue =~= w.queue + seq![frame(payload)]);
    assert(w.queue =~= seq![w.queue[0]] + w.advanced(mode).queue);
    assert(w.rotated(path).paths =~= w.paths + seq![path]);
}

/// The sum of sizes: none is zero, one is itself, and those of two lists add up.
pub proof fn lemma_total(a: Seq<u64>, b: Seq<u64>, n: u64)
    ensures
        total(Seq::empty()) == 0,
        total(seq![n]) == n,
        total(a + b) == total(a) + total(b),
    decreases b.len(),
{
    assert(seq![n].drop_last() =~= Seq::<u64>::empty());
    assert(total(Seq::<u64>::empty()) == 0);
    if b.len() == 0 {
        assert(a + b =~= a);
    } else {
        lemma_total(a, b.drop_last(), n);
        assert((a + b).drop_last() =~= a + b.drop_last());
        assert((a + b).last() == b.last());
    }
}

/// A snapshot is due where the log has as many files as are set, or where they have as many megabytes, of
/// 1048576 bytes each, and not otherwise.
pub proof fn lemma_full(db: AledbView, sizes: Seq<u64>)
    ensures
        db.is_full(sizes) <==> db.wal.paths.len() >= db.config.compact_wal_count || total(sizes) >= db.config.compact_wal_mb * 1048576,
{
    let t = total(sizes);
    let n = db.config.compact_wal_mb as int;
    assert(t / 1048576 >= n <==> t >= n * 1048576);
}

/// The last file of a kind is one of those that are there, and none of its kind was begun later. There is
/// one where any of its kind was begun after moment zero.
pub proof fn lemma_latest(files: Seq<FileView>, kind: Seq<char>)
    ensures
        latest(files, kind) is None <==> forall|i: int|
            0 <= i < files.len() ==> !(ts_of_name((#[trigger] files[i]).name, kind) matches Some(ts) && ts > 0),
        latest(files, kind) matches Some(p) ==> exists|i: int| #[trigger] is_latest(files, kind, i) && files[i].path == p,
{
    let s = dated_since(files, kind, 0);
    lemma_dated_since(files, kind, 0);
    if s.len() == 0 {
        assert forall|i: int| 0 <= i < files.len() implies !(ts_of_name((#[trigger] files[i]).name, kind) matches Some(ts) && ts > 0) by {
            if ts_of_name(files[i].name, kind) matches Some(ts) && ts > 0 {
                let d = Dated { ts: ts_of_name(files[i].name, kind)->Some_0, path: files[i].path };
                assert(s.contains(d));
            }
        }
    } else {
        let d = s.last();
        assert(s[s.len() - 1] == d);
        assert(s.contains(d));
        let i = choose|i: int|
            0 <= i < files.len() && (#[trigger] files[i]).path == d.path && ts_of_name(files[i].name, kind) == Some(d.ts);
        assert forall|j: int| 0 <= j < files.len() implies (ts_of_name((#[trigger] files[j]).name, kind) matches Some(ts) ==> ts
            <= d.ts) by {
            if ts_of_name(files[j].name, kind) matches Some(ts) && ts > 0 {
                let e = Dated { ts: ts_of_name(files[j].name, kind)->Some_0, path: files[j].path };
                assert(s.contains(e));
                let k = choose|k: int| 0 <= k < s.len() && s[k] == e;
                if k < s.len() - 1 {
                    assert(s[k].ts <= s[s.len() - 1].ts);
                }
            }
        }
        assert(is_latest(files, kind, i));
    }
}

/// The file at `i` is of a kind, begun after moment zero, and none of the kind was begun later.
pub open spec fn is_latest(files: Seq<FileView>, kind: Seq<char>, i: int) -> bool {
    &&& 0 <= i < files.len()
    &&& ts_of_name(files[i].name, kind) is Some
    &&& ts_of_name(files[i].name, kind)->Some_0 > 0
    &&& forall|j: int|
        0 <= j < files.len() ==> (ts_of_name((#[trigger] files[j]).name, kind) matches Some(ts) ==> ts <= ts_of_name(
            files[i].name,
            kind,
        )->Some_0)
}

/// Files of one moment stay as they come.
pub proof fn lemma_one_moment(files: Seq<FileView>, kind: Seq<char>, since: u64, ts: u64)
    requires
        ts > since,
        forall|i: int| 0 <= i < files.len() ==> ts_of_name((#[trigger] files[i]).name, kind) == Some(ts),
    ensures
        paths_of(dated_since(files, kind, since)) == files.map_values(|f: FileView| f.path),
        forall|i: int| 0 <= i < files.len() ==> (#[trigger] dated_since(files, kind, since)[i]).ts == ts,
    decreases files.len(),
{
    let s = dated_since(files, kind, since);
    if files.len() > 0 {
        let less = files.drop_last();
        assert forall|i: int| 0 <= i < less.len() implies ts_of_name((#[trigger] less[i]).name, kind) == Some(ts) by {
            assert(less[i] == files[i]);
        }
        lemma_one_moment(less, kind, since, ts);
        let rest = dated_since(less, kind, since);
        assert(paths_of(rest).len() == less.len());
        assert(rest.len() == less.len());
        if rest.len() > 0 {
            assert(rest[rest.len() - 1].ts == ts);
        }
        assert(files[files.len() - 1] == files.last());
        assert(s == rest.push(Dated { ts, path: files.last().path }));
        assert forall|i: int| 0 <= i < files.len() implies paths_of(s)[i] == #[trigger] files[i].path by {
            if i < less.len() {
                assert(paths_of(rest)[i] == less.map_values(|f: FileView| f.path)[i]);
            }
        }
        assert(paths_of(s) =~= files.map_values(|f: FileView| f.path));
    } else {
        assert(paths_of(s) =~= files.map_values(|f: FileView| f.path));
    }
}

/// A snapshot is of the moment in its path, for every moment of 64 bits; without one it is zero.
pub proof fn lemma_snapshot_moment(dir: Seq<char>, ts: u64)
    ensures
        snapshot_ts(Some(path_of(dir, "snap"@, ts))) == ts,
        snapshot_ts(None) == 0,
{
    reveal_strlit("snap");
    assert("snap"@.len() == 4 && "snap"@[0] == 's' && "snap"@[1] == 'n' && "snap"@[2] == 'a' && "snap"@[3] == 'p');
    lemma_path_keeps_ts(dir, "snap"@, ts);
}

/// All documents come in order of their ids, each once.
pub proof fn lemma_listing(data: Map<Seq<char>, JsonView>)
    requires
        data.dom().finite(),
    ensures
        exists|ids: Seq<Seq<char>>| #[trigger] lists_all(data, ids, listing(data)),
{
    let ids = in_order(data.dom());
    lemma_in_order_finite(data.dom());
    assert forall|id: Seq<char>| #[trigger] ids.contains(id) <==> data.contains_key(id) by {
        assert(ids.to_set().contains(id) <==> ids.contains(id));
    }
    assert(lists_all(data, ids, listing(data)));
}

/// The documents are those under all ids, which come in order.
pub open spec fn lists_all(data: Map<Seq<char>, JsonView>, ids: Seq<Seq<char>>, docs: Seq<JsonView>) -> bool {
    &&& ascending(ids)
    &&& docs.len() == ids.len()
    &&& forall|id: Seq<char>| #[trigger] ids.contains(id) <==> data.contains_key(id)
    &&& forall|i: int| 0 <= i < ids.len() ==> docs[i] == data[#[trigger] ids[i]]
}

/// The record of an insertion has the document and, where it has one, the collection; that of a change the
/// id and the fields; that of a deletion the id. Each has the name of what was done.
pub proof fn lemma_records(id: Seq<char>, v: JsonView, c: Seq<char>)
    ensures
        ({
            let (a, b) = (insert_record(v, None), insert_record(v, Some(c)));
            let (p, d) = (patch_record(id, v), delete_record(id));
            &&& a is Object && a->Object_0.dom() == set!["op"@, "doc"@]
            &&& a->Object_0["op"@] == JsonView::String("insert"@) && a->Object_0["doc"@] == v
            &&& b is Object && b->Object_0.dom() == set!["op"@, "doc"@, "collection"@]
            &&& b->Object_0["op"@] == JsonView::String("insert"@) && b->Object_0["doc"@] == v && b->Object_0["collection"@]
                == JsonView::String(c)
            &&& p is Object && p->Object_0.dom() == set!["op"@, "id"@, "fields"@]
            &&& p->Object_0["op"@] == JsonView::String("patch"@) && p->Object_0["id"@] == JsonView::String(id)
                && p->Object_0["fields"@] == v
            &&& d is Object && d->Object_0.dom() == set!["op"@, "id"@]
            &&& d->Object_0["op"@] == JsonView::String("delete"@) && d->Object_0["id"@] == JsonView::String(id)
        }),
{
    reveal_strlit("op");
    reveal_strlit("id");
    reveal_strlit("doc");
    reveal_strlit("fields");
    reveal_strlit("collection");
    assert("op"@.len() == 2 && "id"@.len() == 2 && "doc"@.len() == 3 && "fields"@.len() == 6 && "collection"@.len() == 10);
    assert("op"@[0] == 'o' && "id"@[0] == 'i');
    assert(insert_record(v, None)->Object_0.dom() =~= set!["op"@, "doc"@]);
    assert(insert_record(v, Some(c))->Object_0.dom() =~= set!["op"@, "doc"@, "collection"@]);
    assert(patch_record(id, v)->Object_0.dom() =~= set!["op"@, "id"@, "fields"@]);
    assert(delete_record(id)->Object_0.dom() =~= set!["op"@, "id"@]);
}

/// Replaying what is no record of an insertion, a change or a deletion, or what lacks its document, its
/// fields or the id to change or to delete, does nothing. Only a document to insert that has no id is an
/// error.
pub proof fn lemma_replay_passes(s: StoreView, op: JsonView, ts: u64)
    ensures
        text_at(op, "op"@) is None ==> s.replayed(op, ts) == Some(s),
        text_at(op, "op"@) matches Some(n) ==> n != "insert"@ && n != "patch"@ && n != "delete"@ ==> s.replayed(op, ts) == Some(s),
        text_at(op, "op"@) == Some("insert"@) && member(op, "doc"@) is None ==> s.replayed(op, ts) == Some(s),
        text_at(op, "op"@) == Some("patch"@) && !(text_at(op, "id"@) is Some && member(op, "fields"@) is Some) ==> s.replayed(
            op,
            ts,
        ) == Some(s),
        text_at(op, "op"@) == Some("delete"@) && text_at(op, "id"@) is None ==> s.replayed(op, ts) == Some(s),
        s.replayed(op, ts) is None <==> text_at(op, "op"@) == Some("insert"@) && (member(op, "doc"@) matches Some(doc) && text_at(
            doc,
            "id"@,
        ) is None),
{
    reveal_strlit("insert");
    reveal_strlit("patch");
    reveal_strlit("delete");
    assert("insert"@.len() == 6 && "patch"@.len() == 5 && "delete"@.len() == 6);
    assert("insert"@[0] == 'i' && "delete"@[0] == 'd');
}

/// A snapshot is a list of its moment, the documents by id, the index by field and key, and the collections
/// by name; each set of ids is a list of them in order.
pub proof fn lemma_snapshot(ts: u64, s: StoreView, field: Seq<char>, key: Seq<char>)
    ensures
        ({
            let v = snapshot_json(ts, s);
            let a = v->Array_0;
            &&& v is Array && a.len() == 4
            &&& a[0] == JsonView::Number(Num::PosInt(ts))
            &&& a[1] == JsonView::Object(s.data)
            &&& a[2] is Object && a[2]->Object_0.dom() == s.index.dom()
            &&& s.index.contains_key(field) ==> a[2]->Object_0[field] is Object && a[2]->Object_0[field]->Object_0.dom()
                == s.index[field].dom()
            &&& s.index.contains_key(field) && s.index[field].contains_key(key) ==> a[2]->Object_0[field]->Object_0[key] == set_json(
                s.index[field][key],
            )
            &&& a[3] is Object && a[3]->Object_0.dom() == s.collections.dom()
            &&& s.collections.contains_key(key) ==> a[3]->Object_0[key] == set_json(s.collections[key])
        }),
{
    assert(index_json(s.index)->Object_0.dom() =~= s.index.dom());
    assert(keyed_json(s.collections)->Object_0.dom() =~= s.collections.dom());
    if s.index.contains_key(field) {
        assert(keyed_json(s.index[field])->Object_0.dom() =~= s.index[field].dom());
    }
}

/// A set of ids as a value lists each of them once, in order, as a text.
pub proof fn lemma_set_value(ids: Set<Seq<char>>)
    requires
        ids.finite(),
    ensures
        set_json(ids) is Array,
        exists|list: Seq<Seq<char>>| #[trigger] lists_set(ids, list, set_json(ids)->Array_0),
{
    let list = in_order(ids);
    lemma_in_order_finite(ids);
    assert forall|id: Seq<char>| #[trigger] list.contains(id) <==> ids.contains(id) by {
        assert(list.to_set().contains(id) <==> list.contains(id));
    }
    assert(lists_set(ids, list, set_json(ids)->Array_0));
}

/// The values are the members of a set as texts, in order.
pub open spec fn lists_set(ids: Set<Seq<char>>, list: Seq<Seq<char>>, values: Seq<JsonView>) -> bool {
    &&& ascending(list)
    &&& values.len() == list.len()
    &&& forall|id: Seq<char>| #[trigger] list.contains(id) <==> ids.contains(id)
    &&& forall|i: int| 0 <= i < list.len() ==> values[i] == JsonView::String(#[trigger] list[i])
}

/// A store into which a snapshot is loaded has the documents, the index and the collections of the snapshot,
/// and all documents are modified at its moment. What was noted of other moments stays.
pub proof fn lemma_restore(s: StoreView, ts: u64, t: StoreView, id: Seq<char>, other: u64)
    ensures
        ({
            let r = s.restored(ts, t.data, t.index, t.collections);
            &&& r.data == t.data && r.index == t.index && r.collections == t.collections
            &&& r.modified_at.contains_key(id) <==> t.data.contains_key(id)
            &&& t.data.contains_key(id) ==> r.modified_at[id] == ts
            &&& r.modified_ts.contains_key(ts) && r.modified_ts[ts] == t.data.dom()
            &&& other != ts ==> r.modified_ts.contains_key(other) == s.modified_ts.contains_key(other)
            &&& other != ts && s.modified_ts.contains_key(other) ==> r.modified_ts[other] == s.modified_ts[other]
        }),
{
}

/// Texts compare by their bytes: at the first place where they differ the smaller byte comes first, and a
/// text that has ended there comes before one that goes on.
pub proof fn lemma_texts_compared(a: Seq<char>, b: Seq<char>, i: int)
    requires
        0 <= i <= encode_utf8(a).len(),
        i < encode_utf8(b).len(),
        forall|j: int| 0 <= j < i ==> encode_utf8(a)[j] == encode_utf8(b)[j],
        i == encode_utf8(a).len() || encode_utf8(a)[i] < encode_utf8(b)[i],
    ensures
        text_lt(a, b),
        text_rank(a, b) == Rank::Less,
        text_rank(b, a) == Rank::Greater,
{
    assert(differ_first_at(encode_utf8(a), encode_utf8(b), i));
    assert(bytes_lt(encode_utf8(a), encode_utf8(b)));
    if a == b {
        lemma_text_irreflexive(a);
    }
    lemma_text_asymmetric(a, b);
}

/// Replaying the record of an insertion stores its document under the id in it and puts the id in the
/// collection; that of a change gives a document that is there the fields; that of a deletion takes the
/// document away, and its id out of every collection, even where there is no document.
pub proof fn lemma_replay_does(s: StoreView, op: JsonView, ts: u64, id: Seq<char>, v: JsonView, c: Seq<char>, x: Seq<char>)
    ensures
        text_at(op, "op"@) == Some("insert"@) && member(op, "doc"@) == Some(v) && text_at(v, "id"@) == Some(id) ==> s.replayed(op, ts)
            == Some(s.inserted(id, v, text_at(op, "collection"@), ts)),
        text_at(op, "op"@) == Some("patch"@) && text_at(op, "id"@) == Some(id) && member(op, "fields"@) == Some(v) ==> s.replayed(
            op,
            ts,
        ) == Some(s.patched(id, v, ts)),
        text_at(op, "op"@) == Some("delete"@) && text_at(op, "id"@) == Some(id) ==> {
            let t = s.replayed(op, ts)->Some_0;
            &&& s.replayed(op, ts) is Some
            &&& !t.data.contains_key(id)
            &&& x != id ==> t.data.contains_key(x) == s.data.contains_key(x)
            &&& x != id && s.data.contains_key(x) ==> t.data[x] == s.data[x]
            &&& t.collections.contains_key(c) == s.collections.contains_key(c)
            &&& s.collections.contains_key(c) ==> (t.collections[c].contains(x) <==> x != id && s.collections[c].contains(x))
        },
{
    reveal_strlit("insert");
    reveal_strlit("patch");
    reveal_strlit("delete");
    assert("insert"@.len() == 6 && "patch"@.len() == 5 && "delete"@.len() == 6);
    assert("insert"@[0] == 'i' && "delete"@[0] == 'd');
}

/// Replaying a log is replaying its first part and then the rest, unless the first part fails, where it
/// stops. Each record is replayed once, and one that holds no value is passed over.
pub proof fn lemma_replay_in_turn(s: StoreView, a: Seq<Seq<u8>>, b: Seq<Seq<u8>>, times: Seq<u64>)
    requires
        a.len() + b.len() <= times.len(),
    ensures
        s.replay(Seq::empty(), times) == (s, false),
        s.replay(a, times).1 ==> s.replay(a + b, times) == s.replay(a, times),
        !s.replay(a, times).1 ==> s.replay(a + b, times) == s.replay(a, times).0.replay(b, times.skip(a.len() as int)),
        a.len() == 1 && unpacked(a[0]) is None ==> s.replay(a, times) == (s, false),
        a.len() == 1 && unpacked(a[0]) is Some ==> match s.replayed(unpacked(a[0])->Some_0, times[0]) {
            Some(t) => s.replay(a, times) == (t, false),
            None => s.replay(a, times) == (s, true),
        },
    decreases b.len(),
{
    if a.len() == 1 {
        assert(a.drop_last() =~= Seq::<Seq<u8>>::empty());
        assert(a.last() == a[0]);
        assert(s.replay(Seq::empty(), times) == (s, false));
    }
    if b.len() == 0 {
        assert(a + b =~= a);
    } else {
        lemma_replay_in_turn(s, a, b.drop_last(), times);
        assert((a + b).drop_last() =~= a + b.drop_last());
        assert((a + b).last() == b.last());
        assert(times.skip(a.len() as int)[b.len() - 1] == times[a.len() + b.len() - 1]);
    }
}

/// A double is finite where the eleven bits above the lowest fifty-two are not all set.
pub proof fn lemma_finite_double(bits: u64)
    ensures
        valid_num(Num::Float(bits)) <==> (bits / 0x10_0000_0000_0000) % 2048 != 2047,
{
}

/// A `+` may come before the digits of an integer, once.
pub proof fn lemma_parsed_plus(s: Seq<char>)
    ensures
        s.len() > 0 && s[0] != '+' ==> parsed(seq!['+'] + s) == parsed(s),
        s.len() == 0 || s[0] == '+' ==> parsed(seq!['+'] + s) is None,
{
    let t = seq!['+'] + s;
    assert(t[0] == '+');
    assert(t.skip(1) =~= s);
    if s.len() > 0 && s[0] == '+' {
        assert(digit_of(s[0]) is None);
    }
}

/// Documents have ids where each is an object with a text under `id`.
pub proof fn lemma_have_ids(docs: Seq<JsonView>)
    ensures
        have_ids(docs) <==> forall|i: int|
            0 <= i < docs.len() ==> (#[trigger] docs[i]) is Object && docs[i]->Object_0.contains_key("id"@)
                && docs[i]->Object_0["id"@] is String,
{
    if forall|i: int|
        0 <= i < docs.len() ==> (#[trigger] docs[i]) is Object && docs[i]->Object_0.contains_key("id"@)
            && docs[i]->Object_0["id"@] is String {
        assert forall|i: int| 0 <= i < docs.len() implies text_at(#[trigger] docs[i], "id"@) is Some by {
            assert(docs[i] is Object);
        }
    }
    if have_ids(docs) {
        assert forall|i: int| 0 <= i < docs.len() implies (#[trigger] docs[i]) is Object && docs[i]->Object_0.contains_key(
            "id"@,
        ) && docs[i]->Object_0["id"@] is String by {
            assert(text_at(docs[i], "id"@) is Some);
        }
    }
}

/// The next record can be counted where the size at which a new file is begun, and that of the log with the
/// record, fit in 64 bits.
pub proof fn lemma_can_step(db: AledbView)
    ensures
        db.can_step() <==> db.config.segment_max_mb * 1048576 <= u64::MAX && (db.wal.queue.len() == 0 || db.wal.size
            + db.wal.queue[0].len() <= u64::MAX),
{
}

} // verus!
