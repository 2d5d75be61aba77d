//! A node that is started again has what it had, whatever was changed, logged and compacted before.
use crate::decimal::decimal;
use crate::engine::snapshot_ts;
use crate::files::{by_time, dated_since, latest, lemma_dated_since, lemma_path_keeps_ts, lemma_snapshot_stays, outdated, path_of, paths_of, put_by_time, ts_of_name, Dated, FileView};
use crate::json::{holds_parts, inflated, nested_within, packed, parts_keep, unmarked, unpacked, PACK_DEPTH};
use crate::recency::{climbing, lemma_moments_unique};
use crate::recovery::{lemma_record_replays, lemma_times_do_not_matter, same_but_times, Change};
use crate::replication::lemma_finite_sets_kept;
use crate::snapshot::{finite_sets, index_json, keyed_json, lemma_snapshot_file_restores, lemma_snapshot_parts, loaded_from_file, set_json, snapshot_json};
use crate::store::StoreView;
use crate::value::JsonView;
use crate::wal::{frame, frames, lemma_frames_read, lemma_payloads, payloads};
use vstd::prelude::*;

verus! {

/// A file of a node: the moment at which it was begun, and its bytes.
pub struct Segment {
    pub ts: u64,
    pub bytes: Seq<u8>,
}

/// The files of a node: its snapshot, and its logs in the order in which they were begun.
pub struct Folder {
    pub snapshot: Option<Segment>,
    pub logs: Seq<Segment>,
}

/// A node with its files.
pub struct Node {
    pub store: StoreView,
    pub folder: Folder,
}

/// What happens to a node.
pub enum Event {
    /// A change is made at a moment, and its record, with this payload, is written to the last log.
    Changed { change: Change, ts: u64, payload: Seq<u8> },
    /// A log is begun at a moment. One that was begun at the same moment is written on.
    Rotated { ts: u64 },
    /// A snapshot is written at a moment, with these bytes. The one before it and all logs are
    /// removed, and a log is begun at the moment `next`.
    Compacted { ts: u64, file: Seq<u8>, next: u64 },
    /// The node is started again, the records of its logs replayed at these moments, and a log is
    /// begun at the moment `ts`.
    Restarted { later: Seq<Seq<u64>>, ts: u64 },
}

impl Node {
    /// A node that is started with an empty directory, and begins a log.
    pub open spec fn begun(ts: u64) -> Node {
        Node {
            store: StoreView::empty(),
            folder: Folder { snapshot: None, logs: seq![Segment { ts, bytes: Seq::empty() }] },
        }
    }

    /// The event can happen while reading and writing succeed and the clock does not go back: records
    /// and snapshots can be read back, and a log is begun after the snapshot that it follows.
    pub open spec fn allows(self, e: Event) -> bool {
        match e {
            Event::Changed { change, ts: _, payload } => {
                &&& change.recorded(self.store)
                &&& unpacked(payload) == Some(change.record())
                &&& payload.len() <= u32::MAX
            },
            Event::Rotated { ts } => self.folder.logs.last().ts <= ts,
            Event::Restarted { later: _, ts } => self.folder.logs.last().ts <= ts,
            Event::Compacted { ts, file, next } => {
                let v = snapshot_json(ts, self.store);
                &&& 0 < ts < next
                &&& inflated(file) == Some(packed(v))
                &&& holds_parts(packed(v), v)
            },
        }
    }

    /// The node after an event.
    pub open spec fn after(self, e: Event) -> Node {
        let logs = self.folder.logs;
        match e {
            Event::Changed { change, ts, payload } => {
                let last = Segment { ts: logs.last().ts, bytes: logs.last().bytes + frame(payload) };
                Node {
                    store: self.store.changed(change, ts),
                    folder: Folder { logs: logs.drop_last().push(last), ..self.folder },
                }
            },
            Event::Rotated { ts } => Node { folder: self.folder.rotated(ts), ..self },
            Event::Restarted { later, ts } => Node { store: self.folder.restarted(later), folder: self.folder.rotated(ts) },
            Event::Compacted { ts, file, next } => Node {
                folder: Folder {
                    snapshot: Some(Segment { ts, bytes: file }),
                    logs: seq![Segment { ts: next, bytes: Seq::empty() }],
                },
                ..self
            },
        }
    }

    /// The node after several events.
    pub open spec fn run(self, events: Seq<Event>) -> Node
        decreases events.len(),
    {
        if events.len() == 0 {
            self
        } else {
            self.run(events.drop_last()).after(events.last())
        }
    }

    /// The events can happen one after another.
    pub open spec fn allows_all(self, events: Seq<Event>) -> bool {
        forall|i: int| 0 <= i < events.len() ==> self.run(events.take(i)).allows(#[trigger] events[i])
    }
}

impl Folder {
    /// A log is begun at a moment, where the last one was not.
    pub open spec fn rotated(self, ts: u64) -> Folder {
        if ts == self.logs.last().ts {
            self
        } else {
            Folder { logs: self.logs.push(Segment { ts, bytes: Seq::empty() }), ..self }
        }
    }

    /// What a node that is started has of its snapshot.
    pub open spec fn base(self) -> StoreView {
        match self.snapshot {
            Some(f) => match loaded_from_file(StoreView::empty(), f.bytes) {
                Some(s) => s,
                None => StoreView::empty(),
            },
            None => StoreView::empty(),
        }
    }

    /// What a node that is started has once the first `n` logs have been replayed, each record at its
    /// moment, and whether the last of them failed.
    pub open spec fn replayed(self, n: nat, later: Seq<Seq<u64>>) -> (StoreView, bool)
        decreases n,
    {
        if n == 0 {
            (self.base(), false)
        } else {
            self.replayed((n - 1) as nat, later).0.replay(payloads(self.logs[n - 1].bytes), later[n - 1])
        }
    }

    /// What a node that is started has: its snapshot, and the logs replayed one after another.
    pub open spec fn restarted(self, later: Seq<Seq<u64>>) -> StoreView {
        self.replayed(self.logs.len(), later).0
    }

    /// The moment of the snapshot, or zero.
    pub open spec fn since(self) -> u64 {
        match self.snapshot {
            Some(f) => f.ts,
            None => 0,
        }
    }

    /// The logs were begun one after another, after the snapshot, which was begun after moment zero.
    pub open spec fn orderly(self) -> bool {
        &&& self.snapshot matches Some(f) ==> f.ts > 0
        &&& forall|i: int| 0 <= i < self.logs.len() ==> (#[trigger] self.logs[i]).ts > self.since()
        &&& forall|i: int, j: int| 0 <= i < j < self.logs.len() ==> (#[trigger] self.logs[i]).ts < (#[trigger] self.logs[j]).ts
    }
}

/// The bytes are whole records.
spec fn is_framed(bytes: Seq<u8>) -> bool {
    exists|list: Seq<Seq<u8>>| bytes == #[trigger] frames(list) && short(list)
}

/// The lengths of payloads fit in 32 bits.
spec fn short(list: Seq<Seq<u8>>) -> bool {
    forall|i: int| 0 <= i < list.len() ==> (#[trigger] list[i]).len() <= u32::MAX
}

/// A node that is started with these files has what the node has, and the last log can be written on.
spec fn recoverable(n: Node) -> bool {
    &&& n.folder.logs.len() > 0
    &&& n.folder.orderly()
    &&& finite_sets(n.store)
    &&& is_framed(n.folder.logs.last().bytes)
    &&& forall|later: Seq<Seq<u64>>| #[trigger]
        same_but_times(n.folder.restarted(later), n.store) && !n.folder.replayed(n.folder.logs.len(), later).1
}

/// Logs before the last one are replayed alike whatever the last one holds.
proof fn lemma_replayed_prefix(a: Folder, b: Folder, n: nat, later: Seq<Seq<u64>>)
    requires
        a.snapshot == b.snapshot,
        n <= a.logs.len(),
        n <= b.logs.len(),
        forall|i: int| 0 <= i < n ==> a.logs[i] == b.logs[i],
    ensures
        a.replayed(n, later) == b.replayed(n, later),
    decreases n,
{
    if n > 0 {
        lemma_replayed_prefix(a, b, (n - 1) as nat, later);
    }
}

/// An empty log is whole, and has nothing to replay.
proof fn lemma_empty_log()
    ensures
        is_framed(Seq::empty()),
        payloads(Seq::empty()) == Seq::<Seq<u8>>::empty(),
{
    let none = Seq::<Seq<u8>>::empty();
    assert(short(none));
    assert(frames(none) == Seq::<u8>::empty());
    lemma_payloads(Seq::empty());
}

/// A record that is written to a whole log is read after the others.
proof fn lemma_log_more(bytes: Seq<u8>, payload: Seq<u8>)
    requires
        is_framed(bytes),
        payload.len() <= u32::MAX,
    ensures
        is_framed(bytes + frame(payload)),
        payloads(bytes + frame(payload)) == payloads(bytes).push(payload),
{
    let list = choose|list: Seq<Seq<u8>>| bytes == #[trigger] frames(list) && short(list);
    let more = list.push(payload);
    assert(more.drop_last() =~= list);
    assert(frames(more) == bytes + frame(payload));
    assert(short(more));
    lemma_empty_log();
    lemma_frames_read(list, Seq::empty());
    lemma_frames_read(more, Seq::empty());
    assert(frames(list) + Seq::<u8>::empty() =~= frames(list));
    assert(frames(more) + Seq::<u8>::empty() =~= frames(more));
    assert(list + Seq::<Seq<u8>>::empty() =~= list);
    assert(more + Seq::<Seq<u8>>::empty() =~= more);
}

proof fn lemma_changed_recoverable(n: Node, change: Change, ts: u64, payload: Seq<u8>)
    requires
        recoverable(n),
        n.allows(Event::Changed { change, ts, payload }),
    ensures
        recoverable(n.after(Event::Changed { change, ts, payload })),
{
    let m = n.after(Event::Changed { change, ts, payload });
    let (a, b) = (n.folder, m.folder);
    let k = (a.logs.len() - 1) as nat;
    lemma_log_more(a.logs.last().bytes, payload);
    assert(b.logs.last().bytes == a.logs.last().bytes + frame(payload));
    match change {
        Change::Insert { id, doc, collection } => {
            lemma_finite_sets_kept(n.store, id, doc, collection, ts);
        },
        Change::Patch { id, patch } => {
            lemma_finite_sets_kept(n.store, id, patch, None, ts);
        },
        Change::Delete { id } => {
            lemma_finite_sets_kept(n.store, id, JsonView::Null, None, ts);
        },
    }
    assert forall|later: Seq<Seq<u64>>| #[trigger]
        same_but_times(b.restarted(later), m.store) && !b.replayed(b.logs.len(), later).1 by {
        assert(same_but_times(a.restarted(later), n.store));
        lemma_replayed_prefix(a, b, k, later);
        let before = a.replayed(k, later).0;
        let list = payloads(a.logs.last().bytes);
        let r = before.replay(list, later[k as int]);
        assert(r == a.replayed(a.logs.len(), later));
        let t = later[k as int][list.len() as int];
        lemma_times_do_not_matter(r.0, n.store, change, t, ts);
        lemma_record_replays(r.0, change, t);
        assert(list.push(payload).drop_last() =~= list);
        assert(before.replay(list.push(payload), later[k as int]) == (r.0.changed(change, t), false));
        assert(b.replayed(b.logs.len(), later) == (r.0.changed(change, t), false));
    }
    assert(b.orderly()) by {
        assert forall|i: int| 0 <= i < b.logs.len() implies (#[trigger] b.logs[i]).ts == a.logs[i].ts by {}
    }
}

proof fn lemma_rotated_recoverable(n: Node, ts: u64)
    requires
        recoverable(n),
        n.allows(Event::Rotated { ts }),
    ensures
        recoverable(n.after(Event::Rotated { ts })),
{
    let m = n.after(Event::Rotated { ts });
    let (a, b) = (n.folder, m.folder);
    if ts != a.logs.last().ts {
        lemma_empty_log();
        assert forall|later: Seq<Seq<u64>>| #[trigger]
            same_but_times(b.restarted(later), m.store) && !b.replayed(b.logs.len(), later).1 by {
            assert(same_but_times(a.restarted(later), n.store));
            lemma_replayed_prefix(a, b, a.logs.len(), later);
        }
        assert(b.orderly()) by {
            assert forall|i: int, j: int| 0 <= i < j < b.logs.len() implies (#[trigger] b.logs[i]).ts < (#[trigger] b.logs[j]).ts by {
                assert(b.logs[i] == a.logs[i]);
                let last = a.logs.len() - 1;
                if j < a.logs.len() {
                    assert(b.logs[j] == a.logs[j]);
                } else if i < last {
                    assert(a.logs[i].ts < a.logs[last].ts);
                }
            }
            assert forall|i: int| 0 <= i < b.logs.len() implies (#[trigger] b.logs[i]).ts > b.since() by {
                if i < a.logs.len() {
                    assert(b.logs[i] == a.logs[i]);
                } else {
                    assert(a.logs[a.logs.len() - 1].ts > a.since());
                }
            }
        }
    }
}

/// What a node has once it is started again can be had again from the same files.
proof fn lemma_restarted_recoverable(n: Node, later: Seq<Seq<u64>>)
    requires
        recoverable(n),
    ensures
        recoverable(Node { store: n.folder.restarted(later), ..n }),
{
    let m = Node { store: n.folder.restarted(later), ..n };
    assert(same_but_times(n.folder.restarted(later), n.store));
    assert forall|again: Seq<Seq<u64>>| #[trigger]
        same_but_times(m.folder.restarted(again), m.store) && !m.folder.replayed(m.folder.logs.len(), again).1 by {
        assert(same_but_times(n.folder.restarted(again), n.store));
    }
}

proof fn lemma_compacted_recoverable(n: Node, ts: u64, file: Seq<u8>, next: u64)
    requires
        recoverable(n),
        n.allows(Event::Compacted { ts, file, next }),
    ensures
        recoverable(n.after(Event::Compacted { ts, file, next })),
{
    let m = n.after(Event::Compacted { ts, file, next });
    let b = m.folder;
    lemma_empty_log();
    lemma_snapshot_file_restores(ts, n.store, StoreView::empty(), file);
    assert forall|later: Seq<Seq<u64>>| #[trigger]
        same_but_times(b.restarted(later), m.store) && !b.replayed(b.logs.len(), later).1 by {
        assert(b.replayed(0, later) == (b.base(), false));
        assert(b.replayed(1, later) == (b.base(), false));
    }
}

proof fn lemma_run_recoverable(ts: u64, events: Seq<Event>)
    requires
        ts > 0,
        Node::begun(ts).allows_all(events),
    ensures
        recoverable(Node::begun(ts).run(events)),
    decreases events.len(),
{
    let start = Node::begun(ts);
    if events.len() == 0 {
        let b = start.folder;
        lemma_empty_log();
        lemma_finite_sets_kept(StoreView::empty(), Seq::empty(), JsonView::Null, None, 0);
        assert forall|later: Seq<Seq<u64>>| #[trigger]
            same_but_times(b.restarted(later), start.store) && !b.replayed(b.logs.len(), later).1 by {
            assert(b.replayed(0, later) == (b.base(), false));
            assert(b.replayed(1, later) == (b.base(), false));
        }
    } else {
        let less = events.drop_last();
        let e = events.last();
        assert forall|i: int| 0 <= i < less.len() implies start.run(less.take(i)).allows(#[trigger] less[i]) by {
            assert(less.take(i) =~= events.take(i));
            assert(start.run(events.take(i)).allows(events[i]));
        }
        lemma_run_recoverable(ts, less);
        let n = start.run(less);
        assert(events.take(events.len() - 1) =~= less);
        assert(n.allows(events[events.len() - 1]));
        match e {
            Event::Changed { change, ts, payload } => lemma_changed_recoverable(n, change, ts, payload),
            Event::Rotated { ts } => lemma_rotated_recoverable(n, ts),
            Event::Restarted { later, ts } => {
                lemma_restarted_recoverable(n, later);
                lemma_rotated_recoverable(Node { store: n.folder.restarted(later), ..n }, ts);
            },
            Event::Compacted { ts, file, next } => lemma_compacted_recoverable(n, ts, file, next),
        }
    }
}

/// A node that was started with an empty directory, and to which anything happened since, has, once it
/// is started again with its files, the documents, the index and the collections that it had.
pub proof fn lemma_restart(ts: u64, events: Seq<Event>, later: Seq<Seq<u64>>)
    requires
        ts > 0,
        Node::begun(ts).allows_all(events),
    ensures
        ({
            let n = Node::begun(ts).run(events);
            &&& same_but_times(n.folder.restarted(later), n.store)
            &&& n.folder.orderly()
        }),
{
    lemma_run_recoverable(ts, events);
    let n = Node::begun(ts).run(events);
    assert(same_but_times(n.folder.restarted(later), n.store));
}

/// The name of a file of a kind that was begun at a moment.
pub open spec fn segment_name(kind: Seq<char>, ts: u64) -> Seq<char> {
    kind + "_"@ + decimal(ts as nat) + ".msgpack"@
}

/// A file in a directory.
pub open spec fn segment_file(dir: Seq<char>, kind: Seq<char>, ts: u64) -> FileView {
    FileView { name: segment_name(kind, ts), path: path_of(dir, kind, ts) }
}

/// The list shows the files of a folder in a directory, each once, in any order, and no others.
pub open spec fn shows(files: Seq<FileView>, dir: Seq<char>, folder: Folder) -> bool {
    &&& forall|i: int, j: int| 0 <= i < j < files.len() ==> (#[trigger] files[i]).path != (#[trigger] files[j]).path
    &&& forall|f: FileView| #[trigger] files.contains(f) <==> is_of(f, dir, folder)
}

/// The file is one of a folder in a directory.
pub open spec fn is_of(f: FileView, dir: Seq<char>, folder: Folder) -> bool {
    ||| folder.snapshot matches Some(s) && f == segment_file(dir, "snap"@, s.ts)
    ||| exists|k: int| 0 <= k < folder.logs.len() && f == segment_file(dir, "wal"@, (#[trigger] folder.logs[k]).ts)
}

proof fn lemma_put_once(s: Seq<Dated>, x: Dated)
    requires
        s.no_duplicates(),
        !s.contains(x),
    ensures
        put_by_time(s, x).no_duplicates(),
        forall|y: Dated| #[trigger] put_by_time(s, x).contains(y) ==> s.contains(y) || y == x,
    decreases s.len(),
{
    let t = put_by_time(s, x);
    if s.len() == 0 || s.last().ts <= x.ts {
        assert forall|i: int| 0 <= i < s.len() implies #[trigger] s[i] != x by {
            assert(s.contains(s[i]));
        }
        assert forall|y: Dated| #[trigger] t.contains(y) implies s.contains(y) || y == x by {
            let i = choose|i: int| 0 <= i < t.len() && t[i] == y;
            if i < s.len() {
                assert(s[i] == y);
            }
        }
    } else {
        let u = s.drop_last();
        let v = put_by_time(u, x);
        if u.contains(x) {
            let i = choose|i: int| 0 <= i < u.len() && u[i] == x;
            assert(s[i] == x);
        }
        lemma_put_once(u, x);
        assert forall|i: int| 0 <= i < v.len() implies #[trigger] v[i] != s.last() by {
            assert(v.contains(v[i]));
            if u.contains(v[i]) {
                let j = choose|j: int| 0 <= j < u.len() && u[j] == v[i];
                assert(s[j] == v[i]);
                assert(s[s.len() - 1] == s.last());
            } else {
                assert(s.contains(s[s.len() - 1]));
            }
        }
        assert forall|y: Dated| #[trigger] t.contains(y) implies s.contains(y) || y == x by {
            let i = choose|i: int| 0 <= i < t.len() && t[i] == y;
            if i < v.len() {
                assert(v[i] == y);
                assert(v.contains(y));
                if u.contains(y) {
                    let j = choose|j: int| 0 <= j < u.len() && u[j] == y;
                    assert(s[j] == y);
                }
            } else {
                assert(s[s.len() - 1] == y);
            }
        }
    }
}

/// Files with different paths are picked once each.
proof fn lemma_dated_once(files: Seq<FileView>, kind: Seq<char>, since: u64)
    requires
        forall|i: int, j: int| 0 <= i < j < files.len() ==> (#[trigger] files[i]).path != (#[trigger] files[j]).path,
    ensures
        dated_since(files, kind, since).no_duplicates(),
    decreases files.len(),
{
    if files.len() > 0 {
        let less = files.drop_last();
        let f = files.last();
        assert forall|i: int, j: int| 0 <= i < j < less.len() implies (#[trigger] less[i]).path != (#[trigger] less[j]).path by {
            assert(less[i] == files[i] && less[j] == files[j]);
        }
        lemma_dated_once(less, kind, since);
        let rest = dated_since(less, kind, since);
        if let Some(ts) = ts_of_name(f.name, kind) {
            if ts > since {
                let x = Dated { ts, path: f.path };
                if rest.contains(x) {
                    lemma_dated_since(less, kind, since);
                    let i = choose|i: int|
                        0 <= i < less.len() && (#[trigger] less[i]).path == x.path && ts_of_name(less[i].name, kind) == Some(
                            x.ts,
                        );
                    assert(files[i] == less[i]);
                    assert(files[i].path != files[files.len() - 1].path);
                }
                lemma_put_once(rest, x);
            }
        }
    }
}

/// Lists in strict order of time that hold the same files are the same.
proof fn lemma_dated_same(a: Seq<Dated>, b: Seq<Dated>)
    requires
        by_time(a),
        a.no_duplicates(),
        forall|i: int, j: int| 0 <= i < j < b.len() ==> (#[trigger] b[i]).ts < (#[trigger] b[j]).ts,
        forall|d: Dated| #[trigger] a.contains(d) <==> b.contains(d),
    ensures
        a == b,
{
    let x = a.map_values(|d: Dated| d.ts);
    let y = b.map_values(|d: Dated| d.ts);
    assert forall|i: int, j: int| 0 <= i < a.len() && 0 <= j < b.len() && (#[trigger] a[i]).ts == (#[trigger] b[j]).ts implies a[i]
        == b[j] by {
        assert(a.contains(a[i]));
        let k = choose|k: int| 0 <= k < b.len() && b[k] == a[i];
        if k < j {
            assert(b[k].ts < b[j].ts);
        } else if j < k {
            assert(b[j].ts < b[k].ts);
        }
    }
    assert forall|i: int, j: int| 0 <= i < j < x.len() implies #[trigger] x[i] < #[trigger] x[j] by {
        assert(a[i].ts <= a[j].ts);
        if a[i].ts == a[j].ts {
            assert(a.contains(a[i]));
            let k = choose|k: int| 0 <= k < b.len() && b[k] == a[i];
            assert(a[j] == b[k]);
        }
    }
    assert(climbing(y));
    assert forall|t: u64| x.to_set().contains(t) == y.to_set().contains(t) by {
        if x.contains(t) {
            let i = choose|i: int| 0 <= i < x.len() && x[i] == t;
            assert(a.contains(a[i]));
            let k = choose|k: int| 0 <= k < b.len() && b[k] == a[i];
            assert(y[k] == t);
        }
        if y.contains(t) {
            let i = choose|i: int| 0 <= i < y.len() && y[i] == t;
            assert(b.contains(b[i]));
            assert(a.contains(b[i]));
            let k = choose|k: int| 0 <= k < a.len() && a[k] == b[i];
            assert(x[k] == t);
        }
    }
    assert(x.to_set() =~= y.to_set());
    lemma_moments_unique(x);
    lemma_moments_unique(y);
    assert forall|i: int| 0 <= i < a.len() implies a[i] == b[i] by {
        assert(x[i] == a[i].ts && y[i] == b[i].ts);
    }
    assert(a.len() == x.len() && b.len() == y.len());
    assert(a =~= b);
}

/// The names of logs are not those of snapshots.
proof fn lemma_kinds_differ(ts: u64)
    ensures
        ts_of_name(segment_name("snap"@, ts), "wal"@) is None,
        ts_of_name(segment_name("wal"@, ts), "snap"@) is None,
        ts_of_name(segment_name("wal"@, ts), "wal"@) == Some(ts),
        ts_of_name(segment_name("snap"@, ts), "snap"@) == Some(ts),
        !"wal"@.contains('/'),
        !"snap"@.contains('/'),
{
    reveal_strlit("snap");
    reveal_strlit("wal");
    assert(segment_name("snap"@, ts)[0] == 's');
    assert(segment_name("wal"@, ts)[0] == 'w');
    assert("snap"@[0] == 's' && "wal"@[0] == 'w');
    lemma_path_keeps_ts(Seq::empty(), "snap"@, ts);
    lemma_path_keeps_ts(Seq::empty(), "wal"@, ts);
}

/// What is to be loaded when a node starts, given the files in its directory, is its snapshot, and its
/// logs in the order in which they were begun.
pub proof fn lemma_plan(files: Seq<FileView>, dir: Seq<char>, folder: Folder)
    requires
        folder.orderly(),
        shows(files, dir, folder),
    ensures
        latest(files, "snap"@) == (match folder.snapshot {
            Some(s) => Some(path_of(dir, "snap"@, s.ts)),
            None => None,
        }),
        snapshot_ts(latest(files, "snap"@)) == folder.since(),
        paths_of(dated_since(files, "wal"@, folder.since())) == folder.logs.map_values(
            |l: Segment| path_of(dir, "wal"@, l.ts),
        ),
{
    let since = folder.since();
    let snaps = dated_since(files, "snap"@, 0);
    let wals = dated_since(files, "wal"@, since);
    lemma_dated_since(files, "snap"@, 0);
    lemma_dated_since(files, "wal"@, since);
    lemma_dated_once(files, "snap"@, 0);
    lemma_dated_once(files, "wal"@, since);
    let one = match folder.snapshot {
        Some(s) => seq![Dated { ts: s.ts, path: path_of(dir, "snap"@, s.ts) }],
        None => Seq::empty(),
    };
    let logs = folder.logs.map_values(|l: Segment| Dated { ts: l.ts, path: path_of(dir, "wal"@, l.ts) });
    assert forall|d: Dated| #[trigger] snaps.contains(d) <==> one.contains(d) by {
        if snaps.contains(d) {
            let i = choose|i: int|
                0 <= i < files.len() && (#[trigger] files[i]).path == d.path && ts_of_name(files[i].name, "snap"@) == Some(d.ts);
            assert(files.contains(files[i]));
            if exists|k: int| 0 <= k < folder.logs.len() && files[i] == segment_file(dir, "wal"@, (#[trigger] folder.logs[k]).ts) {
                let k = choose|k: int|
                    0 <= k < folder.logs.len() && files[i] == segment_file(dir, "wal"@, (#[trigger] folder.logs[k]).ts);
                lemma_kinds_differ(folder.logs[k].ts);
            } else {
                lemma_kinds_differ(folder.snapshot->Some_0.ts);
                assert(one[0] == d);
            }
        }
        if one.contains(d) {
            let s = folder.snapshot->Some_0;
            lemma_kinds_differ(s.ts);
            assert(files.contains(segment_file(dir, "snap"@, s.ts)));
            let i = choose|i: int| 0 <= i < files.len() && files[i] == segment_file(dir, "snap"@, s.ts);
            assert(files[i].path == d.path);
        }
    }
    lemma_dated_same(snaps, one);
    assert forall|d: Dated| #[trigger] wals.contains(d) <==> logs.contains(d) by {
        if wals.contains(d) {
            let i = choose|i: int|
                0 <= i < files.len() && (#[trigger] files[i]).path == d.path && ts_of_name(files[i].name, "wal"@) == Some(d.ts);
            assert(files.contains(files[i]));
            if exists|k: int| 0 <= k < folder.logs.len() && files[i] == segment_file(dir, "wal"@, (#[trigger] folder.logs[k]).ts) {
                let k = choose|k: int|
                    0 <= k < folder.logs.len() && files[i] == segment_file(dir, "wal"@, (#[trigger] folder.logs[k]).ts);
                lemma_kinds_differ(folder.logs[k].ts);
                assert(logs[k] == d);
            } else {
                lemma_kinds_differ(folder.snapshot->Some_0.ts);
            }
        }
        if logs.contains(d) {
            let k = choose|k: int| 0 <= k < logs.len() && logs[k] == d;
            let l = folder.logs[k];
            lemma_kinds_differ(l.ts);
            assert(files.contains(segment_file(dir, "wal"@, l.ts)));
            let i = choose|i: int| 0 <= i < files.len() && files[i] == segment_file(dir, "wal"@, l.ts);
            assert(files[i].path == d.path);
        }
    }
    lemma_dated_same(wals, logs);
    assert(paths_of(logs) =~= folder.logs.map_values(|l: Segment| path_of(dir, "wal"@, l.ts)));
    if let Some(s) = folder.snapshot {
        lemma_kinds_differ(s.ts);
        lemma_path_keeps_ts(dir, "snap"@, s.ts);
    }
}

/// Once a snapshot has been written beside the files of a folder, and what is to be removed then has
/// been removed, the snapshot is left, and nothing else.
pub proof fn lemma_compaction_leaves(files: Seq<FileView>, dir: Seq<char>, folder: Folder, ts: u64, i: int)
    requires
        folder.orderly(),
        0 <= i < files.len(),
        forall|i: int, j: int| 0 <= i < j < files.len() ==> (#[trigger] files[i]).path != (#[trigger] files[j]).path,
        forall|k: int| 0 <= k < files.len() ==> is_of(#[trigger] files[k], dir, folder) || files[k] == segment_file(dir, "snap"@, ts),
    ensures
        (outdated(files, path_of(dir, "snap"@, ts)) + folder.logs.map_values(|l: Segment| path_of(dir, "wal"@, l.ts))).contains(
            files[i].path,
        ) <==> files[i] != segment_file(dir, "snap"@, ts),
{
    let f = files[i];
    let path = path_of(dir, "snap"@, ts);
    let old = outdated(files, path);
    let logs = folder.logs.map_values(|l: Segment| path_of(dir, "wal"@, l.ts));
    lemma_kinds_differ(ts);
    lemma_path_keeps_ts(dir, "snap"@, ts);
    assert forall|j: int| 0 <= j < files.len() && (#[trigger] files[j]).path == files[i].path implies files[j].name
        == files[i].name by {
        if j < i {
            assert(files[j].path != files[i].path);
        } else if i < j {
            assert(files[i].path != files[j].path);
        }
    }
    lemma_snapshot_stays(files, path, i);
    let all = old + logs;
    if logs.contains(f.path) {
        let k = choose|k: int| 0 <= k < logs.len() && logs[k] == f.path;
        assert(all[old.len() + k] == f.path);
        lemma_kinds_differ(folder.logs[k].ts);
        lemma_path_keeps_ts(dir, "wal"@, folder.logs[k].ts);
        if f == segment_file(dir, "snap"@, ts) {
            assert(segment_name("wal"@, folder.logs[k].ts) == segment_name("snap"@, ts));
        }
    }
    if old.contains(f.path) {
        let k = choose|k: int| 0 <= k < old.len() && old[k] == f.path;
        assert(all[k] == f.path);
    }
    if all.contains(f.path) {
        let k = choose|k: int| 0 <= k < all.len() && all[k] == f.path;
        if k < old.len() {
            assert(old[k] == f.path);
        } else {
            assert(logs[k - old.len()] == f.path);
        }
    }
    if f != segment_file(dir, "snap"@, ts) {
        if exists|k: int| 0 <= k < folder.logs.len() && f == segment_file(dir, "wal"@, (#[trigger] folder.logs[k]).ts) {
            let k = choose|k: int| 0 <= k < folder.logs.len() && f == segment_file(dir, "wal"@, (#[trigger] folder.logs[k]).ts);
            assert(logs[k] == f.path);
        } else {
            let s = folder.snapshot->Some_0;
            lemma_kinds_differ(s.ts);
            if segment_name("snap"@, s.ts) == segment_name("snap"@, ts) {
                assert(s.ts == ts);
            }
        }
    }
}

/// The documents of a store are nested no deeper than can be read back in a snapshot, and have no
/// objects that begin with the key that `serde_json` keeps for itself.
pub open spec fn plain_docs(s: StoreView) -> bool {
    forall|id: Seq<char>| #[trigger]
        s.data.contains_key(id) ==> nested_within(s.data[id], (PACK_DEPTH - 2) as nat) && unmarked(s.data[id])
}

/// The snapshot of a store can be read back from up to four gigabytes where its documents can, whatever
/// their ids, their fields and their collections are called.
pub proof fn lemma_snapshot_readable(ts: u64, s: StoreView, bytes: Seq<u8>)
    requires
        finite_sets(s),
        plain_docs(s),
        bytes.len() <= u32::MAX,
    ensures
        parts_keep(snapshot_json(ts, s), bytes),
{
    let v = snapshot_json(ts, s);
    let (x, y, z) = (s.data, index_json(s.index)->Object_0, keyed_json(s.collections)->Object_0);
    lemma_snapshot_parts(ts, s);
    let d = (PACK_DEPTH - 2) as nat;
    let e = (PACK_DEPTH - 1) as nat;
    assert(nested_within(JsonView::Object(x), e));
    assert(nested_within(index_json(s.index), e)) by {
        assert forall|f: Seq<char>| #[trigger] y.contains_key(f) implies nested_within(y[f], d) by {
            let o = keyed_json(s.index[f])->Object_0;
            assert forall|k: Seq<char>| #[trigger] o.contains_key(k) implies nested_within(o[k], 1) by {
                lemma_set_plain(s.index[f][k]);
            }
            assert(nested_within(y[f], 2));
            lemma_nested_deeper(y[f], 2, d);
        }
    }
    assert(nested_within(keyed_json(s.collections), e)) by {
        assert forall|c: Seq<char>| #[trigger] z.contains_key(c) implies nested_within(z[c], d) by {
            lemma_set_plain(s.collections[c]);
            lemma_nested_deeper(z[c], 1, d);
        }
    }
    let a = v->Array_0;
    assert forall|i: int| 0 <= i < a.len() implies nested_within(#[trigger] a[i], e) by {}
}

/// A list of strings is nested one deep.
proof fn lemma_set_plain(ids: Set<Seq<char>>)
    ensures
        nested_within(set_json(ids), 1),
{
    let a = set_json(ids)->Array_0;
    assert forall|i: int| 0 <= i < a.len() implies nested_within(#[trigger] a[i], 0) by {}
}

/// What is nested so deep is nested no deeper.
proof fn lemma_nested_deeper(v: JsonView, a: nat, b: nat)
    requires
        nested_within(v, a),
        a <= b,
    ensures
        nested_within(v, b),
    decreases a,
{
    match v {
        JsonView::Array(x) => {
            assert forall|i: int| 0 <= i < x.len() implies nested_within(#[trigger] x[i], (b - 1) as nat) by {
                lemma_nested_deeper(x[i], (a - 1) as nat, (b - 1) as nat);
            }
        },
        JsonView::Object(m) => {
            assert forall|k: Seq<char>| #[trigger] m.contains_key(k) implies nested_within(m[k], (b - 1) as nat) by {
                lemma_nested_deeper(m[k], (a - 1) as nat, (b - 1) as nat);
            }
        },
        _ => {},
    }
}

} // verus!
