//! The log: records that can be replayed, written one after another.
use crate::config::FsyncMode;
use crate::json::{pack, packed};
use crate::query::{some_text, texts};
use crate::value::{Json, JsonView};
use vstd::prelude::*;

verus! {

/// The lowest 32 bits of an integer, lowest byte first.
pub open spec fn le_bytes(n: nat) -> Seq<u8> {
    seq![(n % 256) as u8, (n / 0x100 % 256) as u8, (n / 0x1_0000 % 256) as u8, (n / 0x100_0000 % 256) as u8]
}

/// The integer that four bytes hold, lowest byte first.
pub open spec fn le_number(b: Seq<u8>) -> nat {
    (b[0] + 0x100 * b[1] + 0x1_0000 * b[2] + 0x100_0000 * b[3]) as nat
}

/// A record as it stands in the log: the length of its payload in 32 bits, and the payload.
pub open spec fn frame(payload: Seq<u8>) -> Seq<u8> {
    le_bytes(payload.len()) + payload
}

/// The records of several payloads, one after another.
pub open spec fn frames(payloads: Seq<Seq<u8>>) -> Seq<u8>
    decreases payloads.len(),
{
    if payloads.len() == 0 {
        Seq::empty()
    } else {
        frames(payloads.drop_last()) + frame(payloads.last())
    }
}

/// The log begins with a whole record.
pub open spec fn whole(bytes: Seq<u8>) -> bool {
    bytes.len() >= 4 && bytes.len() >= 4 + le_number(bytes)
}

/// The payload of the first record.
pub open spec fn first_payload(bytes: Seq<u8>) -> Seq<u8> {
    bytes.subrange(4, 4int + le_number(bytes))
}

/// What comes after the first record.
pub open spec fn after_first(bytes: Seq<u8>) -> Seq<u8> {
    bytes.skip(4int + le_number(bytes))
}

/// The payloads of the records of a log, up to the first that is not whole.
#[verifier::opaque]
pub open spec fn payloads(bytes: Seq<u8>) -> Seq<Seq<u8>>
    decreases bytes.len(),
{
    if whole(bytes) {
        seq![first_payload(bytes)] + payloads(after_first(bytes))
    } else {
        Seq::empty()
    }
}

/// The payloads of a log are that of its first record and those of what comes after it.
pub proof fn lemma_payloads(bytes: Seq<u8>)
    ensures
        payloads(bytes) == (if whole(bytes) {
            seq![first_payload(bytes)] + payloads(after_first(bytes))
        } else {
            Seq::empty()
        }),
{
    reveal(payloads);
}

/// Reading a length gives back what was written, up to 32 bits.
pub proof fn lemma_le_number(n: nat, rest: Seq<u8>)
    requires
        n <= u32::MAX,
    ensures
        le_number(le_bytes(n) + rest) == n,
        le_bytes(n).len() == 4,
{
    let b = le_bytes(n);
    let s = b + rest;
    assert(s[0] == b[0] && s[1] == b[1] && s[2] == b[2] && s[3] == b[3]);
    assert(n == n % 256 + 256 * (n / 256));
    assert(n / 256 == n / 256 % 256 + 256 * (n / 0x1_0000));
    assert(n / 0x1_0000 == n / 0x1_0000 % 256 + 256 * (n / 0x100_0000));
    assert(n / 0x100_0000 % 256 == n / 0x100_0000);
}

/// A record at the beginning of a log is read as it was written.
pub proof fn lemma_first_frame(payload: Seq<u8>, rest: Seq<u8>)
    requires
        payload.len() <= u32::MAX,
    ensures
        payloads(frame(payload) + rest) == seq![payload] + payloads(rest),
{
    let bytes = frame(payload) + rest;
    assert(bytes =~= le_bytes(payload.len()) + (payload + rest));
    lemma_le_number(payload.len(), payload + rest);
    assert(first_payload(bytes) =~= payload);
    assert(after_first(bytes) =~= rest);
    lemma_payloads(bytes);
}

/// A record that was cut off at the end of a log is not read.
pub proof fn lemma_torn_frame(payload: Seq<u8>, n: int)
    requires
        payload.len() <= u32::MAX,
        0 <= n < frame(payload).len(),
    ensures
        payloads(frame(payload).take(n)) == Seq::<Seq<u8>>::empty(),
{
    let bytes = frame(payload).take(n);
    lemma_le_number(payload.len(), payload);
    if n >= 4 {
        let whole_bytes = frame(payload);
        assert(bytes[0] == whole_bytes[0] && bytes[1] == whole_bytes[1] && bytes[2] == whole_bytes[2] && bytes[3]
            == whole_bytes[3]);
    }
    lemma_payloads(bytes);
}

/// The records of a log are read as they were written, and so is what comes after them.
pub proof fn lemma_frames_read(list: Seq<Seq<u8>>, rest: Seq<u8>)
    requires
        forall|i: int| 0 <= i < list.len() ==> (#[trigger] list[i]).len() <= u32::MAX,
    ensures
        payloads(frames(list) + rest) == list + payloads(rest),
    decreases list.len(),
{
    if list.len() == 0 {
        assert(frames(list) + rest =~= rest);
        assert(list + payloads(rest) =~= payloads(rest));
    } else {
        let less = list.drop_last();
        let last = list.last();
        assert(frames(list) + rest =~= frames(less) + (frame(last) + rest));
        lemma_frames_read(less, frame(last) + rest);
        lemma_first_frame(last, rest);
        assert(less + (seq![last] + payloads(rest)) =~= list + payloads(rest));
    }
}

/// Builds the record of a payload.
pub fn to_frame(payload: Vec<u8>) -> (r: Vec<u8>)
    ensures
        r@ == frame(payload@),
{
    let n: usize = payload.len();
    let mut payload = payload;
    let mut r: Vec<u8> = Vec::new();
    r.push((n % 256) as u8);
    r.push((n / 0x100 % 256) as u8);
    r.push((n / 0x1_0000 % 256) as u8);
    r.push((n / 0x100_0000 % 256) as u8);
    assert(r@ =~= le_bytes(n as nat));
    r.append(&mut payload);
    r
}

/// Finds the next record from `at` on: where its payload ends.
pub fn next_frame(bytes: &[u8], at: usize) -> (r: Option<usize>)
    requires
        at <= bytes@.len(),
    ensures
        match r {
            Some(end) => {
                &&& whole(bytes@.skip(at as int))
                &&& at + 4 <= end <= bytes@.len()
                &&& end == at + 4 + le_number(bytes@.skip(at as int))
            },
            None => !whole(bytes@.skip(at as int)),
        },
{
    let left: usize = bytes.len() - at;
    if left < 4 {
        return None;
    }
    let n: u64 = bytes[at] as u64 + 0x100 * (bytes[at + 1] as u64) + 0x1_0000 * (bytes[at + 2] as u64) + 0x100_0000 * (bytes[
        at + 3] as u64);
    let ghost rest = bytes@.skip(at as int);
    assert(rest[0] == bytes@[at as int] && rest[1] == bytes@[at + 1] && rest[2] == bytes@[at + 2] && rest[3] == bytes@[at + 3]);
    if n > (left - 4) as u64 {
        None
    } else {
        Some(at + 4 + n as usize)
    }
}

/// What is to be done with a record.
pub struct Step {
    /// The record.
    pub bytes: Vec<u8>,
    /// It is to be written to the file that is open.
    pub write: bool,
    /// That file is to be forced to disk.
    pub sync: bool,
    /// A new file is to be begun.
    pub rotate: bool,
}

/// The state of the log.
pub struct Wal {
    current: Option<String>,
    size: u64,
    paths: Vec<String>,
    pending_fsync: bool,
    queue: Vec<Vec<u8>>,
    dropped: Ghost<nat>,
}

/// The state of the log.
#[verifier::ext_equal]
pub struct WalView {
    /// The path of the file that is open.
    pub current: Option<Seq<char>>,
    /// How much has been written since it was begun.
    pub size: u64,
    /// The paths of all files of the log.
    pub paths: Seq<Seq<char>>,
    /// Something has been written that is still to be forced to disk.
    pub pending_fsync: bool,
    /// The records that are still to be written.
    pub queue: Seq<Seq<u8>>,
    /// How many records were dropped, as they could not be packed.
    pub dropped: nat,
}

/// What byte lists are.
pub open spec fn byte_lists(a: Seq<Vec<u8>>) -> Seq<Seq<u8>> {
    a.map_values(|b: Vec<u8>| b@)
}

impl View for Wal {
    type V = WalView;

    closed spec fn view(&self) -> WalView {
        WalView {
            current: some_text(self.current),
            size: self.size,
            paths: texts(self.paths@),
            pending_fsync: self.pending_fsync,
            queue: byte_lists(self.queue@),
            dropped: self.dropped@,
        }
    }
}

/// A megabyte.
pub const MB: u64 = 1048576;

impl WalView {
    /// A log without files.
    pub open spec fn empty() -> WalView {
        WalView { current: None, size: 0, paths: Seq::empty(), pending_fsync: false, queue: Seq::empty(), dropped: 0 }
    }

    /// A record is to be written.
    pub open spec fn queued(self, payload: Seq<u8>) -> WalView {
        WalView { queue: self.queue.push(frame(payload)), ..self }
    }

    /// A record could not be packed.
    pub open spec fn without_one(self) -> WalView {
        WalView { dropped: self.dropped + 1, ..self }
    }

    /// The first record is written, as far as a file is open.
    pub open spec fn advanced(self, mode: FsyncMode) -> WalView {
        WalView {
            size: (self.size + self.queue[0].len()) as u64,
            pending_fsync: self.pending_fsync || self.current is Some && mode == FsyncMode::Interval,
            queue: self.queue.skip(1),
            ..self
        }
    }

    /// A new file has been begun.
    pub open spec fn rotated(self, path: Seq<char>) -> WalView {
        WalView { current: Some(path), size: 0, paths: self.paths.push(path), ..self }
    }
}

/// The record is to be written, or could not be packed, and counts as dropped.
pub open spec fn logged(before: WalView, after: WalView, record: JsonView) -> bool {
    after == before.queued(packed(record)) || after == before.without_one()
}

impl Wal {
    /// A log without files.
    pub fn new() -> (r: Self)
        ensures
            r@ == WalView::empty(),
    {
        let r = Wal { current: None, size: 0, paths: Vec::new(), pending_fsync: false, queue: Vec::new(), dropped: Ghost(0) };
        assert(r@ =~= WalView::empty());
        r
    }

    /// Queues the record of a payload, where there is one; else a record is dropped.
    pub fn enqueue(&mut self, payload: Option<Vec<u8>>)
        ensures
            final(self)@ == (match payload {
                Some(p) => old(self)@.queued(p@),
                None => old(self)@.without_one(),
            }),
    {
        let ghost before = self@;
        match payload {
            Some(p) => {
                self.queue.push(to_frame(p));
                assert(self@.queue =~= before.queued(p@).queue);
                assert(self@ =~= before.queued(p@));
            },
            None => {
                self.dropped = Ghost((self.dropped@ + 1) as nat);
                assert(self@ =~= before.without_one());
            },
        }
    }

    /// Queues a record. One for whose bytes there is no memory is dropped, and counts as such; when that
    /// is so is up to the machine, and left open. [`Wal::enqueue`] says what either outcome does to the
    /// log.
    pub fn write_wal_record(&mut self, record: &Json)
        ensures
            logged(old(self)@, final(self)@, record@),
    {
        self.enqueue(
            match pack(record) {
                Ok(bytes) => Some(bytes),
                Err(_) => None,
            },
        );
    }

    /// Takes the next record that is to be written, and says what is to be done with it.
    pub fn next_step(&mut self, mode: FsyncMode, max_mb: u64) -> (r: Option<Step>)
        requires
            max_mb * MB <= u64::MAX,
            old(self)@.queue.len() > 0 ==> old(self)@.size + old(self)@.queue[0].len() <= u64::MAX,
        ensures
            match r {
                None => old(self)@.queue.len() == 0 && final(self)@ == old(self)@,
                Some(step) => {
                    &&& old(self)@.queue.len() > 0
                    &&& final(self)@ == old(self)@.advanced(mode)
                    &&& step.bytes@ == old(self)@.queue[0]
                    &&& step.write == old(self)@.current is Some
                    &&& step.sync == (step.write && mode == FsyncMode::Always)
                    &&& step.rotate == (final(self)@.size > max_mb * MB)
                },
            },
    {
        if self.queue.len() == 0 {
            return None;
        }
        let ghost before = self@;
        let bytes = self.queue.remove(0);
        let write = self.current.is_some();
        let mut sync = false;
        if write {
            match mode {
                FsyncMode::Always => {
                    sync = true;
                },
                FsyncMode::Interval => {
                    self.pending_fsync = true;
                },
                FsyncMode::Never => {},
            }
        }
        assert(before.queue[0] == bytes@);
        self.size = self.size + bytes.len() as u64;
        let rotate = self.size > max_mb * MB;
        assert(self@.queue =~= before.queue.skip(1));
        assert(self@ =~= before.advanced(mode));
        Some(Step { bytes, write, sync, rotate })
    }

    /// How much has been written since the file was begun.
    pub fn size(&self) -> (r: u64)
        ensures
            r == self@.size,
    {
        self.size
    }

    /// How long the next record is.
    pub fn next_len(&self) -> (r: Option<usize>)
        ensures
            r == (if self@.queue.len() > 0 { Some(self@.queue[0].len() as usize) } else { None }),
            self@.queue.len() > 0 ==> self@.queue[0].len() <= usize::MAX,
    {
        if self.queue.len() > 0 {
            assert(self@.queue[0] == self.queue@[0]@);
            Some(self.queue[0].len())
        } else {
            None
        }
    }

    /// A new file has been begun.
    pub fn rotated(&mut self, path: String)
        ensures
            final(self)@ == old(self)@.rotated(path@),
    {
        let ghost before = self@;
        self.current = Some(path.clone());
        self.size = 0;
        self.paths.push(path);
        assert(self@.paths =~= before.paths.push(path@));
        assert(self@ =~= before.rotated(path@));
    }

    /// Whether the file that is open is to be forced to disk. After that nothing is pending.
    pub fn flush_fsync(&mut self) -> (r: bool)
        ensures
            r == (old(self)@.pending_fsync && old(self)@.current is Some),
            final(self)@ == (WalView { pending_fsync: false, ..old(self)@ }),
    {
        let sync = self.pending_fsync && self.current.is_some();
        self.pending_fsync = false;
        sync
    }

    /// The paths of all files of the log.
    pub fn paths(&self) -> (r: &Vec<String>)
        ensures
            texts(r@) == self@.paths,
    {
        &self.paths
    }

    /// Puts other paths in place of those of the log, and gives these back.
    pub fn replace_paths(&mut self, paths: Vec<String>) -> (r: Vec<String>)
        ensures
            texts(r@) == old(self)@.paths,
            final(self)@ == (WalView { paths: texts(paths@), ..old(self)@ }),
    {
        let mut paths = paths;
        std::mem::swap(&mut paths, &mut self.paths);
        paths
    }
}

} // verus!
