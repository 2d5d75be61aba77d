//! How a follower keeps up with its leader.
use crate::decimal::{decimal, lemma_decimal_parsed, parsed, to_decimal};
use crate::number::Num;
use crate::query::{array_at, copy_values};
use crate::reply::sync_reply;
use crate::value::{member, unsigned_of, values_of, Json, JsonView};
use vstd::prelude::*;

verus! {

/// By how much the time between two attempts can grow.
pub const MAX_BACKOFF: u64 = 32;

/// Where a follower stands.
pub struct Replica {
    /// The seconds between two attempts.
    interval: u64,
    /// The seconds until the next attempt.
    backoff: u64,
    /// The moment of the leader up to which the follower has its documents.
    last: u64,
}

/// Where a follower stands.
pub struct ReplicaView {
    pub interval: u64,
    pub backoff: u64,
    pub last: u64,
}

impl View for Replica {
    type V = ReplicaView;

    closed spec fn view(&self) -> ReplicaView {
        ReplicaView { interval: self.interval, backoff: self.backoff, last: self.last }
    }
}

/// Twice the time between two attempts, up to its limit.
pub open spec fn doubled(backoff: u64, interval: u64) -> int {
    if 2 * backoff <= MAX_BACKOFF * interval {
        2 * backoff
    } else {
        MAX_BACKOFF * interval
    }
}

/// The moment that an answer of the leader is of; zero where it does not say.
pub open spec fn answer_ts(body: JsonView) -> u64 {
    match member(body, "ts"@) {
        Some(v) => match unsigned_of(v) {
            Some(ts) => ts,
            None => 0,
        },
        None => 0,
    }
}

/// The documents in an answer of the leader; none where it has no list of them.
pub open spec fn answer_docs(body: JsonView) -> Seq<JsonView> {
    match array_at(body, "docs"@) {
        Some(docs) => docs,
        None => Seq::empty(),
    }
}

/// The address at which a follower asks its leader for what is new.
pub open spec fn sync_url(leader: Seq<char>, last: u64) -> Seq<char> {
    leader + "/sync?since="@ + decimal(last as nat)
}

impl Replica {
    /// The time between two attempts is between that at first and its limit.
    #[verifier::type_invariant]
    spec fn bounded(self) -> bool {
        self.interval <= self.backoff <= MAX_BACKOFF * self.interval <= u64::MAX
    }

    /// A follower that has nothing yet.
    pub fn new(interval: u64) -> (r: Self)
        requires
            MAX_BACKOFF * interval <= u64::MAX,
        ensures
            r@ == (ReplicaView { interval, backoff: interval, last: 0 }),
    {
        Replica { interval, backoff: interval, last: 0 }
    }

    /// The seconds until the next attempt.
    pub fn backoff(&self) -> (r: u64)
        ensures
            r == self@.backoff,
            self@.interval <= r <= MAX_BACKOFF * self@.interval,
    {
        proof {
            use_type_invariant(self);
        }
        self.backoff
    }

    /// The moment of the leader up to which the follower has its documents.
    pub fn last(&self) -> (r: u64)
        ensures
            r == self@.last,
    {
        self.last
    }

    /// The address at which the leader is asked.
    pub fn url(&self, leader: &str) -> (r: String)
        ensures
            r@ == sync_url(leader@, self@.last),
    {
        let mut s = leader.to_owned();
        s.append("/sync?since=");
        s.append(to_decimal(self.last).as_str());
        s
    }

    /// The leader could not be reached: the next attempt waits twice as long, up to the limit.
    pub fn missed(&mut self)
        ensures
            final(self)@ == (ReplicaView {
                backoff: doubled(old(self)@.backoff, old(self)@.interval) as u64,
                ..old(self)@
            }),
    {
        proof {
            use_type_invariant(&*self);
        }
        let max: u64 = MAX_BACKOFF * self.interval;
        self.backoff = if self.backoff <= max / 2 {
            2 * self.backoff
        } else {
            max
        };
    }

    /// The leader has answered: the next attempt waits as long as at first.
    pub fn reached(&mut self)
        ensures
            final(self)@ == (ReplicaView { backoff: old(self)@.interval, ..old(self)@ }),
    {
        proof {
            use_type_invariant(&*self);
        }
        self.backoff = self.interval;
    }

    /// Takes the documents from an answer of the leader; the follower has them up to the moment of
    /// the answer.
    pub fn received(&mut self, body: &Json) -> (r: Vec<Json>)
        ensures
            values_of(r@) == answer_docs(body@),
            final(self)@ == (ReplicaView { last: answer_ts(body@), ..old(self)@ }),
    {
        let ts: u64 = match body.get("ts") {
            Some(v) => match v.as_u64() {
                Some(ts) => ts,
                None => 0,
            },
            None => 0,
        };
        let docs: Vec<Json> = match body.get("docs") {
            Some(v) => match v.as_array() {
                Some(a) => copy_values(a),
                None => Vec::new(),
            },
            None => Vec::new(),
        };
        proof {
            use_type_invariant(&*self);
        }
        self.last = ts;
        assert(values_of(docs@) =~= answer_docs(body@));
        docs
    }
}

/// Reading the answer that a leader makes of a moment and documents gives back the moment, whatever it is,
/// and the documents.
pub proof fn lemma_answer_read(ts: u64, docs: Seq<JsonView>)
    ensures
        answer_ts(sync_reply(ts, docs)) == ts,
        answer_docs(sync_reply(ts, docs)) == docs,
{
    reveal_strlit("ts");
    reveal_strlit("docs");
    assert("ts"@.len() != "docs"@.len());
}

/// An answer that does not say its moment is of the moment zero, and one without a list has no documents.
pub proof fn lemma_answer_without(m: Map<Seq<char>, JsonView>)
    ensures
        !(m.contains_key("ts"@) && m["ts"@] is Number && m["ts"@]->Number_0 is PosInt) ==> answer_ts(JsonView::Object(m)) == 0,
        m.contains_key("ts"@) ==> (m["ts"@] matches JsonView::Number(Num::PosInt(n)) ==> answer_ts(JsonView::Object(m)) == n),
        !(m.contains_key("docs"@) && m["docs"@] is Array) ==> answer_docs(JsonView::Object(m)).len() == 0,
        m.contains_key("docs"@) ==> (m["docs"@] matches JsonView::Array(a) ==> answer_docs(JsonView::Object(m)) == a),
{
}

/// A follower asks its leader at the path for what is new, since the very moment up to which it has the
/// documents.
pub proof fn lemma_url_read(leader: Seq<char>, last: u64)
    ensures
        ({
            let url = sync_url(leader, last);
            let start = leader.len() + "/sync?since="@.len();
            &&& url.take(leader.len() as int) == leader
            &&& url.subrange(leader.len() as int, start as int) == "/sync?since="@
            &&& parsed(url.skip(start as int)) == Some(last)
        }),
{
    let url = sync_url(leader, last);
    let start = leader.len() + "/sync?since="@.len();
    assert(url.take(leader.len() as int) =~= leader);
    assert(url.subrange(leader.len() as int, start as int) =~= "/sync?since="@);
    assert(url.skip(start as int) =~= decimal(last as nat));
    lemma_decimal_parsed(last);
}

/// The time between two attempts doubles, up to 32 times that at first.
pub proof fn lemma_misses(interval: u64, backoff: u64)
    requires
        interval <= backoff <= 32 * interval <= u64::MAX,
    ensures
        backoff <= 16 * interval ==> doubled(backoff, interval) == 2 * backoff,
        backoff > 16 * interval ==> doubled(backoff, interval) == 32 * interval,
        interval <= doubled(backoff, interval) <= 32 * interval,
{
}

} // verus!
