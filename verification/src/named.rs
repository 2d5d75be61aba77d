//! Snapshots whose parts stand in a map by their names.
use crate::json::{be_number, item_len, skip_item, LIST_OF_FOUR};
use vstd::prelude::*;
use vstd::slice::slice_subrange;
use vstd::utf8::{encode_utf8, is_ascii_chars_encode_utf8};

verus! {

/// Two values of MessagePack, one after the other: a key and what stands under it.
pub struct Entry {
    pub key: Seq<u8>,
    pub val: Seq<u8>,
}

/// How many entries the map has that MessagePack bytes begin with, and after how many bytes they begin.
pub open spec fn map_head(bytes: Seq<u8>) -> Option<(nat, nat)> {
    if bytes.len() >= 1 && 0x80 <= bytes[0] <= 0x8f {
        Some(((bytes[0] - 0x80) as nat, 1))
    } else if bytes.len() >= 3 && bytes[0] == 0xde {
        Some((be_number(bytes.subrange(1, 3)) as nat, 3))
    } else if bytes.len() >= 5 && bytes[0] == 0xdf {
        Some((be_number(bytes.subrange(1, 5)) as nat, 5))
    } else {
        None
    }
}

/// The entries that bytes begin with, where there are so many.
pub open spec fn entries(bytes: Seq<u8>, n: nat) -> Option<Seq<Entry>>
    decreases n,
{
    if n == 0 {
        Some(Seq::empty())
    } else {
        match item_len(bytes) {
            Some(a) => match item_len(bytes.skip(a as int)) {
                Some(b) => match entries(bytes.skip(a as int).skip(b as int), (n - 1) as nat) {
                    Some(rest) => Some(
                        seq![Entry { key: bytes.take(a as int), val: bytes.skip(a as int).take(b as int) }] + rest,
                    ),
                    None => None,
                },
                None => None,
            },
            None => None,
        }
    }
}

/// After how many bytes the text begins of a string or a run of bytes in MessagePack.
pub open spec fn text_head(b: u8) -> Option<nat> {
    if 0xa0 <= b <= 0xbf {
        Some(1)
    } else if b == 0xd9 || b == 0xc4 {
        Some(2)
    } else if b == 0xda || b == 0xc5 {
        Some(3)
    } else if b == 0xdb || b == 0xc6 {
        Some(5)
    } else {
        None
    }
}

/// A name for what is no part: a snapshot may have such entries.
pub const OTHER: u8 = 4;

/// Which part has a text for its name.
pub open spec fn part_of_text(t: Seq<u8>) -> u8 {
    if t == encode_utf8("ts"@) {
        0
    } else if t == encode_utf8("data"@) {
        1
    } else if t == encode_utf8("index"@) {
        2
    } else if t == encode_utf8("collections"@) {
        3
    } else {
        OTHER
    }
}

/// Which part a key names, by its name or by its number; other keys are no names.
pub open spec fn part_named(key: Seq<u8>) -> Option<u8> {
    if key.len() == 0 {
        None
    } else if key[0] <= 0x7f {
        Some(if key[0] < OTHER { key[0] } else { OTHER })
    } else if 0xcc <= key[0] <= 0xcf {
        Some(if be_number(key.skip(1)) < OTHER { be_number(key.skip(1)) as u8 } else { OTHER })
    } else {
        match text_head(key[0]) {
            Some(h) => if h <= key.len() {
                Some(part_of_text(key.skip(h as int)))
            } else {
                None
            },
            None => None,
        }
    }
}

/// An entry is the part `i`.
pub open spec fn is_part(list: Seq<Entry>, k: int, i: u8) -> bool {
    0 <= k < list.len() && part_named(list[k].key) == Some(i)
}

/// One of the entries is the part `i`.
pub open spec fn has_part(list: Seq<Entry>, i: u8) -> bool {
    exists|k: int| #[trigger] is_part(list, k, i)
}

/// Each key is a name, and each part has one entry.
pub open spec fn well_named(list: Seq<Entry>) -> bool {
    &&& forall|k: int| 0 <= k < list.len() ==> part_named((#[trigger] list[k]).key) is Some
    &&& forall|i: u8| i < OTHER ==> #[trigger] has_part(list, i)
    &&& forall|i: u8, j: int, k: int| i < OTHER && #[trigger] is_part(list, j, i) && #[trigger] is_part(list, k, i) ==> j == k
}

/// The part `i`.
pub open spec fn part(list: Seq<Entry>, i: u8) -> Seq<u8> {
    list[choose|k: int| #[trigger] is_part(list, k, i)].val
}

/// The entries of the map that bytes begin with, where each key is a name and each part has one entry.
pub open spec fn named_parts(bytes: Seq<u8>) -> Option<Seq<Entry>> {
    match map_head(bytes) {
        Some((n, h)) => match entries(bytes.skip(h as int), n) {
            Some(list) => if well_named(list) {
                Some(list)
            } else {
                None
            },
            None => None,
        },
        None => None,
    }
}

/// The parts that stand in a map by their names, in a list; other bytes as they are.
pub open spec fn list_form(bytes: Seq<u8>) -> Seq<u8> {
    match named_parts(bytes) {
        Some(list) => seq![LIST_OF_FOUR] + part(list, 0) + part(list, 1) + part(list, 2) + part(list, 3),
        None => bytes,
    }
}

/// A list stays as it is.
pub proof fn lemma_list_stays(bytes: Seq<u8>)
    requires
        bytes.len() > 0,
        bytes[0] == LIST_OF_FOUR,
    ensures
        list_form(bytes) == bytes,
{
}

/// Puts bytes after others.
fn extend(out: &mut Vec<u8>, bytes: &[u8])
    ensures
        final(out)@ == old(out)@ + bytes@,
{
    let ghost before = out@;
    let mut i: usize = 0;
    assert(before + bytes@.take(0) =~= before);
    while i < bytes.len()
        invariant
            i <= bytes@.len(),
            out@ == before + bytes@.take(i as int),
        decreases bytes@.len() - i,
    {
        out.push(bytes[i]);
        assert(before + bytes@.take(i + 1) =~= (before + bytes@.take(i as int)).push(bytes@[i as int]));
        i = i + 1;
    }
    assert(bytes@.take(i as int) =~= bytes@);
}

/// Whether bytes are those of a text.
fn same_bytes(bytes: &[u8], text: &str) -> (r: bool)
    ensures
        r == (bytes@ == encode_utf8(text@)),
{
    let t = text.as_bytes();
    if bytes.len() != t.len() {
        return false;
    }
    let mut i: usize = 0;
    while i < bytes.len()
        invariant
            i <= bytes@.len(),
            bytes@.len() == t@.len(),
            t@ == encode_utf8(text@),
            forall|j: int| 0 <= j < i ==> bytes@[j] == t@[j],
        decreases bytes@.len() - i,
    {
        if bytes[i] != t[i] {
            return false;
        }
        i = i + 1;
    }
    assert(bytes@ =~= t@);
    true
}

/// The number that bytes hold, highest byte first, where it is below a limit; else the limit.
fn be_below(bytes: &[u8], limit: u64) -> (r: u64)
    requires
        limit <= 0x1_0000_0000,
    ensures
        r == (if be_number(bytes@) < limit { be_number(bytes@) } else { limit as int }),
        be_number(bytes@) >= 0,
{
    let mut n: u64 = 0;
    let mut i: usize = 0;
    assert(bytes@.take(0) =~= Seq::<u8>::empty());
    while i < bytes.len()
        invariant
            i <= bytes@.len(),
            limit <= 0x1_0000_0000,
            be_number(bytes@.take(i as int)) >= 0,
            n <= limit,
            n == (if be_number(bytes@.take(i as int)) < limit { be_number(bytes@.take(i as int)) } else { limit as int }),
        decreases bytes@.len() - i,
    {
        proof {
            assert(bytes@.take(i + 1).drop_last() =~= bytes@.take(i as int));
            assert(bytes@.take(i + 1).last() == bytes@[i as int]);
        }
        let m: u64 = n * 256 + bytes[i] as u64;
        n = if m < limit {
            m
        } else {
            limit
        };
        i = i + 1;
    }
    assert(bytes@.take(i as int) =~= bytes@);
    n
}

/// Which part a key names.
fn find_part(key: &[u8]) -> (r: Option<u8>)
    ensures
        r == part_named(key@),
        r matches Some(i) ==> i <= OTHER,
{
    if key.len() == 0 {
        return None;
    }
    let b: u8 = key[0];
    if b <= 0x7f {
        return Some(if b < OTHER { b } else { OTHER });
    }
    if 0xcc <= b && b <= 0xcf {
        let rest = slice_subrange(key, 1, key.len());
        assert(rest@ =~= key@.skip(1));
        return Some(be_below(rest, OTHER as u64) as u8);
    }
    let head: usize = if 0xa0 <= b && b <= 0xbf {
        1
    } else if b == 0xd9 || b == 0xc4 {
        2
    } else if b == 0xda || b == 0xc5 {
        3
    } else if b == 0xdb || b == 0xc6 {
        5
    } else {
        return None;
    };
    if head > key.len() {
        return None;
    }
    let text = slice_subrange(key, head, key.len());
    assert(text@ =~= key@.skip(head as int));
    Some(
        if same_bytes(text, "ts") {
            0
        } else if same_bytes(text, "data") {
            1
        } else if same_bytes(text, "index") {
            2
        } else if same_bytes(text, "collections") {
            3
        } else {
            OTHER
        },
    )
}

/// How many entries the map has that bytes begin with, and where they begin.
fn find_head(bytes: &[u8]) -> (r: Option<(u64, usize)>)
    ensures
        match r {
            Some((n, h)) => map_head(bytes@) == Some((n as nat, h as nat)) && h <= bytes@.len(),
            None => map_head(bytes@) is None,
        },
{
    if bytes.len() == 0 {
        return None;
    }
    let b: u8 = bytes[0];
    if 0x80 <= b && b <= 0x8f {
        Some(((b - 0x80) as u64, 1))
    } else if b == 0xde && bytes.len() >= 3 {
        let len = slice_subrange(bytes, 1, 3);
        proof {
            lemma_be_bound(len@, 0x1_0000);
        }
        Some((be_below(len, 0x1_0000_0000), 3))
    } else if b == 0xdf && bytes.len() >= 5 {
        let len = slice_subrange(bytes, 1, 5);
        proof {
            lemma_be_bound(len@, 0x1_0000_0000);
        }
        Some((be_below(len, 0x1_0000_0000), 5))
    } else {
        None
    }
}

/// The numbers that two bytes and four bytes hold are below these bounds.
proof fn lemma_be_bound(bytes: Seq<u8>, bound: int)
    requires
        bytes.len() == 2 && bound == 0x1_0000 || bytes.len() == 4 && bound == 0x1_0000_0000,
    ensures
        0 <= be_number(bytes) < bound,
{
    reveal_with_fuel(be_number, 5);
}

/// What is known of the part `i` once the entries of `done` have been read: where the one that is this
/// part has its value, or that there is none.
spec fn noted(done: Seq<Entry>, bytes: Seq<u8>, i: u8, span: Option<(usize, usize)>) -> bool {
    match span {
        Some((a, b)) => {
            &&& a <= b <= bytes.len()
            &&& exists|k: int| #[trigger] is_part(done, k, i) && done[k].val == bytes.subrange(a as int, b as int)
            &&& forall|j: int, k: int| #[trigger] is_part(done, j, i) && #[trigger] is_part(done, k, i) ==> j == k
        },
        None => forall|k: int| !#[trigger] is_part(done, k, i),
    }
}

/// One more entry is noted under the part that it is, where that had none, and under no other.
proof fn lemma_noted(done: Seq<Entry>, e: Entry, bytes: Seq<u8>, i: u8, span: Option<(usize, usize)>, a: usize, b: usize)
    requires
        noted(done, bytes, i, span),
        a <= b <= bytes.len(),
        e.val == bytes.subrange(a as int, b as int),
    ensures
        part_named(e.key) != Some(i) ==> noted(done.push(e), bytes, i, span),
        part_named(e.key) == Some(i) && span is None ==> noted(done.push(e), bytes, i, Some((a, b))),
{
    let more = done.push(e);
    let n = done.len() as int;
    assert forall|k: int| #[trigger] is_part(more, k, i) <==> is_part(done, k, i) || k == n && part_named(e.key) == Some(i) by {
        if 0 <= k < n {
            assert(more[k] == done[k]);
        }
    }
    if part_named(e.key) == Some(i) {
        if span is None {
            assert(is_part(more, n, i));
            assert(more[n] == e);
        }
    } else if let Some((c, d)) = span {
        let k = choose|k: int| #[trigger] is_part(done, k, i) && done[k].val == bytes.subrange(c as int, d as int);
        assert(is_part(more, k, i) && more[k].val == bytes.subrange(c as int, d as int));
    }
}

/// A list that begins with entries of which one is no name, or two are one part, is not well named.
proof fn lemma_ill_named(done: Seq<Entry>, e: Entry, tail: Seq<Entry>, bytes: Seq<u8>, i: u8, span: Option<(usize, usize)>)
    requires
        part_named(e.key) is None || part_named(e.key) == Some(i) && i < OTHER && span is Some && noted(done, bytes, i, span),
    ensures
        !well_named(done + (seq![e] + tail)),
{
    let list = done + (seq![e] + tail);
    let n = done.len() as int;
    assert(list[n] == e);
    if part_named(e.key) == Some(i) {
        let (a, b) = span->Some_0;
        let k = choose|k: int| #[trigger] is_part(done, k, i) && done[k].val == bytes.subrange(a as int, b as int);
        assert(list[k] == done[k]);
        assert(is_part(list, k, i) && is_part(list, n, i));
    }
}

/// Where the parts of a map have their values, where each key is a name and each part has one entry.
fn find_parts(bytes: &[u8]) -> (r: Option<Vec<Option<(usize, usize)>>>)
    ensures
        match r {
            Some(spans) => {
                &&& named_parts(bytes@) is Some
                &&& spans@.len() == OTHER
                &&& forall|i: u8| i < OTHER ==> (#[trigger] spans@[i as int] matches Some((a, b)) && a <= b <= bytes@.len() && part(
                    named_parts(bytes@)->Some_0,
                    i,
                ) == bytes@.subrange(a as int, b as int))
            },
            None => named_parts(bytes@) is None,
        },
{
    let (n, h) = match find_head(bytes) {
        Some(x) => x,
        None => return None,
    };
    let ghost whole = bytes@.skip(h as int);
    let ghost mut done = Seq::<Entry>::empty();
    let mut spans: Vec<Option<(usize, usize)>> = Vec::new();
    spans.push(None);
    spans.push(None);
    spans.push(None);
    spans.push(None);
    let mut at: usize = h;
    let mut k: u64 = 0;
    proof {
        if let Some(tail) = entries(whole, n as nat) {
            assert(done + tail =~= tail);
        }
    }
    while k < n
        invariant
            k <= n,
            at <= bytes@.len(),
            h <= bytes@.len(),
            map_head(bytes@) == Some((n as nat, h as nat)),
            whole == bytes@.skip(h as int),
            done.len() == k,
            match entries(bytes@.skip(at as int), (n - k) as nat) {
                Some(tail) => entries(whole, n as nat) == Some(done + tail),
                None => entries(whole, n as nat) is None,
            },
            forall|j: int| 0 <= j < done.len() ==> part_named((#[trigger] done[j]).key) is Some,
            spans@.len() == OTHER,
            forall|i: u8| i < OTHER ==> #[trigger] noted(done, bytes@, i, spans@[i as int]),
        decreases n - k,
    {
        let ghost rest = bytes@.skip(at as int);
        let left = slice_subrange(bytes, at, bytes.len());
        assert(left@ =~= rest);
        let a: usize = match skip_item(left) {
            Some(a) => a,
            None => return None,
        };
        let right = slice_subrange(left, a, left.len());
        assert(right@ =~= rest.skip(a as int));
        let b: usize = match skip_item(right) {
            Some(b) => b,
            None => return None,
        };
        let key = slice_subrange(left, 0, a);
        let from: usize = at + a;
        let to: usize = from + b;
        let ghost e = Entry { key: rest.take(a as int), val: rest.skip(a as int).take(b as int) };
        let ghost tail = entries(bytes@.skip(to as int), (n - k - 1) as nat);
        proof {
            assert(key@ =~= e.key);
            assert(e.val =~= bytes@.subrange(from as int, to as int));
            assert(rest.skip(a as int).skip(b as int) =~= bytes@.skip(to as int));
            if let Some(t) = tail {
                assert(done + (seq![e] + t) =~= done.push(e) + t);
            }
        }
        match find_part(key) {
            None => {
                proof {
                    if let Some(t) = tail {
                        lemma_ill_named(done, e, t, bytes@, 0, None);
                    }
                }
                return None;
            },
            Some(i) => {
                let ghost before = spans@;
                if i < OTHER {
                    if spans[i as usize].is_some() {
                        proof {
                            assert(noted(done, bytes@, i, spans@[i as int]));
                            if let Some(t) = tail {
                                lemma_ill_named(done, e, t, bytes@, i, spans@[i as int]);
                            }
                        }
                        return None;
                    }
                    spans.set(i as usize, Some((from, to)));
                }
                proof {
                    assert forall|j: u8| j < OTHER implies #[trigger] noted(done.push(e), bytes@, j, spans@[j as int]) by {
                        assert(noted(done, bytes@, j, before[j as int]));
                        lemma_noted(done, e, bytes@, j, before[j as int], from, to);
                    }
                    done = done.push(e);
                }
            },
        }
        at = to;
        k = k + 1;
    }
    assert(done + Seq::<Entry>::empty() =~= done);
    assert(entries(whole, n as nat) == Some(done));
    let mut i: usize = 0;
    while i < 4
        invariant
            i <= 4,
            map_head(bytes@) == Some((n as nat, h as nat)),
            whole == bytes@.skip(h as int),
            entries(whole, n as nat) == Some(done),
            spans@.len() == OTHER,
            forall|j: u8| j < OTHER ==> #[trigger] noted(done, bytes@, j, spans@[j as int]),
            forall|j: int| 0 <= j < i ==> #[trigger] spans@[j] is Some,
        decreases 4 - i,
    {
        if spans[i].is_none() {
            proof {
                assert(noted(done, bytes@, i as u8, spans@[i as int]));
                if well_named(done) {
                    assert(has_part(done, i as u8));
                    let k = choose|k: int| #[trigger] is_part(done, k, i as u8);
                    assert(is_part(done, k, i as u8));
                }
            }
            return None;
        }
        i = i + 1;
    }
    proof {
        assert forall|j: u8| j < OTHER implies (#[trigger] spans@[j as int] matches Some((a, b)) && a <= b <= bytes@.len() && part(
            done,
            j,
        ) == bytes@.subrange(a as int, b as int)) && has_part(done, j) by {
            assert(noted(done, bytes@, j, spans@[j as int]));
        }
        assert(well_named(done)) by {
            assert forall|i: u8, j: int, k: int| i < OTHER && #[trigger] is_part(done, j, i) && #[trigger] is_part(done, k, i) implies j
                == k by {
                assert(noted(done, bytes@, i, spans@[i as int]));
            }
            assert forall|i: u8| i < OTHER implies #[trigger] has_part(done, i) by {
                assert(spans@[i as int] is Some);
            }
        }
    }
    Some(spans)
}

/// Puts the parts that stand in a map by their names in a list; other bytes stay as they are.
pub fn to_list_form(bytes: &[u8]) -> (r: Vec<u8>)
    ensures
        r@ == list_form(bytes@),
{
    let mut out: Vec<u8> = Vec::new();
    match find_parts(bytes) {
        None => {
            extend(&mut out, bytes);
            assert(out@ =~= bytes@);
        },
        Some(spans) => {
            let ghost list = named_parts(bytes@)->Some_0;
            out.push(LIST_OF_FOUR);
            put_part(&mut out, bytes, &spans, 0, Ghost(list));
            put_part(&mut out, bytes, &spans, 1, Ghost(list));
            put_part(&mut out, bytes, &spans, 2, Ghost(list));
            put_part(&mut out, bytes, &spans, 3, Ghost(list));
            assert(out@ =~= list_form(bytes@));
        },
    }
    out
}

/// Puts one of the parts after others.
fn put_part(out: &mut Vec<u8>, bytes: &[u8], spans: &Vec<Option<(usize, usize)>>, i: u8, Ghost(list): Ghost<Seq<Entry>>)
    requires
        i < spans@.len(),
        spans@[i as int] matches Some((a, b)) && a <= b <= bytes@.len() && part(list, i) == bytes@.subrange(a as int, b as int),
    ensures
        final(out)@ == old(out)@ + part(list, i),
{
    if let Some((a, b)) = spans[i as usize] {
        extend(out, slice_subrange(bytes, a, b));
    }
}

/// The bytes of entries, one after another.
pub open spec fn bytes_of(list: Seq<Entry>) -> Seq<u8>
    decreases list.len(),
{
    if list.len() == 0 {
        Seq::empty()
    } else {
        list[0].key + list[0].val + bytes_of(list.drop_first())
    }
}

/// None of the entries that bytes begin with goes beyond their end.
pub open spec fn within(bytes: Seq<u8>, n: nat) -> bool
    decreases n,
{
    n == 0 || match item_len(bytes) {
        Some(a) => a <= bytes.len() && match item_len(bytes.skip(a as int)) {
            Some(b) => a + b <= bytes.len() && within(bytes.skip(a as int).skip(b as int), (n - 1) as nat),
            None => true,
        },
        None => true,
    }
}

/// The entries that bytes begin with are as many as were asked for, and their bytes, key and value in turn,
/// are those that the bytes begin with.
pub proof fn lemma_entries_in_turn(bytes: Seq<u8>, n: nat, list: Seq<Entry>)
    requires
        entries(bytes, n) == Some(list),
        within(bytes, n),
    ensures
        list.len() == n,
        bytes_of(list).is_prefix_of(bytes),
    decreases n,
{
    if n > 0 {
        let a = item_len(bytes)->Some_0 as int;
        let rest = bytes.skip(a);
        let b = item_len(rest)->Some_0 as int;
        let more = rest.skip(b);
        let tail = entries(more, (n - 1) as nat)->Some_0;
        lemma_entries_in_turn(more, (n - 1) as nat, tail);
        assert(list.drop_first() =~= tail);
        assert(list[0].key + list[0].val + bytes_of(tail) =~= bytes.take(a + b + bytes_of(tail).len()));
    }
}

/// How many entries a map has: up to fifteen in its first byte, or in the two or four bytes after it,
/// highest byte first.
pub proof fn lemma_map_heads(n: u8, a: u8, b: u8, c: u8, d: u8, rest: Seq<u8>)
    ensures
        n < 16 ==> map_head(seq![(0x80 + n) as u8] + rest) == Some((n as nat, 1nat)),
        map_head(seq![0xde, a, b] + rest) == Some(((0x100 * a + b) as nat, 3nat)),
        map_head(seq![0xdf, a, b, c, d] + rest) == Some(
            ((0x100_0000 * a + 0x1_0000 * b + 0x100 * c + d) as nat, 5nat),
        ),
{
    reveal_with_fuel(be_number, 5);
    let two = seq![0xde, a, b] + rest;
    let four = seq![0xdf, a, b, c, d] + rest;
    assert(two.subrange(1, 3) =~= seq![a, b]);
    assert(four.subrange(1, 5) =~= seq![a, b, c, d]);
    assert(seq![a, b].drop_last() =~= seq![a]);
    assert(seq![a].drop_last() =~= Seq::<u8>::empty());
    assert(seq![a, b, c, d].drop_last() =~= seq![a, b, c]);
    assert(seq![a, b, c].drop_last() =~= seq![a, b]);
}

/// A short text as a key: a byte with its length, and its bytes.
pub open spec fn short_key(name: Seq<char>) -> Seq<u8> {
    seq![(0xa0 + encode_utf8(name).len()) as u8] + encode_utf8(name)
}

/// A map that has `ts`, `data`, `index` and `collections` once each, in any order and with other names among
/// them, is read as the list of what stands under them, in this order.
pub proof fn lemma_named_in_order(bytes: Seq<u8>, list: Seq<Entry>, t: int, d: int, x: int, c: int)
    requires
        named_parts(bytes) == Some(list),
        0 <= t < list.len() && list[t].key == short_key("ts"@),
        0 <= d < list.len() && list[d].key == short_key("data"@),
        0 <= x < list.len() && list[x].key == short_key("index"@),
        0 <= c < list.len() && list[c].key == short_key("collections"@),
    ensures
        list_form(bytes) == seq![0x94u8] + list[t].val + list[d].val + list[x].val + list[c].val,
{
    lemma_names_apart();
    assert(short_key("ts"@).skip(1) =~= encode_utf8("ts"@));
    assert(short_key("data"@).skip(1) =~= encode_utf8("data"@));
    assert(short_key("index"@).skip(1) =~= encode_utf8("index"@));
    assert(short_key("collections"@).skip(1) =~= encode_utf8("collections"@));
    assert(is_part(list, t, 0) && is_part(list, d, 1) && is_part(list, x, 2) && is_part(list, c, 3));
}

proof fn lemma_names_apart()
    ensures
        encode_utf8("ts"@).len() == 2,
        encode_utf8("data"@).len() == 4,
        encode_utf8("index"@).len() == 5,
        encode_utf8("collections"@).len() == 11,
{
    reveal_strlit("ts");
    reveal_strlit("data");
    reveal_strlit("index");
    reveal_strlit("collections");
    is_ascii_chars_encode_utf8("ts"@);
    is_ascii_chars_encode_utf8("data"@);
    is_ascii_chars_encode_utf8("index"@);
    is_ascii_chars_encode_utf8("collections"@);
}

/// Which part a key names: an integer its number, and a text, or a run of bytes, however its length is
/// written, its name. Every other integer and text is a name too, but that of no part, and every other key
/// is no name.
pub proof fn lemma_key_names(b: u8, head: Seq<u8>, text: Seq<u8>)
    ensures
        b <= 0x7f ==> part_named(seq![b] + text) == Some(if b < 4 { b } else { 4 }),
        0xcc <= b <= 0xcf && be_number(text) < 4 ==> part_named(seq![b] + text) is Some && part_named(seq![b] + text)->Some_0 as int
            == be_number(text),
        0xcc <= b <= 0xcf && be_number(text) >= 4 ==> part_named(seq![b] + text) == Some(4u8),
        (0xa0 <= b <= 0xbf && head.len() == 0) || ((b == 0xd9 || b == 0xc4) && head.len() == 1) || ((b == 0xda || b == 0xc5)
            && head.len() == 2) || ((b == 0xdb || b == 0xc6) && head.len() == 4) ==> {
            let r = part_named(seq![b] + head + text);
            &&& r is Some
            &&& r->Some_0 == 0 <==> text == encode_utf8("ts"@)
            &&& r->Some_0 == 1 <==> text == encode_utf8("data"@)
            &&& r->Some_0 == 2 <==> text == encode_utf8("index"@)
            &&& r->Some_0 == 3 <==> text == encode_utf8("collections"@)
            &&& r->Some_0 <= 4
        },
        (0x80 <= b <= 0x9f) || (0xc0 <= b <= 0xc3) || (0xc7 <= b <= 0xcb) || (0xd0 <= b <= 0xd8) || b >= 0xdc ==> part_named(
            seq![b] + text,
        ) is None,
{
    lemma_names_apart();
    let whole = seq![b] + head + text;
    lemma_be_number_positive(text);
    assert((seq![b] + text).skip(1) =~= text);
    assert(whole.skip(1 + head.len() as int) =~= text);
    assert(whole[0] == b);
}

proof fn lemma_be_number_positive(bytes: Seq<u8>)
    ensures
        be_number(bytes) >= 0,
    decreases bytes.len(),
{
    if bytes.len() > 0 {
        lemma_be_number_positive(bytes.drop_last());
    }
}

/// A map is read as it is, and not as a list, where a key is no name, where a part has no entry, and where a
/// part has two.
pub proof fn lemma_not_named(bytes: Seq<u8>, n: nat, h: nat, list: Seq<Entry>, i: u8, j: int, k: int)
    requires
        map_head(bytes) == Some((n, h)),
        entries(bytes.skip(h as int), n) == Some(list),
        i < 4,
        0 <= j < list.len(),
        0 <= k < list.len(),
    ensures
        part_named(list[j].key) is None ==> list_form(bytes) == bytes,
        (forall|x: int| 0 <= x < list.len() ==> part_named((#[trigger] list[x]).key) != Some(i)) ==> list_form(bytes) == bytes,
        j != k && part_named(list[j].key) == Some(i) && part_named(list[k].key) == Some(i) ==> list_form(bytes) == bytes,
{
    if forall|x: int| 0 <= x < list.len() ==> part_named((#[trigger] list[x]).key) != Some(i) {
        assert forall|x: int| !(#[trigger] is_part(list, x, i)) by {}
        assert(!has_part(list, i));
    }
    if j != k && part_named(list[j].key) == Some(i) && part_named(list[k].key) == Some(i) {
        assert(is_part(list, j, i) && is_part(list, k, i));
    }
}

/// A map whose keys are all names, and that has each part once, is read as the list of its parts.
pub proof fn lemma_named(bytes: Seq<u8>, n: nat, h: nat, list: Seq<Entry>, at: Seq<int>)
    requires
        map_head(bytes) == Some((n, h)),
        entries(bytes.skip(h as int), n) == Some(list),
        forall|k: int| 0 <= k < list.len() ==> part_named((#[trigger] list[k]).key) is Some,
        at.len() == 4,
        forall|i: int| 0 <= i < 4 ==> 0 <= #[trigger] at[i] < list.len(),
        forall|k: int, i: int|
            #![trigger list[k], at[i]]
            0 <= k < list.len() && 0 <= i < 4 ==> (part_named(list[k].key) == Some(i as u8) <==> k == at[i]),
    ensures
        list_form(bytes) == seq![0x94u8] + list[at[0]].val + list[at[1]].val + list[at[2]].val + list[at[3]].val,
{
    assert forall|i: u8| i < OTHER implies #[trigger] has_part(list, i) && is_part(list, at[i as int], i) by {
        let n = i as int;
        assert(n as u8 == i);
        assert(part_named(list[at[n]].key) == Some(n as u8));
        assert(is_part(list, at[i as int], i));
    }
    assert forall|i: u8, j: int, k: int| i < OTHER && #[trigger] is_part(list, j, i) && #[trigger] is_part(list, k, i) implies j == k by {
        let n = i as int;
        assert(n as u8 == i);
        assert(part_named(list[j].key) == Some(n as u8) && part_named(list[k].key) == Some(n as u8));
        assert(j == at[n] && k == at[n]);
    }
    assert(well_named(list));
    assert(has_part(list, 0) && has_part(list, 1) && has_part(list, 2) && has_part(list, 3));
}

} // verus!
