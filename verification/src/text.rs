//! Order and equality of strings.
use vstd::prelude::*;
use vstd::utf8::*;

verus! {

/// `a` comes strictly before `b` in lexicographic order.
pub open spec fn bytes_lt(a: Seq<u8>, b: Seq<u8>) -> bool {
    exists|i: int| #[trigger] differ_first_at(a, b, i) && i < b.len() && (i == a.len() || a[i] < b[i])
}

/// `a` and `b` agree before `i` and not at `i`, where one of them may have ended.
pub open spec fn differ_first_at(a: Seq<u8>, b: Seq<u8>, i: int) -> bool {
    &&& 0 <= i <= a.len()
    &&& i <= b.len()
    &&& forall|j: int| 0 <= j < i ==> a[j] == b[j]
    &&& (i < a.len() && i < b.len() ==> a[i] != b[i])
    &&& (i < a.len() || i < b.len())
}

/// The order of strings: that of their UTF-8 bytes.
pub open spec fn text_lt(a: Seq<char>, b: Seq<char>) -> bool {
    bytes_lt(encode_utf8(a), encode_utf8(b))
}

/// The three outcomes of a comparison.
#[derive(Clone, Copy, Debug, PartialEq, Eq, Structural)]
pub enum Rank {
    Less,
    Equal,
    Greater,
}

/// How two strings compare.
pub open spec fn text_rank(a: Seq<char>, b: Seq<char>) -> Rank {
    if a == b {
        Rank::Equal
    } else if text_lt(a, b) {
        Rank::Less
    } else {
        Rank::Greater
    }
}

/// Strings with the same bytes are the same string.
pub proof fn lemma_encode_injective(a: Seq<char>, b: Seq<char>)
    requires
        encode_utf8(a) == encode_utf8(b),
    ensures
        a == b,
{
    encode_utf8_decode_utf8(a);
    encode_utf8_decode_utf8(b);
}

proof fn lemma_bytes_first_difference(a: Seq<u8>, b: Seq<u8>)
    requires
        a != b,
    ensures
        exists|i: int| differ_first_at(a, b, i),
    decreases a.len(),
{
    if a.len() == 0 || b.len() == 0 {
        if a.len() == 0 && b.len() == 0 {
            assert(a =~= b);
        }
        assert(differ_first_at(a, b, 0));
    } else if a[0] != b[0] {
        assert(differ_first_at(a, b, 0));
    } else {
        let c = a.drop_first();
        let d = b.drop_first();
        if c == d {
            assert(a =~= seq![a[0]] + c);
            assert(b =~= seq![b[0]] + d);
        }
        lemma_bytes_first_difference(c, d);
        let i = choose|i: int| differ_first_at(c, d, i);
        assert forall|j: int| 0 <= j < i + 1 implies a[j] == b[j] by {
            if j > 0 {
                assert(c[j - 1] == d[j - 1]);
            }
        }
        assert(i < c.len() ==> c[i] == a[i + 1]);
        assert(i < d.len() ==> d[i] == b[i + 1]);
        assert(differ_first_at(a, b, i + 1));
    }
}

proof fn lemma_first_difference_unique(a: Seq<u8>, b: Seq<u8>, i: int, j: int)
    requires
        differ_first_at(a, b, i),
        differ_first_at(a, b, j),
    ensures
        i == j,
{
    if i < j {
        assert(a[i] == b[i]);
    } else if j < i {
        assert(a[j] == b[j]);
    }
}

/// No string comes before itself.
pub proof fn lemma_text_irreflexive(a: Seq<char>)
    ensures
        !text_lt(a, a),
{
    let x = encode_utf8(a);
    if bytes_lt(x, x) {
        let i = choose|i: int| #[trigger] differ_first_at(x, x, i) && i < x.len() && (i == x.len() || x[i] < x[i]);
    }
}

/// Two strings never each come before the other.
pub proof fn lemma_text_asymmetric(a: Seq<char>, b: Seq<char>)
    requires
        text_lt(a, b),
    ensures
        !text_lt(b, a),
        a != b,
{
    let x = encode_utf8(a);
    let y = encode_utf8(b);
    let i = choose|i: int| #[trigger] differ_first_at(x, y, i) && i < y.len() && (i == x.len() || x[i] < y[i]);
    if bytes_lt(y, x) {
        let j = choose|j: int| #[trigger] differ_first_at(y, x, j) && j < x.len() && (j == y.len() || y[j] < x[j]);
        assert(differ_first_at(x, y, j));
        lemma_first_difference_unique(x, y, i, j);
    }
    if a == b {
        lemma_text_irreflexive(a);
    }
}

/// The order of strings is transitive.
pub proof fn lemma_text_transitive(a: Seq<char>, b: Seq<char>, c: Seq<char>)
    requires
        text_lt(a, b),
        text_lt(b, c),
    ensures
        text_lt(a, c),
{
    let x = encode_utf8(a);
    let y = encode_utf8(b);
    let z = encode_utf8(c);
    let i = choose|i: int| #[trigger] differ_first_at(x, y, i) && i < y.len() && (i == x.len() || x[i] < y[i]);
    let j = choose|j: int| #[trigger] differ_first_at(y, z, j) && j < z.len() && (j == y.len() || y[j] < z[j]);
    let k = if i < j { i } else { j };
    assert forall|l: int| 0 <= l < k implies x[l] == z[l] by {
        assert(x[l] == y[l]);
        assert(y[l] == z[l]);
    }
    if i < j {
        assert(y[i] == z[i]);
    } else if j < i {
        assert(x[j] == y[j]);
    }
    assert(differ_first_at(x, z, k));
}

/// Of two different strings one comes first.
pub proof fn lemma_text_total(a: Seq<char>, b: Seq<char>)
    ensures
        a == b || text_lt(a, b) || text_lt(b, a),
{
    if a != b {
        let x = encode_utf8(a);
        let y = encode_utf8(b);
        if x == y {
            lemma_encode_injective(a, b);
        }
        lemma_bytes_first_difference(x, y);
        let i = choose|i: int| differ_first_at(x, y, i);
        assert(differ_first_at(y, x, i));
    }
}

/// Compares two strings as `str` does.
pub fn compare(a: &str, b: &str) -> (r: Rank)
    ensures
        r == text_rank(a@, b@),
{
    let x = a.as_bytes();
    let y = b.as_bytes();
    let mut i: usize = 0;
    while i < x.len() && i < y.len() && x[i] == y[i]
        invariant
            i <= x.len(),
            i <= y.len(),
            forall|j: int| 0 <= j < i ==> x@[j] == y@[j],
        decreases x.len() - i,
    {
        i = i + 1;
    }
    proof {
        lemma_text_total(a@, b@);
        if i < x.len() || i < y.len() {
            assert(differ_first_at(x@, y@, i as int));
            assert(differ_first_at(y@, x@, i as int));
            assert(x@ != y@);
            if text_lt(a@, b@) {
                lemma_text_asymmetric(a@, b@);
            }
            if text_lt(b@, a@) {
                lemma_text_asymmetric(b@, a@);
            }
        } else {
            assert(x@ =~= y@);
            lemma_encode_injective(a@, b@);
        }
    }
    if i < x.len() {
        if i < y.len() && x[i] < y[i] {
            Rank::Less
        } else {
            Rank::Greater
        }
    } else if i < y.len() {
        Rank::Less
    } else {
        Rank::Equal
    }
}

/// Whether two strings are the same.
pub fn same(a: &str, b: &str) -> (r: bool)
    ensures
        r == (a@ == b@),
{
    match compare(a, b) {
        Rank::Equal => true,
        _ => false,
    }
}

/// A letter of ASCII in lower case; any other character itself.
pub open spec fn lower(c: char) -> char {
    if 'A' <= c <= 'Z' {
        ((c as u8 + 32) as u8) as char
    } else {
        c
    }
}

/// A string with its ASCII letters in lower case.
pub open spec fn lowered(s: Seq<char>) -> Seq<char> {
    s.map_values(|c: char| lower(c))
}

fn lower_char(c: char) -> (r: char)
    ensures
        r == lower(c),
{
    if 'A' <= c && c <= 'Z' {
        ((c as u8) + 32) as char
    } else {
        c
    }
}

/// Whether `s` is `word`, whatever the case of its ASCII letters. `word` is in lower case.
pub fn is_word(s: &str, word: &str) -> (r: bool)
    ensures
        r == (lowered(s@) == word@),
{
    let n: usize = word.unicode_len();
    if s.unicode_len() != n {
        return false;
    }
    let mut i: usize = 0;
    while i < n
        invariant
            i <= n,
            n == s@.len(),
            n == word@.len(),
            forall|j: int| 0 <= j < i ==> lower(#[trigger] s@[j]) == word@[j],
        decreases n - i,
    {
        if lower_char(s.get_char(i)) != word.get_char(i) {
            assert(lowered(s@)[i as int] != word@[i as int]);
            return false;
        }
        i = i + 1;
    }
    assert(lowered(s@) =~= word@);
    true
}

} // verus!
