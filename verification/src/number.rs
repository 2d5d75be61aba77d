//! JSON numbers.
use vstd::arithmetic::power2::{lemma2_to64, lemma2_to64_rest, lemma_pow2_adds, lemma_pow2_pos, lemma_pow2_strictly_increases, lemma_pow2_unfold, pow2};
use vstd::prelude::*;

verus! {

/// A number: an integer of 64 bits or the bits of a finite double.
#[derive(Clone, Copy, Debug, PartialEq, Eq, Structural)]
pub enum Num {
    /// An integer from zero on.
    PosInt(u64),
    /// An integer below zero.
    NegInt(i64),
    /// The bits of a double.
    Float(u64),
}

/// The bit that holds the sign of a double.
pub const SIGN_BIT: u64 = 0x8000_0000_0000_0000;

/// The bits of infinity: those of a finite double without its sign are below.
pub const INFINITY_BITS: u64 = 0x7ff0_0000_0000_0000;

/// A double without its sign.
pub open spec fn magnitude(bits: u64) -> int {
    if bits < SIGN_BIT {
        bits as int
    } else {
        bits - SIGN_BIT
    }
}

/// Where a finite double stands in the order of the doubles. The two zeros stand at one place.
pub open spec fn float_rank(bits: u64) -> int {
    if bits < SIGN_BIT {
        magnitude(bits)
    } else {
        -magnitude(bits)
    }
}

/// A number is valid where its kind fits its value.
pub open spec fn valid_num(n: Num) -> bool {
    match n {
        Num::PosInt(_) => true,
        Num::NegInt(i) => i < 0,
        Num::Float(bits) => magnitude(bits) < INFINITY_BITS,
    }
}

/// Numbers are equal where they are of one kind and have one value.
pub open spec fn num_eq(a: Num, b: Num) -> bool {
    match (a, b) {
        (Num::PosInt(x), Num::PosInt(y)) => x == y,
        (Num::NegInt(x), Num::NegInt(y)) => x == y,
        (Num::Float(x), Num::Float(y)) => float_rank(x) == float_rank(y),
        _ => false,
    }
}

/// A valid number.
#[derive(Clone, Copy, Debug)]
pub struct Number {
    n: Num,
}

impl View for Number {
    type V = Num;

    closed spec fn view(&self) -> Num {
        if valid_num(self.n) {
            self.n
        } else {
            Num::PosInt(0)
        }
    }
}

/// A number is valid.
pub proof fn lemma_number_valid(n: Number)
    ensures
        valid_num(n@),
{
}

/// Whether the first of two finite doubles is the smaller one.
pub fn float_below(a: u64, b: u64) -> (r: bool)
    ensures
        r == (float_rank(a) < float_rank(b)),
{
    if a < SIGN_BIT {
        b < SIGN_BIT && a < b
    } else if b < SIGN_BIT {
        a - SIGN_BIT > 0 || b > 0
    } else {
        b < a
    }
}

impl Number {
    #[verifier::type_invariant]
    spec fn valid(self) -> bool {
        valid_num(self.n)
    }

    /// An integer from zero on.
    pub fn from_u64(u: u64) -> (r: Number)
        ensures
            r@ == Num::PosInt(u),
    {
        Number { n: Num::PosInt(u) }
    }

    /// An integer.
    pub fn from_i64(i: i64) -> (r: Number)
        ensures
            r@ == (if i < 0 { Num::NegInt(i) } else { Num::PosInt(i as u64) }),
    {
        if i < 0 {
            Number { n: Num::NegInt(i) }
        } else {
            Number { n: Num::PosInt(i as u64) }
        }
    }

    /// The double with the given bits, where it is finite.
    pub fn from_bits(bits: u64) -> (r: Option<Number>)
        ensures
            match r {
                Some(n) => n@ == Num::Float(bits) && valid_num(n@),
                None => !valid_num(Num::Float(bits)),
            },
    {
        let size: u64 = if bits < SIGN_BIT { bits } else { bits - SIGN_BIT };
        if size < INFINITY_BITS {
            Some(Number { n: Num::Float(bits) })
        } else {
            None
        }
    }

    /// What the number is.
    pub fn num(&self) -> (r: Num)
        ensures
            r == self@,
            valid_num(r),
    {
        proof {
            use_type_invariant(self);
        }
        self.n
    }

    /// Whether two numbers are equal.
    pub fn equals(&self, other: &Number) -> (r: bool)
        ensures
            r == num_eq(self@, other@),
    {
        match (self.num(), other.num()) {
            (Num::PosInt(x), Num::PosInt(y)) => x == y,
            (Num::NegInt(x), Num::NegInt(y)) => x == y,
            (Num::Float(x), Num::Float(y)) => !float_below(x, y) && !float_below(y, x),
            _ => false,
        }
    }
}

/// The integers up to this one, and down to its opposite, are doubles.
pub const EXACT: u64 = 9007199254740992;

/// The integer that a number is, where it is one and is sure to be a double.
pub open spec fn exact_int(n: Num) -> Option<int> {
    match n {
        Num::PosInt(u) => if u <= EXACT {
            Some(u as int)
        } else {
            None
        },
        Num::NegInt(i) => if -EXACT <= i < 0 {
            Some(i as int)
        } else {
            None
        },
        Num::Float(_) => None,
    }
}

/// The bits of the double that is `n`, which is between two powers of two and at most [`EXACT`]: the
/// exponent, raised by 1023, above the 52 bits that come after the highest bit of `n`.
pub open spec fn whole_bits(n: int, e: nat) -> int {
    (1023 + e) * pow2(52) + (n - pow2(e)) * pow2((52 - e) as nat)
}

/// `m` are the bits of the double that is `n`, which is not below zero.
pub open spec fn is_whole(n: int, m: int) -> bool {
    if n == 0 {
        m == 0
    } else {
        exists|e: nat| e <= 53 && pow2(e) <= n < pow2(e + 1) && m == #[trigger] whole_bits(n, e)
    }
}

/// `bits` are those of the double that is the integer `n`.
pub open spec fn is_double_of(n: int, bits: u64) -> bool {
    if n < 0 {
        bits >= SIGN_BIT && is_whole(-n, bits - SIGN_BIT)
    } else {
        bits < SIGN_BIT && is_whole(n, bits as int)
    }
}

/// Of two integers that are doubles the greater one has the greater bits.
proof fn lemma_whole_order(a: int, b: int, x: int, y: int)
    requires
        0 <= a < b <= EXACT,
        is_whole(a, x),
        is_whole(b, y),
    ensures
        0 <= x < y,
{
    lemma2_to64();
    lemma2_to64_rest();
    let f = choose|e: nat| e <= 53 && pow2(e) <= b < pow2(e + 1) && y == #[trigger] whole_bits(b, e);
    lemma_pow2_pos((52 - f) as nat);
    assert((b - pow2(f)) * pow2((52 - f) as nat) >= 0) by (nonlinear_arith)
        requires
            b - pow2(f) >= 0,
            pow2((52 - f) as nat) > 0,
    ;
    if a > 0 {
        let e = choose|e: nat| e <= 53 && pow2(e) <= a < pow2(e + 1) && x == #[trigger] whole_bits(a, e);
        lemma_pow2_pos((52 - e) as nat);
        assert((a - pow2(e)) * pow2((52 - e) as nat) >= 0) by (nonlinear_arith)
            requires
                a - pow2(e) >= 0,
                pow2((52 - e) as nat) > 0,
        ;
        if f < e {
            if f + 1 < e {
                lemma_pow2_strictly_increases(f + 1, e);
            }
            assert(false);
        } else if e == f {
            let p = pow2((52 - e) as nat);
            assert((a - pow2(e)) * p < (b - pow2(e)) * p) by (nonlinear_arith)
                requires
                    a < b,
                    p > 0,
            ;
        } else {
            let p = pow2((52 - e) as nat);
            lemma_pow2_unfold(e + 1);
            lemma_pow2_adds(e, (52 - e) as nat);
            assert((a - pow2(e)) * p < pow2(e) * p) by (nonlinear_arith)
                requires
                    a - pow2(e) < pow2(e),
                    p > 0,
            ;
            assert((1023 + e) * pow2(52) + pow2(52) == (1024 + e) * pow2(52)) by (nonlinear_arith);
            assert((1024 + e) * pow2(52) <= (1023 + f) * pow2(52)) by (nonlinear_arith)
                requires
                    1024 + e <= 1023 + f,
                    pow2(52) >= 0,
            ;
        }
    }
}

/// Integers that are doubles stand in the order of the doubles as they do in that of the integers.
pub proof fn lemma_integers_in_order(a: int, b: int, x: u64, y: u64)
    requires
        -EXACT <= a <= EXACT,
        -EXACT <= b <= EXACT,
        is_double_of(a, x),
        is_double_of(b, y),
    ensures
        a < b <==> float_rank(x) < float_rank(y),
        a == b <==> float_rank(x) == float_rank(y),
{
    lemma_rank_of_integer(a, x);
    lemma_rank_of_integer(b, y);
    let (m, n) = (magnitude(x), magnitude(y));
    let (p, q) = (if a < 0 { -a } else { a }, if b < 0 { -b } else { b });
    if p < q {
        lemma_whole_order(p, q, m, n);
    } else if q < p {
        lemma_whole_order(q, p, n, m);
    } else {
        lemma_whole_unique(p, m, n);
    }
    if p > 0 {
        lemma_whole_order(0, p, 0, m);
    }
    if q > 0 {
        lemma_whole_order(0, q, 0, n);
    }
}

proof fn lemma_rank_of_integer(a: int, x: u64)
    requires
        is_double_of(a, x),
    ensures
        is_whole(if a < 0 { -a } else { a }, magnitude(x)),
        float_rank(x) == (if a < 0 { -magnitude(x) } else { magnitude(x) }),
{
}

proof fn lemma_whole_unique(n: int, x: int, y: int)
    requires
        0 <= n <= EXACT,
        is_whole(n, x),
        is_whole(n, y),
    ensures
        x == y,
{
    if n > 0 {
        let e = choose|e: nat| e <= 53 && pow2(e) <= n < pow2(e + 1) && x == #[trigger] whole_bits(n, e);
        let f = choose|e: nat| e <= 53 && pow2(e) <= n < pow2(e + 1) && y == #[trigger] whole_bits(n, e);
        if e < f {
            if e + 1 < f {
                lemma_pow2_strictly_increases(e + 1, f);
            }
        } else if f < e {
            if f + 1 < e {
                lemma_pow2_strictly_increases(f + 1, e);
            }
        }
    }
}

} // verus!
