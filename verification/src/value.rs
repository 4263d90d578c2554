//! Typed values of the store's numeric domains.
//!
//! Fixed-width integers are carried directly. Arbitrary-precision integers
//! are carried as their base-10 digit text; arbitrary-precision decimals as
//! a signed mantissa text together with a decimal scale, denoting
//! `mantissa / 10^scale`. 64-bit floats are carried as their raw bit
//! pattern, which the store treats as an opaque payload.

use vstd::prelude::*;

use crate::digits::{is_digit, is_dec_digits, is_int_str, nat_of_dec, int_of_dec};

verus! {

/// The numeric domain bound to a key at its first write.
#[derive(Clone, Copy, PartialEq, Eq, Structural, Debug)]
pub enum Tag {
    Int64,
    Float64,
    BigInt,
    BigDecimal,
}

/// The failures a merge or a parse can report.
#[derive(Clone, Copy, PartialEq, Eq, Structural, Debug)]
pub enum StoreError {
    /// Malformed numeric text.
    ParseError,
    /// A fixed-width integer sum left the representable range.
    ArithmeticOverflow,
    /// A key was reused with a different numeric domain.
    DomainMismatch,
}

/// An arbitrary-precision unsigned integer, held as base-10 digit text.
#[derive(Debug, PartialEq, Eq)]
pub struct BigIntVal {
    pub digits: String,
}

impl BigIntVal {
    /// The digit text is non-empty and all digits.
    pub open spec fn wf(&self) -> bool {
        is_dec_digits(self.digits@)
    }

    /// The natural number this value denotes.
    pub open spec fn value(&self) -> nat {
        nat_of_dec(self.digits@)
    }

    /// Parse base-10 text. Succeeds exactly on non-empty all-digit input.
    pub fn parse(s: &str) -> (r: Result<BigIntVal, StoreError>)
        ensures
            r is Ok <==> is_dec_digits(s@),
            r matches Ok(v) ==> v.wf() && v.digits@ == s@ && v.value() == nat_of_dec(s@),
            r matches Err(e) ==> e == StoreError::ParseError,
    {
        let n = s.unicode_len();
        if n == 0 {
            return Err(StoreError::ParseError);
        }
        let mut i: usize = 0;
        while i < n
            invariant
                0 <= i <= n,
                n == s@.len(),
                forall|j: int| 0 <= j < i ==> is_digit(#[trigger] s@[j]),
            decreases n - i,
        {
            let u = s.get_char(i) as u32;
            if u < 48 || u > 57 {
                assert(!is_digit(s@[i as int]));
                return Err(StoreError::ParseError);
            }
            assert(is_digit(s@[i as int]));
            i += 1;
        }
        Ok(BigIntVal { digits: s.to_owned() })
    }
}

/// The unsigned part of a numeric text: what follows an optional minus sign.
pub open spec fn unsigned_body(s: Seq<char>) -> Seq<char> {
    if s.len() > 0 && s[0] == '-' {
        s.skip(1)
    } else {
        s
    }
}

/// Position `i` splits `u` into a non-empty digit run, a dot, and a
/// non-empty digit run.
pub open spec fn dot_at(u: Seq<char>, i: int) -> bool {
    &&& 0 <= i < u.len()
    &&& u[i] == '.'
    &&& is_dec_digits(u.subrange(0, i))
    &&& is_dec_digits(u.subrange(i + 1, u.len() as int))
}

/// An unsigned decimal text: digits, optionally with one interior dot.
pub open spec fn is_dec_body(u: Seq<char>) -> bool {
    is_dec_digits(u) || exists|i: int| #[trigger] dot_at(u, i)
}

/// A decimal text: an optional minus sign before an unsigned decimal text.
pub open spec fn is_dec_text(s: Seq<char>) -> bool {
    is_dec_body(unsigned_body(s))
}

/// The dot position of an unsigned decimal text, where one exists.
pub open spec fn body_dot(u: Seq<char>) -> int {
    choose|i: int| dot_at(u, i)
}

/// The mantissa digits of an unsigned decimal text: the text with its dot
/// removed.
pub open spec fn body_mant(u: Seq<char>) -> Seq<char> {
    if is_dec_digits(u) {
        u
    } else {
        u.subrange(0, body_dot(u)) + u.subrange(body_dot(u) + 1, u.len() as int)
    }
}

/// The scale of an unsigned decimal text: how many digits follow the dot.
pub open spec fn body_scale(u: Seq<char>) -> int {
    if is_dec_digits(u) {
        0
    } else {
        u.len() - body_dot(u) - 1
    }
}

/// The mantissa text of a decimal text, sign included.
pub open spec fn text_mant(s: Seq<char>) -> Seq<char> {
    if s.len() > 0 && s[0] == '-' {
        seq!['-'] + body_mant(s.skip(1))
    } else {
        body_mant(s)
    }
}

/// The scale of a decimal text.
pub open spec fn text_scale(s: Seq<char>) -> int {
    body_scale(unsigned_body(s))
}

/// An unsigned decimal text has at most one dot position.
pub proof fn lemma_dot_unique(u: Seq<char>, i: int, j: int)
    requires
        dot_at(u, i),
        dot_at(u, j),
    ensures
        i == j,
{
    if i < j {
        assert(u.subrange(i + 1, u.len() as int)[j - i - 1] == u[j]);
        assert(is_digit(u[j]));
    }
    if j < i {
        assert(u.subrange(j + 1, u.len() as int)[i - j - 1] == u[i]);
        assert(is_digit(u[i]));
    }
}

/// An arbitrary-precision decimal: a signed base-10 mantissa text and a
/// scale, denoting `mantissa / 10^scale`.
#[derive(Debug, PartialEq, Eq)]
pub struct BigDecVal {
    pub mantissa: String,
    pub scale: u64,
}

impl BigDecVal {
    /// The mantissa is a signed digit text and the scale fits an `i64`.
    pub open spec fn wf(&self) -> bool {
        is_int_str(self.mantissa@) && self.scale <= i64::MAX as u64
    }

    /// The integer the mantissa text denotes.
    pub open spec fn num(&self) -> int {
        int_of_dec(self.mantissa@)
    }

    /// Parse base-10 decimal text, optionally signed, optionally with a
    /// fractional part. Succeeds exactly on well-formed text whose scale
    /// fits an `i64`.
    pub fn parse(s: &str) -> (r: Result<BigDecVal, StoreError>)
        ensures
            r is Ok <==> is_dec_text(s@) && text_scale(s@) <= i64::MAX,
            r matches Ok(d) ==> d.wf() && d.mantissa@ == text_mant(s@) && d.scale == text_scale(
                s@,
            ),
            r matches Err(e) ==> e == StoreError::ParseError,
    {
        let n = s.unicode_len();
        let neg = n > 0 && s.get_char(0) as u32 == 45;
        proof {
            assert(neg <==> (s@.len() > 0 && s@[0] == '-'));
        }
        let start: usize = if neg {
            1
        } else {
            0
        };
        let ghost u = unsigned_body(s@);
        proof {
            assert(u == s@.subrange(start as int, n as int));
        }
        let mut i: usize = start;
        let mut has_dot: bool = false;
        let mut dot_idx: usize = 0;
        while i < n
            invariant
                start <= i <= n,
                n == s@.len(),
                start == 0 || start == 1,
                neg <==> (s@.len() > 0 && s@[0] == '-'),
                start == (if neg { 1int } else { 0int }),
                has_dot ==> start < dot_idx < i && s@[dot_idx as int] == '.',
                forall|j: int|
                    start <= j < i && (!has_dot || j != dot_idx) ==> is_digit(#[trigger] s@[j]),
            decreases n - i,
        {
            let c = s.get_char(i) as u32;
            if c == 46 {
                assert(s@[i as int] == '.');
                if has_dot || i == start {
                    proof {
                        lemma_parse_reject_dot(s@, start as int, i as int, has_dot, dot_idx as int);
                    }
                    return Err(StoreError::ParseError);
                }
                has_dot = true;
                dot_idx = i;
            } else if c < 48 || c > 57 {
                assert(!is_digit(s@[i as int]) && s@[i as int] != '.');
                proof {
                    lemma_parse_reject_char(s@, start as int, i as int);
                }
                return Err(StoreError::ParseError);
            } else {
                assert(is_digit(s@[i as int]));
            }
            i += 1;
        }
        if n == start {
            proof {
                assert(u.len() == 0);
            }
            return Err(StoreError::ParseError);
        }
        if has_dot && dot_idx == n - 1 {
            proof {
                lemma_parse_reject_trailing_dot(s@, start as int, dot_idx as int);
            }
            return Err(StoreError::ParseError);
        }
        if has_dot {
            proof {
                lemma_parse_dot_shape(s@, start as int, dot_idx as int);
            }
            let scale_count: usize = n - 1 - dot_idx;
            if scale_count as u64 > 0x7fff_ffff_ffff_ffffu64 {
                return Err(StoreError::ParseError);
            }
            let head = s.substring_char(0, dot_idx);
            let tail = s.substring_char(dot_idx + 1, n);
            let mantissa = head.to_owned().concat(tail);
            proof {
                lemma_parse_dot_result(s@, start as int, dot_idx as int);
            }
            Ok(BigDecVal { mantissa, scale: scale_count as u64 })
        } else {
            proof {
                assert(is_dec_digits(u));
                if neg {
                    assert(text_mant(s@) =~= s@);
                } else {
                    assert(text_mant(s@) == s@);
                }
                assert(is_int_str(s@));
            }
            Ok(BigDecVal { mantissa: s.to_owned(), scale: 0 })
        }
    }
}

/// A text whose character at `i` is neither a digit nor a dot is not
/// decimal text.
proof fn lemma_parse_reject_char(s: Seq<char>, start: int, i: int)
    requires
        start == (if s.len() > 0 && s[0] == '-' { 1int } else { 0int }),
        start <= i < s.len(),
        !is_digit(s[i]),
        s[i] != '.',
    ensures
        !is_dec_text(s),
{
    let u = unsigned_body(s);
    assert(u =~= s.subrange(start, s.len() as int));
    let k = i - start;
    assert(u[k] == s[i]);
    if is_dec_digits(u) {
        assert(is_digit(u[k]));
    }
    if exists|d: int| #[trigger] dot_at(u, d) {
        let d = choose|d: int| #[trigger] dot_at(u, d);
        if d < k {
            assert(u.subrange(d + 1, u.len() as int)[k - d - 1] == u[k]);
            assert(is_digit(u[k]));
        } else if d > k {
            assert(u.subrange(0, d)[k] == u[k]);
            assert(is_digit(u[k]));
        } else {
            assert(u[k] == '.');
        }
    }
}

/// A dot that repeats, or stands first in the unsigned part, rules the
/// text out.
proof fn lemma_parse_reject_dot(s: Seq<char>, start: int, i: int, has_dot: bool, dot_idx: int)
    requires
        start == (if s.len() > 0 && s[0] == '-' { 1int } else { 0int }),
        start <= i < s.len(),
        s[i] == '.',
        has_dot ==> start < dot_idx < i && s[dot_idx] == '.',
        has_dot || i == start,
    ensures
        !is_dec_text(s),
{
    let u = unsigned_body(s);
    assert(u =~= s.subrange(start, s.len() as int));
    let k = i - start;
    assert(u[k] == '.');
    if is_dec_digits(u) {
        assert(is_digit(u[k]));
    }
    if exists|d: int| #[trigger] dot_at(u, d) {
        let d = choose|d: int| #[trigger] dot_at(u, d);
        if has_dot {
            let k2 = dot_idx - start;
            assert(u[k2] == '.');
            if d != k {
                if d < k {
                    assert(u.subrange(d + 1, u.len() as int)[k - d - 1] == u[k]);
                } else {
                    assert(u.subrange(0, d)[k] == u[k]);
                }
                assert(is_digit(u[k]));
            }
            if d != k2 {
                if d < k2 {
                    assert(u.subrange(d + 1, u.len() as int)[k2 - d - 1] == u[k2]);
                } else {
                    assert(u.subrange(0, d)[k2] == u[k2]);
                }
                assert(is_digit(u[k2]));
            }
        } else {
            assert(k == 0);
            if d == 0 {
                assert(!is_dec_digits(u.subrange(0, 0)));
            } else {
                assert(u.subrange(0, d)[0] == u[0]);
                assert(is_digit(u[0]));
            }
        }
    }
}

/// A dot with nothing after it rules the text out.
proof fn lemma_parse_reject_trailing_dot(s: Seq<char>, start: int, dot_idx: int)
    requires
        start == (if s.len() > 0 && s[0] == '-' { 1int } else { 0int }),
        start < dot_idx < s.len(),
        dot_idx == s.len() - 1,
        s[dot_idx] == '.',
    ensures
        !is_dec_text(s),
{
    let u = unsigned_body(s);
    assert(u =~= s.subrange(start, s.len() as int));
    let k = dot_idx - start;
    assert(u[k] == '.');
    assert(k == u.len() - 1);
    if is_dec_digits(u) {
        assert(is_digit(u[k]));
    }
    if exists|d: int| #[trigger] dot_at(u, d) {
        let d = choose|d: int| #[trigger] dot_at(u, d);
        if d == k {
            assert(!is_dec_digits(u.subrange(k + 1, u.len() as int)));
        } else {
            if d < k {
                assert(u.subrange(d + 1, u.len() as int)[k - d - 1] == u[k]);
            } else {
                assert(u.subrange(0, d)[k] == u[k]);
            }
            assert(is_digit(u[k]));
        }
    }
}

/// A scan that found one interior dot with digits on both sides
/// establishes the dot shape of the unsigned part.
proof fn lemma_parse_dot_shape(s: Seq<char>, start: int, dot_idx: int)
    requires
        start == (if s.len() > 0 && s[0] == '-' { 1int } else { 0int }),
        start < dot_idx < s.len() - 1,
        s[dot_idx] == '.',
        forall|j: int| start <= j < s.len() && j != dot_idx ==> is_digit(#[trigger] s[j]),
    ensures
        is_dec_text(s),
        body_dot(unsigned_body(s)) == dot_idx - start,
        text_scale(s) == s.len() - 1 - dot_idx,
{
    let u = unsigned_body(s);
    assert(u =~= s.subrange(start, s.len() as int));
    let k = dot_idx - start;
    assert(u[k] == '.');
    assert(forall|j: int| 0 <= j < u.len() && j != k ==> is_digit(#[trigger] u[j]));
    assert(is_dec_digits(u.subrange(0, k))) by {
        assert(forall|j: int|
            0 <= j < k ==> u.subrange(0, k)[j] == u[j] && is_digit(#[trigger] u[j]));
    }
    assert(is_dec_digits(u.subrange(k + 1, u.len() as int))) by {
        assert(forall|j: int|
            0 <= j < u.len() - k - 1 ==> u.subrange(k + 1, u.len() as int)[j] == u[#[trigger] (j + k
                + 1)] && is_digit(u[j + k + 1]));
    }
    assert(dot_at(u, k));
    assert(!is_dec_digits(u));
    let d = body_dot(u);
    assert(dot_at(u, d));
    lemma_dot_unique(u, d, k);
}

/// The mantissa and scale that the scan commits match the spec-level
/// reading of the text.
proof fn lemma_parse_dot_result(s: Seq<char>, start: int, dot_idx: int)
    requires
        start == (if s.len() > 0 && s[0] == '-' { 1int } else { 0int }),
        start < dot_idx < s.len() - 1,
        s[dot_idx] == '.',
        forall|j: int| start <= j < s.len() && j != dot_idx ==> is_digit(#[trigger] s[j]),
    ensures
        text_mant(s) =~= s.subrange(0, dot_idx) + s.subrange(dot_idx + 1, s.len() as int),
        is_int_str(text_mant(s)),
{
    lemma_parse_dot_shape(s, start, dot_idx);
    let u = unsigned_body(s);
    assert(u =~= s.subrange(start, s.len() as int));
    let k = dot_idx - start;
    let m = body_mant(u);
    assert(m == u.subrange(0, k) + u.subrange(k + 1, u.len() as int));
    assert(m =~= s.subrange(start, dot_idx) + s.subrange(dot_idx + 1, s.len() as int));
    assert(is_dec_digits(m)) by {
        assert(forall|j: int| 0 <= j < k ==> m[j] == u[j] && is_digit(#[trigger] u[j]));
        assert(forall|j: int|
            k <= j < m.len() ==> m[j] == u[#[trigger] (j + 1)] && is_digit(u[j + 1]));
    }
    if s.len() > 0 && s[0] == '-' {
        assert(text_mant(s) == seq!['-'] + m);
        assert((seq!['-'] + m) =~= s.subrange(0, dot_idx) + s.subrange(
            dot_idx + 1,
            s.len() as int,
        ));
        assert((seq!['-'] + m)[0] == '-');
        assert((seq!['-'] + m).skip(1) =~= m);
    } else {
        assert(text_mant(s) == m);
        assert(m[0] == s[0]);
        assert(is_digit(m[0]));
        assert(m[0] != '-');
    }
}

/// A value as stored in a slot, tagged with its numeric domain.
pub enum StoredVal {
    I64(i64),
    F64Bits(u64),
    Big(BigIntVal),
    Dec(BigDecVal),
}

/// The mathematical content of a stored value: the exact number it denotes,
/// or the raw bits for the float domain.
pub enum ValM {
    I64(int),
    F64Bits(u64),
    Big(nat),
    Dec(int, int),
}

impl StoredVal {
    /// Any arbitrary-precision payload is well-formed digit text.
    pub open spec fn wf(&self) -> bool {
        match self {
            StoredVal::I64(_) => true,
            StoredVal::F64Bits(_) => true,
            StoredVal::Big(b) => b.wf(),
            StoredVal::Dec(d) => d.wf(),
        }
    }

    /// The domain this value belongs to.
    pub open spec fn tag(&self) -> Tag {
        match self {
            StoredVal::I64(_) => Tag::Int64,
            StoredVal::F64Bits(_) => Tag::Float64,
            StoredVal::Big(_) => Tag::BigInt,
            StoredVal::Dec(_) => Tag::BigDecimal,
        }
    }

    /// The mathematical content of this value.
    pub open spec fn model(&self) -> ValM {
        match self {
            StoredVal::I64(x) => ValM::I64(*x as int),
            StoredVal::F64Bits(b) => ValM::F64Bits(*b),
            StoredVal::Big(b) => ValM::Big(b.value()),
            StoredVal::Dec(d) => ValM::Dec(d.num(), d.scale as int),
        }
    }
}

/// The larger of two scales.
pub open spec fn dec_max_scale(s1: int, s2: int) -> int {
    if s1 >= s2 {
        s1
    } else {
        s2
    }
}

/// A mantissa rewritten from scale `s` to the coarser scale `t`, keeping
/// the denoted number `m / 10^s` unchanged.
pub open spec fn dec_align(m: int, s: int, t: int) -> int
    recommends
        0 <= s <= t,
{
    m * crate::digits::pow10((t - s) as nat)
}

/// The mantissa of the exact sum of `m1 / 10^s1` and `m2 / 10^s2`, taken
/// at the larger of the two scales.
pub open spec fn dec_add_m(m1: int, s1: int, m2: int, s2: int) -> int {
    let t = dec_max_scale(s1, s2);
    dec_align(m1, s1, t) + dec_align(m2, s2, t)
}

/// `m1 / 10^s1 <= m2 / 10^s2`, compared exactly by cross-multiplication.
pub open spec fn dec_le(m1: int, s1: int, m2: int, s2: int) -> bool
    recommends
        s1 >= 0,
        s2 >= 0,
{
    m1 * crate::digits::pow10(s2 as nat) <= m2 * crate::digits::pow10(s1 as nat)
}

/// The domain of a model value.
pub open spec fn model_tag(v: ValM) -> Tag {
    match v {
        ValM::I64(_) => Tag::Int64,
        ValM::F64Bits(_) => Tag::Float64,
        ValM::Big(_) => Tag::BigInt,
        ValM::Dec(_, _) => Tag::BigDecimal,
    }
}

} // verus!
