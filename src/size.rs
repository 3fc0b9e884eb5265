use vstd::prelude::*;
use crate::error::SampleError;

verus! {

/// How many items a run should keep: a fixed count, or a fraction of the
/// population written as `numer / denom`.
#[derive(Debug, Clone, Copy, PartialEq, Eq, Structural)]
pub enum SampleSize {
    Absolute(usize),
    Relative { numer: u64, denom: u64 },
}

pub open spec fn is_digit(c: char) -> bool {
    '0' <= c && c <= '9'
}

pub open spec fn all_digits(s: Seq<char>) -> bool {
    forall|i: int| 0 <= i < s.len() ==> is_digit(#[trigger] s[i])
}

pub open spec fn digit_value(c: char) -> nat {
    ((c as u32) as int - 48) as nat
}

/// The number that the decimal digits `s` spell, most significant first.
pub open spec fn decimal_value(s: Seq<char>) -> nat
    decreases s.len(),
{
    if s.len() == 0 {
        0
    } else {
        decimal_value(s.drop_last()) * 10 + digit_value(s.last())
    }
}

pub open spec fn pow10(e: nat) -> nat
    decreases e,
{
    if e == 0 {
        1
    } else {
        10 * pow10((e - 1) as nat)
    }
}

/// `s` without one leading `+`, where it has one.
pub open spec fn unsigned(s: Seq<char>) -> Seq<char> {
    if s.len() > 0 && s[0] == '+' {
        s.skip(1)
    } else {
        s
    }
}

/// A size without a dot: a count written in decimal digits, with an optional
/// leading `+`.
pub open spec fn absolute_of(s: Seq<char>) -> Result<SampleSize, SampleError> {
    let d = unsigned(s);
    if d.len() > 0 && all_digits(d) && decimal_value(d) <= usize::MAX {
        Ok(SampleSize::Absolute(decimal_value(d) as usize))
    } else {
        Err(SampleError::InvalidConfiguration)
    }
}

/// `p` is the first position of `s` that holds a dot.
pub open spec fn first_dot_at(s: Seq<char>, p: int) -> bool {
    &&& 0 <= p < s.len()
    &&& s[p] == '.'
    &&& forall|q: int| 0 <= q < p ==> s[q] != '.'
}

pub open spec fn is_exp_mark(c: char) -> bool {
    c == 'e' || c == 'E'
}

/// `p` is the first position of `s` that holds an exponent mark.
pub open spec fn first_exp_at(s: Seq<char>, p: int) -> bool {
    &&& 0 <= p < s.len()
    &&& is_exp_mark(s[p])
    &&& forall|q: int| 0 <= q < p ==> !is_exp_mark(s[q])
}

/// An exponent: decimal digits with an optional sign, of a magnitude that
/// fits in a `u64`.
pub open spec fn exponent_of(x: Seq<char>) -> Option<int> {
    let signed = x.len() > 0 && (x[0] == '-' || x[0] == '+');
    let d = if signed {
        x.skip(1)
    } else {
        x
    };
    if d.len() > 0 && all_digits(d) && decimal_value(d) <= u64::MAX {
        Some(
            if x.len() > 0 && x[0] == '-' {
                -(decimal_value(d) as int)
            } else {
                decimal_value(d) as int
            },
        )
    } else {
        None
    }
}

/// How many `'0'` end `s`.
pub open spec fn trailing_zeros(s: Seq<char>) -> nat
    decreases s.len(),
{
    if s.len() > 0 && s.last() == '0' {
        1 + trailing_zeros(s.drop_last())
    } else {
        0
    }
}

/// The fraction `m / 10^e2` with `e2 > 19`, more decimal places than a `u64`
/// denominator holds: it is rounded down to 19 decimal places, and one that
/// rounds to zero is taken as `10^-19`. It must not exceed one.
pub open spec fn long_fraction(m: Seq<char>, e2: nat) -> Result<SampleSize, SampleError> {
    if decimal_value(m) <= pow10(e2) {
        let j = e2 - 19;
        let kept = if j <= m.len() {
            decimal_value(m.take(m.len() - j))
        } else {
            0
        };
        Ok(
            SampleSize::Relative {
                numer: (if kept == 0 {
                    1
                } else {
                    kept
                }) as u64,
                denom: pow10(19) as u64,
            },
        )
    } else {
        Err(SampleError::InvalidConfiguration)
    }
}

/// The fraction `int_part.frac × 10^exp`. Its digits `int_part frac` without
/// their trailing zeros spell `numer`, and `denom` is the power of ten that
/// puts the point back; the value must lie above zero and at most at one.
/// Where `denom` would exceed a `u64`, see `long_fraction`.
pub open spec fn fraction_of(int_part: Seq<char>, frac: Seq<char>, exp: Option<int>) -> Result<
    SampleSize,
    SampleError,
> {
    let mant = int_part + frac;
    let z = trailing_zeros(mant);
    let m = mant.take(mant.len() - z);
    let e2 = frac.len() - exp->Some_0 - z;
    if exp is Some && all_digits(mant) && m.len() > 0 && e2 >= 0 {
        if e2 > 19 {
            long_fraction(m, e2 as nat)
        } else if decimal_value(m) <= pow10(e2 as nat) {
            Ok(SampleSize::Relative { numer: decimal_value(m) as u64, denom: pow10(e2 as nat) as u64 })
        } else {
            Err(SampleError::InvalidConfiguration)
        }
    } else {
        Err(SampleError::InvalidConfiguration)
    }
}

/// A size with a dot, after the dot: the fraction digits, then an optional
/// exponent `e` or `E` with an optional sign.
pub open spec fn relative_of(int_part: Seq<char>, rest: Seq<char>) -> Result<SampleSize, SampleError> {
    if exists|q: int| first_exp_at(rest, q) {
        let q = choose|q: int| first_exp_at(rest, q);
        fraction_of(int_part, rest.take(q), exponent_of(rest.skip(q + 1)))
    } else {
        fraction_of(int_part, rest, Some(0))
    }
}

/// What a size string means: with a dot it is relative, without one absolute.
/// Either may begin with a `+`.
pub open spec fn parse_size_spec(s: Seq<char>) -> Result<SampleSize, SampleError> {
    if exists|p: int| first_dot_at(s, p) {
        let p = choose|p: int| first_dot_at(s, p);
        relative_of(unsigned(s.take(p)), s.skip(p + 1))
    } else {
        absolute_of(s)
    }
}

/// The target count of a size against a population of `n` items.
pub open spec fn resolve_spec(size: SampleSize, n: usize) -> Result<usize, SampleError> {
    match size {
        SampleSize::Absolute(c) => {
            if c <= n {
                Ok(c)
            } else {
                Err(SampleError::SizeExceedsPopulation)
            }
        },
        SampleSize::Relative { numer, denom } => {
            if numer == 0 || numer > denom {
                Err(SampleError::InvalidConfiguration)
            } else {
                Ok(((n as int * numer as int) / denom as int) as usize)
            }
        },
    }
}

proof fn lemma_value_prefix_le(s: Seq<char>, j: int)
    requires
        0 <= j <= s.len(),
    ensures
        decimal_value(s.take(j)) <= decimal_value(s),
    decreases s.len(),
{
    if j < s.len() {
        assert(s.drop_last().take(j) =~= s.take(j));
        lemma_value_prefix_le(s.drop_last(), j);
    } else {
        assert(s.take(j) =~= s);
    }
}

proof fn lemma_value_below_pow(s: Seq<char>)
    requires
        all_digits(s),
    ensures
        decimal_value(s) < pow10(s.len()),
    decreases s.len(),
{
    if s.len() > 0 {
        let t = s.drop_last();
        assert(all_digits(t)) by {
            assert forall|i: int| 0 <= i < t.len() implies is_digit(#[trigger] t[i]) by {
                assert(t[i] == s[i]);
            }
        }
        lemma_value_below_pow(t);
        assert(is_digit(s[s.len() - 1]));
        let v = decimal_value(t);
        let p = pow10(t.len());
        let d = digit_value(s.last());
        assert(d < 10);
        assert(v * 10 + d < 10 * p) by (nonlinear_arith)
            requires
                v < p,
                d < 10,
        ;
    }
}

proof fn lemma_pow10_positive(e: nat)
    ensures
        pow10(e) >= 1,
    decreases e,
{
    if e > 0 {
        lemma_pow10_positive((e - 1) as nat);
    }
}

/// The characters `s[from..to]`.
fn chars_of(s: &str, from: usize, to: usize) -> (r: Vec<char>)
    requires
        from <= to <= s@.len(),
    ensures
        r@ == s@.subrange(from as int, to as int),
{
    let mut r: Vec<char> = Vec::new();
    let mut i: usize = from;
    while i < to
        invariant
            from <= i <= to <= s@.len(),
            r@ == s@.subrange(from as int, i as int),
        decreases to - i,
    {
        r.push(s.get_char(i));
        i = i + 1;
        assert(r@ =~= s@.subrange(from as int, i as int));
    }
    r
}

/// Reads `s[from..to]` as decimal digits. `None` when a character there is
/// not a digit or the number does not fit in a `u64`.
fn read_decimal(s: &Vec<char>, from: usize, to: usize) -> (r: Option<u64>)
    requires
        from <= to <= s@.len(),
    ensures
        match r {
            Some(v) => all_digits(s@.subrange(from as int, to as int)) && v == decimal_value(
                s@.subrange(from as int, to as int),
            ),
            None => !all_digits(s@.subrange(from as int, to as int)) || decimal_value(
                s@.subrange(from as int, to as int),
            ) > u64::MAX,
        },
{
    let ghost whole = s@.subrange(from as int, to as int);
    let mut v: u64 = 0;
    let mut i: usize = from;
    while i < to
        invariant
            from <= i <= to <= s@.len(),
            whole == s@.subrange(from as int, to as int),
            all_digits(s@.subrange(from as int, i as int)),
            v == decimal_value(s@.subrange(from as int, i as int)),
        decreases to - i,
    {
        let c = s[i];
        let ghost before = s@.subrange(from as int, i as int);
        let ghost after = s@.subrange(from as int, i + 1);
        proof {
            assert(after.drop_last() =~= before);
            assert(after.last() == c);
            assert(whole.take(i + 1 - from) =~= after);
        }
        if !('0' <= c && c <= '9') {
            assert(whole[i - from] == c);
            return None;
        }
        let d: u64 = ((c as u32) - 48) as u64;
        assert(d == digit_value(c));
        match v.checked_mul(10) {
            Some(t) => match t.checked_add(d) {
                Some(nv) => {
                    v = nv;
                },
                None => {
                    proof {
                        lemma_value_prefix_le(whole, i + 1 - from);
                    }
                    return None;
                },
            },
            None => {
                proof {
                    lemma_value_prefix_le(whole, i + 1 - from);
                }
                return None;
            },
        }
        i = i + 1;
        proof {
            assert forall|k: int| 0 <= k < after.len() implies is_digit(#[trigger] after[k]) by {
                if k < before.len() {
                    assert(after[k] == before[k]);
                }
            }
        }
    }
    assert(s@.subrange(from as int, i as int) =~= whole);
    Some(v)
}

/// Reads an exponent from `s[from..to]`, as `exponent_of` says.
fn read_exponent(s: &Vec<char>, from: usize, to: usize) -> (r: Option<(bool, u64)>)
    requires
        from <= to <= s@.len(),
    ensures
        match exponent_of(s@.subrange(from as int, to as int)) {
            Some(e) => r matches Some((neg, mag)) && e == (if neg {
                -(mag as int)
            } else {
                mag as int
            }),
            None => r is None,
        },
{
    let ghost x = s@.subrange(from as int, to as int);
    let signed = from < to && (s[from] == '-' || s[from] == '+');
    let neg = from < to && s[from] == '-';
    let start = if signed {
        from + 1
    } else {
        from
    };
    proof {
        if signed {
            assert(x.skip(1) =~= s@.subrange(start as int, to as int));
        } else {
            assert(x =~= s@.subrange(start as int, to as int));
        }
    }
    if start == to {
        return None;
    }
    match read_decimal(s, start, to) {
        Some(v) => Some((neg, v)),
        None => None,
    }
}

proof fn lemma_trailing_zeros(s: Seq<char>, z: nat)
    requires
        z <= s.len(),
        forall|j: int| s.len() - z <= j < s.len() ==> s[j] == '0',
        z == s.len() || s[s.len() - 1 - z] != '0',
    ensures
        trailing_zeros(s) == z,
    decreases z,
{
    if z > 0 {
        let t = s.drop_last();
        assert forall|j: int| t.len() - (z - 1) <= j < t.len() implies t[j] == '0' by {
            assert(t[j] == s[j]);
        }
        if z - 1 < t.len() {
            assert(t[t.len() - 1 - (z - 1)] == s[s.len() - 1 - z]);
        }
        lemma_trailing_zeros(t, (z - 1) as nat);
    }
}

/// `10` to the power `e`, or `None` where that does not fit in a `u64`.
fn checked_pow10(e: usize) -> (r: Option<u64>)
    ensures
        match r {
            Some(p) => p == pow10(e as nat),
            None => pow10(e as nat) > u64::MAX,
        },
{
    let mut p: u64 = 1;
    let mut i: usize = 0;
    while i < e
        invariant
            i <= e,
            p == pow10(i as nat),
        decreases e - i,
    {
        match p.checked_mul(10) {
            Some(q) => {
                p = q;
            },
            None => {
                proof {
                    lemma_pow10_grows(i as nat + 1, e as nat);
                }
                return None;
            },
        }
        i = i + 1;
    }
    Some(p)
}

proof fn lemma_pow10_grows(a: nat, b: nat)
    requires
        a <= b,
    ensures
        pow10(a) <= pow10(b),
    decreases b - a,
{
    if a < b {
        lemma_pow10_grows(a, (b - 1) as nat);
        lemma_pow10_positive((b - 1) as nat);
    }
}


/// Appends the characters `text[from..to]` to `v`.
fn append_range(v: &mut Vec<char>, text: &Vec<char>, from: usize, to: usize)
    requires
        from <= to <= text@.len(),
    ensures
        final(v)@ == old(v)@ + text@.subrange(from as int, to as int),
{
    let ghost start = v@;
    let mut i: usize = from;
    while i < to
        invariant
            from <= i <= to <= text@.len(),
            v@ == start + text@.subrange(from as int, i as int),
        decreases to - i,
    {
        v.push(text[i]);
        i = i + 1;
        assert(v@ =~= start + text@.subrange(from as int, i as int));
    }
}

proof fn lemma_pow10_19()
    ensures
        pow10(19) == 10000000000000000000nat,
{
    reveal_with_fuel(pow10, 20);
}

proof fn lemma_pow10_add(a: nat, b: nat)
    ensures
        pow10(a + b) == pow10(a) * pow10(b),
    decreases b,
{
    if b > 0 {
        lemma_pow10_add(a, (b - 1) as nat);
        assert(pow10(a + b) == 10 * pow10((a + (b - 1)) as nat));
        let x = pow10(a);
        let y = pow10((b - 1) as nat);
        assert(pow10(b) == 10 * y);
        assert(10 * (x * y) == x * (10 * y)) by (nonlinear_arith);
    } else {
        assert(pow10(0) == 1);
        assert(a + b == a);
        let x = pow10(a);
        assert(x * 1 == x);
    }
}

proof fn lemma_value_concat(a: Seq<char>, b: Seq<char>)
    ensures
        decimal_value(a + b) == decimal_value(a) * pow10(b.len()) + decimal_value(b),
    decreases b.len(),
{
    if b.len() == 0 {
        assert(a + b =~= a);
        assert(pow10(0) == 1);
        assert(decimal_value(b) == 0);
        assert(decimal_value(a) * 1 == decimal_value(a));
    } else {
        let b2 = b.drop_last();
        assert((a + b).drop_last() =~= a + b2);
        assert((a + b).last() == b.last());
        lemma_value_concat(a, b2);
        let va = decimal_value(a);
        let p = pow10(b2.len());
        let vb = decimal_value(b2);
        let d = digit_value(b.last());
        assert(decimal_value(a + b) == decimal_value(a + b2) * 10 + d);
        assert(decimal_value(b) == vb * 10 + d);
        assert(pow10(b.len()) == 10 * p);
        assert((va * p + vb) * 10 + d == va * (10 * p) + (vb * 10 + d)) by (nonlinear_arith);
    }
}

/// Whether `v[..to]` are all decimal digits.
fn all_digit_chars(v: &Vec<char>, to: usize) -> (r: bool)
    requires
        to <= v@.len(),
    ensures
        r == all_digits(v@.take(to as int)),
{
    let mut i: usize = 0;
    while i < to
        invariant
            i <= to <= v@.len(),
            forall|j: int| 0 <= j < i ==> is_digit(#[trigger] v@[j]),
        decreases to - i,
    {
        if !('0' <= v[i] && v[i] <= '9') {
            assert(v@.take(to as int)[i as int] == v@[i as int]);
            return false;
        }
        i = i + 1;
    }
    assert forall|j: int| 0 <= j < to implies is_digit(#[trigger] v@.take(to as int)[j]) by {
        assert(v@.take(to as int)[j] == v@[j]);
    }
    true
}

/// The fraction `v[..mlen] / 10^e2` where `e2 > 19`, as `long_fraction` says.
fn read_long_fraction(mant: &Vec<char>, mlen: usize, e2: i128) -> (r: Result<SampleSize, SampleError>)
    requires
        0 < mlen <= mant@.len(),
        e2 > 19,
        all_digits(mant@.take(mlen as int)),
        mant@[mlen - 1] != '0',
    ensures
        r == long_fraction(mant@.take(mlen as int), e2 as nat),
{
    let ghost m = mant@.take(mlen as int);
    let j: i128 = e2 - 19;
    let big: u64 = 10000000000000000000;
    proof {
        lemma_pow10_19();
        lemma_pow10_add(19, j as nat);
        assert(19 + j as nat == e2 as nat);
        lemma_pow10_positive(j as nat);
        assert(pow10(e2 as nat) >= pow10(j as nat)) by (nonlinear_arith)
            requires
                pow10(e2 as nat) == pow10(19) * pow10(j as nat),
                pow10(19) >= 1,
        ;
    }
    if j >= mlen as i128 {
        proof {
            lemma_value_below_pow(m);
            lemma_pow10_grows(mlen as nat, j as nat);
        }
        return Ok(SampleSize::Relative { numer: 1, denom: big });
    }
    let keep = mlen - (j as usize);
    let ghost a = m.take(keep as int);
    let ghost b = m.skip(keep as int);
    proof {
        assert(a + b =~= m);
        lemma_value_concat(a, b);
        assert(all_digits(b)) by {
            assert forall|i: int| 0 <= i < b.len() implies is_digit(#[trigger] b[i]) by {
                assert(b[i] == m[keep + i]);
            }
        }
        assert(all_digits(a)) by {
            assert forall|i: int| 0 <= i < a.len() implies is_digit(#[trigger] a[i]) by {
                assert(a[i] == m[i]);
            }
        }
        lemma_value_below_pow(b);
        assert(b.last() == m[mlen - 1]);
        assert(b.last() == mant@[mlen - 1]);
        assert(is_digit(b.last()));
        assert(digit_value(b.last()) >= 1);
        assert(decimal_value(b) >= 1);
        assert(mant@.subrange(0, keep as int) =~= a);
        assert(b.len() == j);
    }
    let ghost pj = pow10(j as nat);
    let ghost p19 = pow10(19);
    let ghost va = decimal_value(a);
    let ghost vb = decimal_value(b);
    match read_decimal(mant, 0, keep) {
        Some(t) => {
            if t >= big {
                proof {
                    assert(va * pj + vb > p19 * pj) by (nonlinear_arith)
                        requires
                            va >= p19,
                            vb >= 1,
                    ;
                }
                Err(SampleError::InvalidConfiguration)
            } else {
                proof {
                    assert(va * pj + vb <= p19 * pj) by (nonlinear_arith)
                        requires
                            va + 1 <= p19,
                            vb < pj,
                    ;
                }
                Ok(
                    SampleSize::Relative {
                        numer: if t == 0 {
                            1
                        } else {
                            t
                        },
                        denom: big,
                    },
                )
            }
        },
        None => {
            proof {
                assert(va * pj + vb > p19 * pj) by (nonlinear_arith)
                    requires
                        va > p19,
                        vb >= 1,
                ;
            }
            Err(SampleError::InvalidConfiguration)
        },
    }
}

/// Reads a size from its text, as Rust's number parsers read it: with a dot,
/// a fraction of the population above zero and at most one (`"0.25"`,
/// `"+.5"`, `"2.5e-1"`); without one, a count (`"3"`, `"+3"`). Anything else
/// is an `InvalidConfiguration`.
///
/// A fraction is held as `numer / denom` with `denom` a power of ten and the
/// trailing zeros of its digits cancelled, so `"0.50000000000000000000"` is
/// `5 / 10`. It is exact up to 19 decimal places; one with more is rounded
/// down to 19 places over `denom = 10^19`, and one below `10^-19` is taken as
/// `10^-19`, as `long_fraction` says. An exponent must have a magnitude that
/// fits in a `u64`.
#[verifier::rlimit(60)]
pub fn parse_size(size: &str) -> (r: Result<SampleSize, SampleError>)
    ensures
        r == parse_size_spec(size@),
{
    let len = size.unicode_len();
    let text = chars_of(size, 0, len);
    let ghost s = size@;
    assert(text@ =~= s);
    let mut p: usize = 0;
    while p < len && text[p] != '.'
        invariant
            p <= len,
            len == text@.len(),
            text@ == s,
            forall|q: int| 0 <= q < p ==> s[q] != '.',
        decreases len - p,
    {
        p = p + 1;
    }
    if p == len {
        assert(!exists|q: int| first_dot_at(s, q));
        let st: usize = if len > 0 && text[0] == '+' {
            1
        } else {
            0
        };
        assert(unsigned(s) =~= s.subrange(st as int, len as int));
        if st == len {
            return Err(SampleError::InvalidConfiguration);
        }
        return match read_decimal(&text, st, len) {
            Some(v) => {
                if v <= usize::MAX as u64 {
                    Ok(SampleSize::Absolute(v as usize))
                } else {
                    Err(SampleError::InvalidConfiguration)
                }
            },
            None => Err(SampleError::InvalidConfiguration),
        };
    }
    let ghost rest = s.skip(p + 1);
    proof {
        assert(first_dot_at(s, p as int));
        let p2 = choose|q: int| first_dot_at(s, q);
        if p2 < p {
            assert(s[p2] != '.');
        }
        if p2 > p {
            assert(s[p as int] != '.');
        }
    }
    let st: usize = if p > 0 && text[0] == '+' {
        1
    } else {
        0
    };
    let ghost int_part = unsigned(s.take(p as int));
    assert(int_part =~= s.subrange(st as int, p as int));
    let mut q: usize = p + 1;
    while q < len && !(text[q] == 'e' || text[q] == 'E')
        invariant
            p + 1 <= q <= len,
            len == text@.len(),
            text@ == s,
            rest == s.skip(p + 1),
            forall|j: int| p + 1 <= j < q ==> !is_exp_mark(#[trigger] s[j]),
        decreases len - q,
    {
        q = q + 1;
    }
    let ghost frac = s.subrange(p + 1, q as int);
    let ghost spec_exp = if q < len {
        exponent_of(s.subrange(q + 1, len as int))
    } else {
        Some(0int)
    };
    proof {
        let qr = q - p - 1;
        if q < len {
            assert(first_exp_at(rest, qr)) by {
                assert forall|j: int| 0 <= j < qr implies !is_exp_mark(rest[j]) by {
                    assert(rest[j] == s[p + 1 + j]);
                }
            }
            let q2 = choose|j: int| first_exp_at(rest, j);
            if q2 < qr {
                assert(rest[q2] == s[p + 1 + q2]);
            }
            if q2 > qr {
                assert(!is_exp_mark(rest[qr]));
            }
            assert(rest.take(qr) =~= frac);
            assert(rest.skip(qr + 1) =~= s.subrange(q + 1, len as int));
        } else {
            assert forall|j: int| 0 <= j < rest.len() implies !first_exp_at(rest, j) by {
                assert(rest[j] == s[p + 1 + j]);
            }
            assert(rest =~= frac);
        }
        assert(parse_size_spec(s) == fraction_of(int_part, frac, spec_exp));
    }
    read_fraction(&text, st, p, q)
}

/// Reads the fraction `text[st..p] . text[p+1..q]`, with the exponent in
/// `text[q+1..]` where `q` is not the end.
#[verifier::rlimit(30)]
fn read_fraction(text: &Vec<char>, st: usize, p: usize, q: usize) -> (r: Result<SampleSize, SampleError>)
    requires
        st <= p < q <= text@.len(),
    ensures
        r == fraction_of(
            text@.subrange(st as int, p as int),
            text@.subrange(p + 1, q as int),
            if q < text@.len() {
                exponent_of(text@.subrange(q + 1, text@.len() as int))
            } else {
                Some(0int)
            },
        ),
{
    let len = text.len();
    let ghost int_part = text@.subrange(st as int, p as int);
    let ghost frac = text@.subrange(p + 1, q as int);
    let exp: Option<(bool, u64)> = if q < len {
        read_exponent(text, q + 1, len)
    } else {
        Some((false, 0))
    };
    let (neg, mag) = match exp {
        Some(e) => e,
        None => {
            return Err(SampleError::InvalidConfiguration);
        },
    };
    let mut mant: Vec<char> = Vec::new();
    append_range(&mut mant, text, st, p);
    append_range(&mut mant, text, p + 1, q);
    assert(mant@ =~= int_part + frac);
    let ml = mant.len();
    let mut z: usize = 0;
    while z < ml && mant[ml - 1 - z] == '0'
        invariant
            z <= ml,
            ml == mant@.len(),
            forall|j: int| ml - z <= j < ml ==> mant@[j] == '0',
        decreases ml - z,
    {
        z = z + 1;
    }
    proof {
        lemma_trailing_zeros(mant@, z as nat);
    }
    let mlen = ml - z;
    let ghost m = mant@.take(mlen as int);
    assert(mant@.subrange(0, mlen as int) =~= m);
    if mlen == 0 {
        return Err(SampleError::InvalidConfiguration);
    }
    let frac_len = q - (p + 1);
    let signed_exp: i128 = if neg {
        -(mag as i128)
    } else {
        mag as i128
    };
    let e2: i128 = frac_len as i128 - signed_exp - z as i128;
    if e2 < 0 {
        return Err(SampleError::InvalidConfiguration);
    }
    if !all_digit_chars(&mant, mlen) {
        proof {
            assert(!all_digits(mant@)) by {
                let i = choose|i: int| 0 <= i < mlen && !is_digit(#[trigger] mant@.take(mlen as int)[i]);
                assert(mant@.take(mlen as int)[i] == mant@[i]);
            }
        }
        return Err(SampleError::InvalidConfiguration);
    }
    proof {
        assert forall|j: int| 0 <= j < mant@.len() implies is_digit(#[trigger] mant@[j]) by {
            if j < mlen {
                assert(m[j] == mant@[j]);
            }
        }
    }
    if e2 > 19 {
        assert(mant@[mlen - 1] != '0');
        return read_long_fraction(&mant, mlen, e2);
    }
    proof {
        lemma_pow10_grows(e2 as nat, 19);
        lemma_pow10_19();
    }
    let denom = match checked_pow10(e2 as usize) {
        Some(d) => d,
        None => {
            return Err(SampleError::InvalidConfiguration);
        },
    };
    let numer = match read_decimal(&mant, 0, mlen) {
        Some(v) => v,
        None => {
            return Err(SampleError::InvalidConfiguration);
        },
    };
    if numer > denom {
        return Err(SampleError::InvalidConfiguration);
    }
    Ok(SampleSize::Relative { numer, denom })
}

/// The target count `k` of a size against a population of `n` items: a count
/// is taken as it is, a fraction `numer / denom` gives `floor(n * numer / denom)`.
pub fn resolve_size(size: &SampleSize, n: usize) -> (r: Result<usize, SampleError>)
    ensures
        r == resolve_spec(*size, n),
        r matches Ok(k) ==> k <= n,
{
    match size {
        SampleSize::Absolute(c) => {
            if *c <= n {
                Ok(*c)
            } else {
                Err(SampleError::SizeExceedsPopulation)
            }
        },
        SampleSize::Relative { numer, denom } => {
            if *numer == 0 || *numer > *denom {
                Err(SampleError::InvalidConfiguration)
            } else {
                proof {
                    lemma_fraction_of_le(n as nat, *numer as nat, *denom as nat);
                }
                let big_n = n as u128;
                let big_numer = *numer as u128;
                assert(big_n * big_numer <= u128::MAX) by (nonlinear_arith)
                    requires
                        big_n <= u64::MAX,
                        big_numer <= u64::MAX,
                ;
                let prod: u128 = big_n * big_numer;
                let k = prod / (*denom as u128);
                Ok(k as usize)
            }
        },
    }
}

proof fn lemma_fraction_of_le(n: nat, numer: nat, denom: nat)
    requires
        0 < denom,
        numer <= denom,
    ensures
        (n * numer) / denom <= n,
{
    assert(n * numer <= n * denom) by (nonlinear_arith)
        requires
            numer <= denom,
    ;
    vstd::arithmetic::div_mod::lemma_div_is_ordered((n * numer) as int, (n * denom) as int, denom as int);
    vstd::arithmetic::div_mod::lemma_div_by_multiple(n as int, denom as int);
}

/// Resolution is idempotent: the count that a size resolves to lies within
/// the population, and resolving that count again, as an absolute size against
/// the same population, gives it back. (That two resolutions of one pair agree
/// is the `ensures` of `resolve_size`, which fixes its result.)
pub proof fn lemma_resolve_idempotent(size: SampleSize, n: usize)
    ensures
        resolve_spec(size, n) matches Ok(k) ==> k <= n && resolve_spec(SampleSize::Absolute(k), n)
            == Ok::<usize, SampleError>(k),
{
    if let SampleSize::Relative { numer, denom } = size {
        if 0 < numer <= denom {
            lemma_fraction_of_le(n as nat, numer as nat, denom as nat);
        }
    }
}

} // verus!
