use vstd::prelude::*;

verus! {

pub const ZERO: u8 = 48;

pub const MINUS: u8 = 45;

pub open spec fn is_digit(b: u8) -> bool {
    ZERO <= b && b <= ZERO + 9
}

pub open spec fn all_digits(s: Seq<u8>) -> bool {
    forall|i: int| 0 <= i < s.len() ==> is_digit(#[trigger] s[i])
}

/// The number that a run of ASCII decimal digits stands for, most
/// significant digit first.
pub open spec fn digits_value(s: Seq<u8>) -> nat
    decreases s.len(),
{
    if s.len() == 0 {
        0
    } else {
        digits_value(s.drop_last()) * 10 + (s.last() - ZERO) as nat
    }
}

/// The shortest decimal text of `n`: no sign and no leading zero.
pub open spec fn decimal_text(n: nat) -> Seq<u8>
    decreases n,
{
    if n < 10 {
        seq![(ZERO + n) as u8]
    } else {
        decimal_text(n / 10).push((ZERO + n % 10) as u8)
    }
}

/// The decimal text of `i`, led by a minus sign when it is negative.
pub open spec fn signed_text(i: int) -> Seq<u8> {
    if i < 0 {
        seq![MINUS] + decimal_text((-i) as nat)
    } else {
        decimal_text(i as nat)
    }
}

/// A non-empty run of decimal digits and the number it stands for.
pub open spec fn parse_unsigned(s: Seq<u8>) -> Option<nat> {
    if s.len() > 0 && all_digits(s) {
        Some(digits_value(s))
    } else {
        None
    }
}

/// `parse_unsigned`, where the number is at most `max`.
pub open spec fn parse_unsigned_to(s: Seq<u8>, max: nat) -> Option<nat> {
    match parse_unsigned(s) {
        Some(n) => if n <= max {
            Some(n)
        } else {
            None
        },
        None => None,
    }
}

pub open spec fn parse_u32_text(s: Seq<u8>) -> Option<u32> {
    match parse_unsigned_to(s, u32::MAX as nat) {
        Some(n) => Some(n as u32),
        None => None,
    }
}

/// Decimal digits with an optional leading minus sign, within the range of `i64`.
pub open spec fn parse_i64_text(s: Seq<u8>) -> Option<i64> {
    if s.len() > 0 && s[0] == MINUS {
        match parse_unsigned_to(s.drop_first(), 0x8000_0000_0000_0000) {
            Some(n) => Some((-n) as i64),
            None => None,
        }
    } else {
        match parse_unsigned_to(s, i64::MAX as nat) {
            Some(n) => Some(n as i64),
            None => None,
        }
    }
}

pub proof fn lemma_digits_prefix_le(s: Seq<u8>, k: int)
    requires
        all_digits(s),
        0 <= k <= s.len(),
    ensures
        digits_value(s.subrange(0, k)) <= digits_value(s),
    decreases s.len(),
{
    if k < s.len() {
        let t = s.drop_last();
        assert(t.subrange(0, k) =~= s.subrange(0, k));
        lemma_digits_prefix_le(t, k);
    } else {
        assert(s.subrange(0, k) =~= s);
    }
}

pub proof fn lemma_decimal_text(n: nat)
    ensures
        decimal_text(n).len() > 0,
        all_digits(decimal_text(n)),
        digits_value(decimal_text(n)) == n,
    decreases n,
{
    let s = decimal_text(n);
    if n < 10 {
        assert(s.drop_last() =~= Seq::<u8>::empty());
        assert(digits_value(Seq::<u8>::empty()) == 0);
    } else {
        lemma_decimal_text(n / 10);
        assert(s.drop_last() =~= decimal_text(n / 10));
        assert(s.last() - ZERO == n % 10);
        assert(n == (n / 10) * 10 + n % 10);
    }
}

pub proof fn lemma_signed_text(i: i64)
    ensures
        signed_text(i as int).len() > 0,
        forall|k: int|
            0 <= k < signed_text(i as int).len() ==> is_digit(#[trigger] signed_text(i as int)[k])
                || (k == 0 && signed_text(i as int)[k] == MINUS),
        parse_i64_text(signed_text(i as int)) == Some(i),
{
    let s = signed_text(i as int);
    if i < 0 {
        lemma_decimal_text((-i) as nat);
        assert(s.drop_first() =~= decimal_text((-i) as nat));
    } else {
        lemma_decimal_text(i as nat);
    }
}

/// Writes the shortest decimal text of `n` at the end of `out`.
pub fn push_decimal(out: &mut Vec<u8>, n: u64)
    ensures
        final(out)@ == old(out)@ + decimal_text(n as nat),
    decreases n,
{
    if n >= 10 {
        push_decimal(out, n / 10);
    }
    out.push(ZERO + (n % 10) as u8);
    assert(final(out)@ =~= old(out)@ + decimal_text(n as nat));
}

/// Writes the decimal text of `i` at the end of `out`, with a minus sign when
/// it is negative.
pub fn push_signed(out: &mut Vec<u8>, i: i64)
    ensures
        final(out)@ == old(out)@ + signed_text(i as int),
{
    if i < 0 {
        out.push(MINUS);
        let magnitude: u64 = (-(i as i128)) as u64;
        push_decimal(out, magnitude);
        assert(final(out)@ =~= old(out)@ + signed_text(i as int));
    } else {
        push_decimal(out, i as u64);
    }
}

/// Reads the digits of `s` from position `from` to its end as a number of at
/// most `max`.
pub fn parse_digits(s: &Vec<u8>, from: usize, max: u64) -> (r: Option<u64>)
    requires
        from <= s@.len(),
    ensures
        r == (match parse_unsigned_to(s@.subrange(from as int, s@.len() as int), max as nat) {
            Some(n) => Some(n as u64),
            None => None,
        }),
{
    let ghost whole = s@.subrange(from as int, s@.len() as int);
    let mut acc: u64 = 0;
    let mut i: usize = from;
    while i < s.len()
        invariant
            from <= i <= s@.len(),
            whole == s@.subrange(from as int, s@.len() as int),
            all_digits(s@.subrange(from as int, i as int)),
            acc as nat == digits_value(s@.subrange(from as int, i as int)),
            acc <= max,
        decreases s@.len() - i,
    {
        let b = s[i];
        let ghost prev = s@.subrange(from as int, i as int);
        let ghost next = s@.subrange(from as int, i + 1);
        assert(whole[i - from] == b);
        if b < ZERO || b > ZERO + 9 {
            return None;
        }
        assert(next.drop_last() =~= prev);
        let value: u128 = acc as u128 * 10 + (b - ZERO) as u128;
        if value > max as u128 {
            proof {
                if all_digits(whole) {
                    assert(whole.subrange(0, i + 1 - from) =~= next);
                    lemma_digits_prefix_le(whole, i + 1 - from);
                }
            }
            return None;
        }
        acc = value as u64;
        i = i + 1;
    }
    assert(s@.subrange(from as int, i as int) =~= whole);
    if i == from {
        None
    } else {
        Some(acc)
    }
}

pub fn parse_u32_field(s: &Vec<u8>) -> (r: Option<u32>)
    ensures
        r == parse_u32_text(s@),
{
    assert(s@.subrange(0, s@.len() as int) =~= s@);
    match parse_digits(s, 0, 0xffff_ffff) {
        Some(n) => Some(n as u32),
        None => None,
    }
}

pub fn parse_i64_field(s: &Vec<u8>) -> (r: Option<i64>)
    ensures
        r == parse_i64_text(s@),
{
    if s.len() > 0 && s[0] == MINUS {
        assert(s@.subrange(1, s@.len() as int) =~= s@.drop_first());
        match parse_digits(s, 1, 0x8000_0000_0000_0000) {
            Some(n) => {
                let v: i128 = -(n as i128);
                Some(v as i64)
            },
            None => None,
        }
    } else {
        assert(s@.subrange(0, s@.len() as int) =~= s@);
        match parse_digits(s, 0, 0x7fff_ffff_ffff_ffff) {
            Some(n) => Some(n as i64),
            None => None,
        }
    }
}

} // verus!
