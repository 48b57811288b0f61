use vstd::prelude::*;

use crate::TsError;

verus! {

/// A decimal digit character.
pub open spec fn is_digit_char(c: char) -> bool {
    '0' as int <= c as int <= '9' as int
}

/// The numeric value of a decimal digit character.
pub open spec fn digit_val(c: char) -> int {
    c as int - '0' as int
}

/// A non-empty run of decimal digits, and nothing else: the only numeral
/// shape this parser accepts. In particular a sign character inside the
/// numeral, or a leading `+`, makes the expression malformed.
pub open spec fn is_numeral(s: Seq<char>) -> bool {
    s.len() > 0 && forall|i: int| 0 <= i < s.len() ==> is_digit_char(s[i])
}

/// The value of a digit sequence read as a base-10 numeral.
pub open spec fn numeral_val(s: Seq<char>) -> int
    decreases s.len(),
{
    if s.len() == 0 {
        0
    } else {
        10 * numeral_val(s.drop_last()) + digit_val(s.last())
    }
}

/// The recognized unit suffixes. Matching is case-sensitive: `m` is minutes
/// and `M` is months.
pub open spec fn is_unit_suffix(c: char) -> bool {
    c == 's' || c == 'm' || c == 'h' || c == 'd' || c == 'w' || c == 'y' || c == 'M'
}

/// Seconds per unit: seconds, minutes, hours, days, weeks, fixed 365-day
/// years, fixed 30-day months. Zero for a character that is no suffix.
pub open spec fn unit_seconds(c: char) -> int {
    if c == 's' {
        1
    } else if c == 'm' {
        60
    } else if c == 'h' {
        3600
    } else if c == 'd' {
        86400
    } else if c == 'w' {
        604800
    } else if c == 'y' {
        31536000
    } else if c == 'M' {
        2592000
    } else {
        0
    }
}

/// The unsigned part of an offset expression: a numeral followed by an
/// optional unit suffix. `None` when malformed.
pub open spec fn magnitude_value(s: Seq<char>) -> Option<int> {
    if s.len() > 0 && is_unit_suffix(s.last()) {
        if is_numeral(s.drop_last()) {
            Some(numeral_val(s.drop_last()) * unit_seconds(s.last()))
        } else {
            None
        }
    } else if is_numeral(s) {
        Some(numeral_val(s))
    } else {
        None
    }
}

/// The value in seconds of a whole offset expression: an optional leading
/// `-` followed by a magnitude. `None` when malformed.
pub open spec fn offset_value(s: Seq<char>) -> Option<int> {
    if s.len() > 0 && s[0] == '-' {
        match magnitude_value(s.skip(1)) {
            Some(v) => Some(-v),
            None => None,
        }
    } else {
        magnitude_value(s)
    }
}

/// Whether a mathematical integer fits in `i64`.
pub open spec fn in_i64_range(v: int) -> bool {
    i64::MIN <= v <= i64::MAX
}

/// Parse an offset expression into a signed count of seconds.
///
/// The expression is an optional leading `-`, a decimal numeral, and an
/// optional single-character unit suffix. A malformed expression yields
/// `ParseError`; a well-formed one whose value does not fit in `i64`
/// yields `OverflowError`.
#[verifier::loop_isolation(false)]
#[verifier::rlimit(60)]
pub fn parse_offset_to_seconds(offset: &str) -> (r: Result<i64, TsError>)
    ensures
        match r {
            Ok(v) => offset_value(offset@) == Some(v as int),
            Err(TsError::ParseError) => offset_value(offset@) is None,
            Err(TsError::OverflowError) => offset_value(offset@) is Some && !in_i64_range(
                offset_value(offset@).unwrap(),
            ),
        },
{
    let ghost s = offset@;
    let n = offset.unicode_len();
    if n == 0 {
        return Err(TsError::ParseError);
    }
    let neg = offset.get_char(0) == '-';
    let start: usize = if neg {
        1
    } else {
        0
    };
    if start >= n {
        // the expression is a bare sign
        assert(s.skip(1) =~= Seq::<char>::empty());
        return Err(TsError::ParseError);
    }
    // classify the final character as a unit suffix or not
    let last = offset.get_char(n - 1);
    let mult: u64 = match last {
        's' => 1,
        'm' => 60,
        'h' => 3600,
        'd' => 86400,
        'w' => 604800,
        'y' => 31536000,
        'M' => 2592000,
        _ => 0,
    };
    let has_suffix = mult > 0;
    let num_end = if has_suffix {
        n - 1
    } else {
        n
    };
    let ghost num = s.subrange(start as int, num_end as int);
    let ghost m: int = if has_suffix {
        mult as int
    } else {
        1
    };
    let ghost sgn: int = if neg {
        -1
    } else {
        1
    };
    proof {
        assert(has_suffix == is_unit_suffix(s[n - 1]));
        assert(has_suffix ==> mult as int == unit_seconds(s[n - 1]));
        let body = s.skip(start as int);
        assert(body.len() == n - start);
        assert(body.last() == s[n - 1]);
        if has_suffix {
            assert(body.drop_last() =~= num);
        } else {
            assert(body =~= num);
        }
        if !neg {
            assert(body =~= s);
        }
        assert(offset_value(s) == if is_numeral(num) {
            Some(sgn * (numeral_val(num) * m))
        } else {
            None::<int>
        });
    }
    if num_end <= start {
        // a unit suffix with no numeral before it
        assert(!is_numeral(num));
        return Err(TsError::ParseError);
    }
    // reject any non-digit in the numeral
    let mut i = start;
    while i < num_end
        invariant
            start <= i <= num_end,
            forall|j: int| start <= j < i ==> is_digit_char(s[j]),
        decreases num_end - i,
    {
        let c = offset.get_char(i);
        let d = c as u32;
        if d < 48 || d > 57 {
            proof {
                assert(num[i - start] == s[i as int]);
                assert(!is_digit_char(num[i - start]));
                assert(!is_numeral(num));
            }
            return Err(TsError::ParseError);
        }
        i += 1;
    }
    proof {
        assert forall|j: int| 0 <= j < num.len() implies is_digit_char(#[trigger] num[j]) by {
            assert(num[j] == s[j + start]);
        }
        assert(is_numeral(num));
    }
    // accumulate the numeral's value
    let mut mag: u64 = 0;
    let mut j = start;
    while j < num_end
        invariant
            start <= j <= num_end,
            mag == numeral_val(s.subrange(start as int, j as int)),
        decreases num_end - j,
    {
        let c = offset.get_char(j);
        let d = (c as u32 - 48) as u64;
        proof {
            let pre = s.subrange(start as int, j as int);
            let post = s.subrange(start as int, j + 1);
            assert(post.drop_last() =~= pre);
            assert(post.last() == s[j as int]);
            assert(numeral_val(post) == 10 * mag + d);
        }
        if mag > 1844674407370955161u64 || d > u64::MAX - 10 * mag {
            // the numeral alone already exceeds u64::MAX, so with any unit
            // attached its value cannot fit in i64 either
            proof {
                let post = s.subrange(start as int, j + 1);
                assert(num.subrange(0, j + 1 - start) =~= post);
                lemma_numeral_val_prefix_le(num, j + 1 - start);
                assert(numeral_val(num) > u64::MAX);
                assert(numeral_val(num) * m >= numeral_val(num)) by (nonlinear_arith)
                    requires
                        m >= 1,
                        numeral_val(num) > 0,
                ;
            }
            return Err(TsError::OverflowError);
        }
        mag = 10 * mag + d;
        j += 1;
    }
    assert(mag == numeral_val(num));
    // apply the unit multiplier and the sign, watching the i64 range
    let mult_u: u64 = if has_suffix {
        mult
    } else {
        1
    };
    proof {
        vstd::arithmetic::mul::lemma_mul_upper_bound(
            mag as int,
            u64::MAX as int,
            mult_u as int,
            u64::MAX as int,
        );
    }
    let total: u128 = (mag as u128) * (mult_u as u128);
    assert(total as int == numeral_val(num) * m);
    if !neg {
        if total <= i64::MAX as u128 {
            Ok(total as i64)
        } else {
            Err(TsError::OverflowError)
        }
    } else {
        if total <= i64::MAX as u128 {
            Ok(-(total as i64))
        } else if total == i64::MAX as u128 + 1 {
            Ok(i64::MIN)
        } else {
            Err(TsError::OverflowError)
        }
    }
}

/// Law: for every numeral and every unit suffix, parsing the numeral
/// followed by that suffix yields the numeral's value times the unit's
/// seconds.
pub proof fn lemma_parse_numeral_with_suffix(s: Seq<char>, c: char)
    requires
        is_numeral(s),
        is_unit_suffix(c),
    ensures
        offset_value(s.push(c)) == Some(numeral_val(s) * unit_seconds(c)),
{
    let t = s.push(c);
    assert(t.last() == c);
    assert(t.drop_last() =~= s);
    assert(t[0] == s[0]);
    assert(is_digit_char(s[0]));
}

/// Law: a leading `-` negates the value of every valid expression whose
/// own first character is not `-`: the sign distributes over the
/// magnitude.
pub proof fn lemma_sign_distributes(s: Seq<char>)
    requires
        offset_value(s) is Some,
        s.len() > 0 ==> s[0] != '-',
    ensures
        offset_value(seq!['-'] + s) == Some(-offset_value(s).unwrap()),
{
    let t = seq!['-'] + s;
    assert(t[0] == '-');
    assert(t.skip(1) =~= s);
}

/// The canonical decimal rendering of a digit.
pub open spec fn digit_char(d: int) -> char {
    if d == 0 {
        '0'
    } else if d == 1 {
        '1'
    } else if d == 2 {
        '2'
    } else if d == 3 {
        '3'
    } else if d == 4 {
        '4'
    } else if d == 5 {
        '5'
    } else if d == 6 {
        '6'
    } else if d == 7 {
        '7'
    } else if d == 8 {
        '8'
    } else {
        '9'
    }
}

/// The canonical decimal rendering of a natural number, most significant
/// digit first.
pub open spec fn dec_digits(n: nat) -> Seq<char>
    decreases n,
{
    if n < 10 {
        seq![digit_char(n as int)]
    } else {
        dec_digits(n / 10).push(digit_char((n % 10) as int))
    }
}

/// The decimal rendering of a natural number is a numeral that reads back
/// as that number.
pub proof fn lemma_dec_digits_numeral(n: nat)
    ensures
        is_numeral(dec_digits(n)),
        numeral_val(dec_digits(n)) == n,
    decreases n,
{
    if n < 10 {
        reveal_with_fuel(numeral_val, 3);
        let s = dec_digits(n);
        assert(s.drop_last() =~= Seq::<char>::empty());
        assert(numeral_val(s) == digit_val(digit_char(n as int)));
    } else {
        lemma_dec_digits_numeral(n / 10);
        let p = dec_digits(n / 10);
        let s = dec_digits(n);
        assert(s.drop_last() =~= p);
        assert(s.last() == digit_char((n % 10) as int));
        assert(numeral_val(s) == 10 * (n / 10) + n % 10);
        assert(forall|i: int| 0 <= i < s.len() ==> is_digit_char(s[i]));
    }
}

/// Law: formatting a count of units as its decimal digits followed by the
/// unit's suffix, then parsing, reproduces exactly the count times the
/// unit's seconds.
pub proof fn lemma_round_trip(n: nat, c: char)
    requires
        is_unit_suffix(c),
    ensures
        offset_value(dec_digits(n).push(c)) == Some(n * unit_seconds(c)),
{
    lemma_dec_digits_numeral(n);
    lemma_parse_numeral_with_suffix(dec_digits(n), c);
}

/// Law: formatting a count of seconds as its bare decimal digits, with no
/// suffix, then parsing, reproduces the count: a plain numeral means
/// seconds.
pub proof fn lemma_round_trip_plain(n: nat)
    ensures
        offset_value(dec_digits(n)) == Some(n as int),
{
    lemma_dec_digits_numeral(n);
    let s = dec_digits(n);
    assert(is_digit_char(s[0]));
    assert(is_digit_char(s.last()));
    assert(!is_unit_suffix(s.last()));
}

/// Law: formatting a count of units with a leading `-` and parsing yields
/// the exact negated value, for every unit.
pub proof fn lemma_round_trip_negative(n: nat, c: char)
    requires
        is_unit_suffix(c),
    ensures
        offset_value(seq!['-'] + dec_digits(n).push(c)) == Some(-(n * unit_seconds(c))),
{
    lemma_round_trip(n, c);
    lemma_dec_digits_numeral(n);
    assert(is_digit_char(dec_digits(n)[0]));
    assert(dec_digits(n).push(c)[0] == dec_digits(n)[0]);
    lemma_sign_distributes(dec_digits(n).push(c));
}

/// A digit string never denotes a negative number.
proof fn lemma_numeral_val_nonneg(s: Seq<char>)
    requires
        forall|i: int| 0 <= i < s.len() ==> is_digit_char(s[i]),
    ensures
        numeral_val(s) >= 0,
    decreases s.len(),
{
    if s.len() > 0 {
        assert(forall|i: int| 0 <= i < s.drop_last().len() ==> is_digit_char(#[trigger] s.drop_last()[i]));
        lemma_numeral_val_nonneg(s.drop_last());
    }
}

/// Extending a digit string on the right never decreases its value.
proof fn lemma_numeral_val_prefix_le(s: Seq<char>, k: int)
    requires
        0 <= k <= s.len(),
        forall|i: int| 0 <= i < s.len() ==> is_digit_char(s[i]),
    ensures
        numeral_val(s.subrange(0, k)) <= numeral_val(s),
    decreases s.len() - k,
{
    if k == s.len() {
        assert(s.subrange(0, k) =~= s);
    } else {
        let p = s.subrange(0, k);
        let q = s.subrange(0, k + 1);
        assert(q.drop_last() =~= p);
        assert(q.last() == s[k]);
        assert(forall|i: int| 0 <= i < p.len() ==> is_digit_char(#[trigger] p[i]));
        lemma_numeral_val_nonneg(p);
        assert(numeral_val(q) == 10 * numeral_val(p) + digit_val(s[k]));
        assert(numeral_val(p) <= numeral_val(q));
        lemma_numeral_val_prefix_le(s, k + 1);
    }
}

} // verus!
