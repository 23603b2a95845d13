//! Reading decimal numbers out of text, as `str::parse` does for the integer
//! types: optional `+`, then one or more ASCII digits, and a value the type
//! can hold.
use vstd::prelude::*;

verus! {

/// An ASCII decimal digit.
pub open spec fn is_digit(c: char) -> bool {
    '0' <= c && c <= '9'
}

/// Every character of `s` is an ASCII digit.
pub open spec fn all_digits(s: Seq<char>) -> bool {
    forall|i: int| 0 <= i < s.len() ==> is_digit(#[trigger] s[i])
}

/// The value of a run of decimal digits, most significant first.
pub open spec fn dec_value(s: Seq<char>) -> nat
    decreases s.len(),
{
    if s.len() == 0 {
        0
    } else {
        dec_value(s.drop_last()) * 10 + ((s.last() as u32) - 48) as nat
    }
}

/// What `str::parse` gives for an unsigned type whose largest value is `max`:
/// an optional leading `+`, then at least one digit and nothing else, and a
/// value no greater than `max`.
pub open spec fn parse_unsigned(s: Seq<char>, max: nat) -> Option<nat> {
    let d = if s.len() > 0 && s[0] == '+' { s.drop_first() } else { s };
    if d.len() > 0 && all_digits(d) && dec_value(d) <= max {
        Some(dec_value(d))
    } else {
        None
    }
}

/// Reading more digits never gives a smaller value.
pub proof fn lemma_dec_value_grows(s: Seq<char>, i: int)
    requires
        0 <= i <= s.len(),
        all_digits(s),
    ensures
        dec_value(s.take(i)) <= dec_value(s),
    decreases s.len() - i,
{
    if i < s.len() {
        lemma_dec_value_grows(s, i + 1);
        let t = s.take(i + 1);
        assert(t.drop_last() =~= s.take(i));
        assert(is_digit(s[i]));
    } else {
        assert(s.take(i) =~= s);
    }
}

/// The value of the digits `v[from..]` when they are all digits, there is at
/// least one, and the value is at most `max`.
fn digits_value(v: &[char], from: usize, max: u64) -> (r: Option<u64>)
    requires
        from <= v.len(),
    ensures
        ({
            let d = v@.skip(from as int);
            match r {
                Some(n) => d.len() > 0 && all_digits(d) && dec_value(d) <= max && n == dec_value(d),
                None => !(d.len() > 0 && all_digits(d) && dec_value(d) <= max),
            }
        }),
{
    let ghost d = v@.skip(from as int);
    if from == v.len() {
        return None;
    }
    let mut acc: u128 = 0;
    let mut i = from;
    proof {
        assert(d.take(0) =~= Seq::<char>::empty());
    }
    while i < v.len()
        invariant
            from <= i <= v.len(),
            d == v@.skip(from as int),
            acc <= max,
            all_digits(d.take(i - from)),
            acc == dec_value(d.take(i - from)),
        decreases v.len() - i,
    {
        let c = v[i];
        if !('0' <= c && c <= '9') {
            proof {
                assert(d[i - from] == c);
            }
            return None;
        }
        let digit = (c as u32 - 48) as u128;
        let next = acc * 10 + digit;
        proof {
            let t = d.take(i - from + 1);
            assert(t.drop_last() =~= d.take(i - from));
            assert(t.last() == c);
        }
        if next > max as u128 {
            proof {
                let k = i - from + 1;
                if all_digits(d) {
                    lemma_dec_value_grows(d, k);
                }
            }
            return None;
        }
        acc = next;
        i += 1;
    }
    proof {
        assert(d.take(i - from) =~= d);
    }
    Some(acc as u64)
}

/// `s.parse::<u16>()`, with `None` for every error.
pub fn parse_u16(s: &[char]) -> (r: Option<u16>)
    ensures
        match r {
            Some(n) => parse_unsigned(s@, 65535) == Some(n as nat),
            None => parse_unsigned(s@, 65535) is None,
        },
{
    let from: usize = if s.len() > 0 && s[0] == '+' { 1 } else { 0 };
    proof {
        assert(s@.skip(1) =~= s@.drop_first());
        assert(s@.skip(0) =~= s@);
    }
    match digits_value(s, from, 65535) {
        Some(n) => Some(n as u16),
        None => None,
    }
}

/// What `s.parse::<i64>()` gives for a run of digits, `None` when it is empty
/// or too large.
pub open spec fn digits_i64(s: Seq<char>) -> Option<int> {
    if s.len() > 0 && all_digits(s) && dec_value(s) <= 0x7FFF_FFFF_FFFF_FFFF {
        Some(dec_value(s) as int)
    } else {
        None
    }
}

/// `s.parse::<i64>()` for a string that holds only digits (as a
/// `take_while(is_ascii_digit)` leaves it), with `None` for every error.
pub fn parse_digits_i64(s: &[char]) -> (r: Option<i64>)
    ensures
        match r {
            Some(n) => digits_i64(s@) == Some(n as int),
            None => digits_i64(s@) is None,
        },
{
    proof {
        assert(s@.skip(0) =~= s@);
    }
    match digits_value(s, 0, 0x7FFF_FFFF_FFFF_FFFF) {
        Some(n) => Some(n as i64),
        None => None,
    }
}

} // verus!
