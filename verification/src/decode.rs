//! The decimal decoder: a pure function from the raw bytes of a value
//! token to the exact scaled integer it denotes.
//!
//! A token is an optional leading `-` followed by one of six magnitude
//! shapes: `D`, `DD`, `DDD`, `D.D`, `DD.D` or `DDD.D`, where `D` is an
//! ASCII decimal digit. The decoded result is the decimal value times
//! ten, so `12.3` decodes to `123` and `7` decodes to `70`. Anything
//! else is rejected with a [`DecodeError`], never truncated or
//! misparsed.

use vstd::prelude::*;

verus! {

use crate::SCALED_MAX;

/// Returned when a value token matches none of the supported shapes.
#[derive(Clone, Copy, PartialEq, Eq, Structural, Debug)]
pub struct DecodeError;

/// The byte is an ASCII decimal digit `'0'..='9'`.
pub open spec fn is_ascii_digit(b: u8) -> bool {
    48 <= b && b <= 57
}

/// Numeric value of an ASCII decimal digit.
pub open spec fn digit(b: u8) -> int {
    b - 48
}

/// The bytes after the optional sign match one of the six supported
/// magnitude shapes. Byte `46` is `'.'`; a `'.'` is never a digit, so
/// the two three-byte shapes exclude each other.
pub open spec fn valid_magnitude(s: Seq<u8>) -> bool {
    ||| (s.len() == 1 && is_ascii_digit(s[0]))
    ||| (s.len() == 2 && is_ascii_digit(s[0]) && is_ascii_digit(s[1]))
    ||| (s.len() == 3 && s[1] == 46 && is_ascii_digit(s[0]) && is_ascii_digit(s[2]))
    ||| (s.len() == 3 && is_ascii_digit(s[0]) && is_ascii_digit(s[1]) && is_ascii_digit(s[2]))
    ||| (s.len() == 4 && is_ascii_digit(s[0]) && is_ascii_digit(s[1]) && s[2] == 46
        && is_ascii_digit(s[3]))
    ||| (s.len() == 5 && is_ascii_digit(s[0]) && is_ascii_digit(s[1]) && is_ascii_digit(s[2])
        && s[3] == 46 && is_ascii_digit(s[4]))
}

/// The scaled value of a valid magnitude: the denoted decimal times
/// ten. A shape without a fractional digit scales the integer it spells
/// by ten; a shape with a `'.'` keeps its last digit as the tenths.
pub open spec fn magnitude_value(s: Seq<u8>) -> int {
    if s.len() == 1 {
        10 * digit(s[0])
    } else if s.len() == 2 {
        100 * digit(s[0]) + 10 * digit(s[1])
    } else if s.len() == 3 && s[1] == 46 {
        10 * digit(s[0]) + digit(s[2])
    } else if s.len() == 3 {
        1000 * digit(s[0]) + 100 * digit(s[1]) + 10 * digit(s[2])
    } else if s.len() == 4 {
        100 * digit(s[0]) + 10 * digit(s[1]) + digit(s[3])
    } else {
        1000 * digit(s[0]) + 100 * digit(s[1]) + 10 * digit(s[2]) + digit(s[4])
    }
}

/// The whole token is valid: an optional leading `-` (byte `45`)
/// followed by a valid magnitude.
pub open spec fn valid_token(s: Seq<u8>) -> bool {
    if s.len() > 0 && s[0] == 45 {
        valid_magnitude(s.skip(1))
    } else {
        valid_magnitude(s)
    }
}

/// The exact scaled value of a valid token: its decimal value times
/// ten, negated when the sign byte is present.
pub open spec fn token_value(s: Seq<u8>) -> int {
    if s.len() > 0 && s[0] == 45 {
        -magnitude_value(s.skip(1))
    } else {
        magnitude_value(s)
    }
}

/// Decodes an unsigned magnitude, dispatching on the length of the
/// slice and the position of the `'.'` byte.
fn decode_magnitude(t: &[u8]) -> (r: Result<i64, DecodeError>)
    ensures
        valid_magnitude(t@) ==> r == Ok::<i64, DecodeError>(magnitude_value(t@) as i64),
        !valid_magnitude(t@) ==> r == Err::<i64, DecodeError>(DecodeError),
        valid_magnitude(t@) ==> 0 <= magnitude_value(t@) <= SCALED_MAX,
{
    let n = t.len();
    if n == 1 {
        let c = t[0];
        if 48 <= c && c <= 57 {
            Ok((c - 48) as i64 * 10)
        } else {
            Err(DecodeError)
        }
    } else if n == 2 {
        let b = t[0];
        let c = t[1];
        if 48 <= b && b <= 57 && 48 <= c && c <= 57 {
            Ok((b - 48) as i64 * 100 + (c - 48) as i64 * 10)
        } else {
            Err(DecodeError)
        }
    } else if n == 3 && t[1] == 46 {
        let c = t[0];
        let d = t[2];
        if 48 <= c && c <= 57 && 48 <= d && d <= 57 {
            Ok((c - 48) as i64 * 10 + (d - 48) as i64)
        } else {
            Err(DecodeError)
        }
    } else if n == 3 {
        let a = t[0];
        let b = t[1];
        let c = t[2];
        if 48 <= a && a <= 57 && 48 <= b && b <= 57 && 48 <= c && c <= 57 {
            Ok((a - 48) as i64 * 1000 + (b - 48) as i64 * 100 + (c - 48) as i64 * 10)
        } else {
            Err(DecodeError)
        }
    } else if n == 4 {
        let b = t[0];
        let c = t[1];
        let d = t[3];
        if 48 <= b && b <= 57 && 48 <= c && c <= 57 && t[2] == 46 && 48 <= d && d <= 57 {
            Ok((b - 48) as i64 * 100 + (c - 48) as i64 * 10 + (d - 48) as i64)
        } else {
            Err(DecodeError)
        }
    } else if n == 5 {
        let a = t[0];
        let b = t[1];
        let c = t[2];
        let d = t[4];
        if 48 <= a && a <= 57 && 48 <= b && b <= 57 && 48 <= c && c <= 57 && t[3] == 46 && 48 <= d
            && d <= 57 {
            Ok(
                (a - 48) as i64 * 1000 + (b - 48) as i64 * 100 + (c - 48) as i64 * 10 + (d
                    - 48) as i64,
            )
        } else {
            Err(DecodeError)
        }
    } else {
        Err(DecodeError)
    }
}

/// Decodes the ASCII bytes of a value token into its exact scaled
/// integer: the decimal value times ten, so that accumulation and
/// comparison downstream stay exact. Every byte pattern outside the
/// supported shapes is rejected with a [`DecodeError`].
pub fn parse_float_as_ints(s: &[u8]) -> (r: Result<i64, DecodeError>)
    ensures
        valid_token(s@) ==> r == Ok::<i64, DecodeError>(token_value(s@) as i64),
        !valid_token(s@) ==> r == Err::<i64, DecodeError>(DecodeError),
        valid_token(s@) ==> -SCALED_MAX <= token_value(s@) <= SCALED_MAX,
{
    if s.len() > 0 && s[0] == 45 {
        let t = vstd::slice::slice_subrange(s, 1, s.len());
        proof {
            assert(t@ =~= s@.skip(1));
        }
        match decode_magnitude(t) {
            Ok(v) => Ok(-v),
            Err(e) => Err(e),
        }
    } else {
        decode_magnitude(s)
    }
}

} // verus!
