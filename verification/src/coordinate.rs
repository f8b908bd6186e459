//! Fixed-point coordinates and their decimal notation.
//!
//! A coordinate is an `i64` that counts units of 10^-7 degree. Its text is a
//! decimal number as floating-point parsers read it: an optional sign, digits
//! with an optional decimal point among, before or after them, and an
//! optional exponent, which is `e` or `E`, an optional sign and digits.
//! `13.7563`, `-0.5`, `+100`, `.25`, `7.`, `1e1` and `1.5E-3` are coordinates.
//! What the number holds below one unit is dropped. A number too large for
//! an `i64` of units, and text that names no number, is no coordinate.

use vstd::prelude::*;
use vstd::string::StringSliceAdditionalSpecFns;
use vstd::utf8::encode_utf8;

verus! {

/// Units in one degree.
pub const UNITS_PER_DEGREE: i64 = 10_000_000;

/// Decimal places of a degree that a coordinate keeps.
pub const PLACES: i128 = 7;

/// The byte `-`.
pub const MINUS: u8 = 45;

/// The byte `+`.
pub const PLUS: u8 = 43;

/// The byte `.`.
pub const POINT: u8 = 46;

/// The byte `0`.
pub const ZERO: u8 = 48;

/// The byte `9`.
pub const NINE: u8 = 57;

/// The byte `e`.
pub const LOWER_E: u8 = 101;

/// The byte `E`.
pub const UPPER_E: u8 = 69;

/// The number up to which the reader counts exactly. It lies above every
/// coordinate and above every length of a text.
const COUNT_LIMIT: i128 = 1_000_000_000_000_000_000_000_000_000_000;

/// `byte` is one of the ten decimal digits.
pub open spec fn is_digit(byte: u8) -> bool {
    ZERO <= byte <= NINE
}

/// The number that the digit `byte` stands for.
pub open spec fn digit_value(byte: u8) -> int {
    byte - ZERO
}

/// Every byte of `text` is a digit.
pub open spec fn all_digits(text: Seq<u8>) -> bool {
    forall|i: int| 0 <= i < text.len() ==> is_digit(#[trigger] text[i])
}

/// How many digits `text` starts with.
pub open spec fn leading_digits(text: Seq<u8>) -> int
    decreases text.len(),
{
    if text.len() > 0 && is_digit(text[0]) {
        1 + leading_digits(text.drop_first())
    } else {
        0
    }
}

/// The number written by the digits of `value` followed by `digits`.
pub open spec fn extend(value: int, digits: Seq<u8>) -> int
    decreases digits.len(),
{
    if digits.len() == 0 {
        value
    } else {
        10 * extend(value, digits.drop_last()) + digit_value(digits.last())
    }
}

/// The number that a run of digits writes in base ten; zero for no digits.
pub open spec fn whole_value(digits: Seq<u8>) -> int {
    extend(0, digits)
}

/// Ten to the power `n`.
pub open spec fn pow10(n: nat) -> nat
    decreases n,
{
    if n == 0 {
        1
    } else {
        10 * pow10((n - 1) as nat)
    }
}

/// The number written by `digits` with the decimal point moved `shift`
/// places to the right of their end, or to the left for a negative `shift`,
/// without what then stands behind the point.
pub open spec fn scaled(digits: Seq<u8>, shift: int) -> int {
    if shift >= 0 {
        whole_value(digits) * pow10(shift as nat)
    } else if digits.len() + shift <= 0 {
        0
    } else {
        whole_value(digits.take(digits.len() + shift))
    }
}

/// `text` starts with a sign.
pub open spec fn has_sign(text: Seq<u8>) -> bool {
    text.len() > 0 && (text[0] == MINUS || text[0] == PLUS)
}

/// The exponent that `tail`, the text behind the digits of a number, writes:
/// zero for no text, else the signed number behind `e` or `E`. `None` where
/// `tail` is anything else.
pub open spec fn exponent_of(tail: Seq<u8>) -> Option<int> {
    if tail.len() == 0 {
        Some(0)
    } else if tail[0] == LOWER_E || tail[0] == UPPER_E {
        let signed = tail.drop_first();
        let digits = if has_sign(signed) {
            signed.drop_first()
        } else {
            signed
        };
        if digits.len() > 0 && all_digits(digits) {
            if signed[0] == MINUS {
                Some(-whole_value(digits))
            } else {
                Some(whole_value(digits))
            }
        } else {
            None
        }
    } else {
        None
    }
}

/// The coordinate that `text` writes, in units of 10^-7 degree, or `None`
/// where `text` is not a decimal number or the number does not fit an `i64`.
pub open spec fn coordinate_of(text: Seq<u8>) -> Option<int> {
    let body = if has_sign(text) {
        text.drop_first()
    } else {
        text
    };
    let whole_length = leading_digits(body);
    let whole = body.take(whole_length);
    let after = body.skip(whole_length);
    let pointed = after.len() > 0 && after[0] == POINT;
    let fraction_length = if pointed {
        leading_digits(after.drop_first())
    } else {
        0
    };
    let fraction = if pointed {
        after.drop_first().take(fraction_length)
    } else {
        Seq::<u8>::empty()
    };
    let tail = if pointed {
        after.drop_first().skip(fraction_length)
    } else {
        after
    };
    match exponent_of(tail) {
        Some(exponent) => {
            let magnitude = scaled(whole + fraction, PLACES + exponent - fraction.len());
            let value = if text.len() > 0 && text[0] == MINUS {
                -magnitude
            } else {
                magnitude
            };
            if whole.len() + fraction.len() > 0 && i64::MIN <= value <= i64::MAX {
                Some(value)
            } else {
                None
            }
        },
        None => None,
    }
}

/// `count` stands for `value` as the reader counts: it is `value` up to
/// [`COUNT_LIMIT`] and some number above the limit for every larger value.
spec fn counts(count: i128, value: int) -> bool {
    &&& 0 <= count <= 10 * COUNT_LIMIT + 9
    &&& 0 <= value
    &&& value <= COUNT_LIMIT ==> count == value
    &&& value > COUNT_LIMIT ==> count > COUNT_LIMIT
}

/// A run of `count` digits that ends at the end of `text` or before a byte
/// that is no digit is the whole run of leading digits.
proof fn lemma_leading_digits(text: Seq<u8>, count: int)
    requires
        0 <= count <= text.len(),
        forall|i: int| 0 <= i < count ==> is_digit(#[trigger] text[i]),
        count == text.len() || !is_digit(text[count]),
    ensures
        leading_digits(text) == count,
    decreases count,
{
    if count > 0 {
        lemma_leading_digits(text.drop_first(), count - 1);
    }
}

/// Writing `first` and then `second` behind a number is writing both.
proof fn lemma_extend_twice(value: int, first: Seq<u8>, second: Seq<u8>)
    ensures
        extend(value, first + second) == extend(extend(value, first), second),
    decreases second.len(),
{
    if second.len() == 0 {
        assert(first + second == first);
    } else {
        assert((first + second).drop_last() == first + second.drop_last());
        lemma_extend_twice(value, first, second.drop_last());
    }
}

/// Powers of ten grow with the exponent and are at least one.
proof fn lemma_pow10_grows(low: nat, high: nat)
    requires
        low <= high,
    ensures
        1 <= pow10(low) <= pow10(high),
    decreases high,
{
    if low < high {
        lemma_pow10_grows(low, (high - 1) as nat);
    } else if low > 0 {
        lemma_pow10_grows((low - 1) as nat, (low - 1) as nat);
    }
}

/// From the nineteenth on, a power of ten lies above every `i64`.
proof fn lemma_pow10_large(n: nat)
    requires
        n >= 19,
    ensures
        pow10(n) > i64::MAX,
        pow10(n) >= 10_000_000_000_000_000_000,
{
    lemma_pow10_grows(19, n);
    assert(pow10(19) == 10_000_000_000_000_000_000) by {
        reveal_with_fuel(pow10, 20);
    }
}

/// Where the run of digits in `text` from `from` on ends.
fn digits_end(text: &[u8], from: usize) -> (end: usize)
    requires
        from <= text@.len(),
    ensures
        from <= end <= text@.len(),
        end - from == leading_digits(text@.skip(from as int)),
        all_digits(text@.subrange(from as int, end as int)),
        end == text@.len() || !is_digit(text@[end as int]),
{
    let n: usize = text.len();
    let mut i: usize = from;
    while i < n && ZERO <= text[i] && text[i] <= NINE
        invariant
            from <= i <= n,
            n == text@.len(),
            forall|j: int| from <= j < i ==> is_digit(#[trigger] text@[j]),
        decreases n - i,
    {
        i = i + 1;
    }
    proof {
        lemma_leading_digits(text@.skip(from as int), i - from);
    }
    i
}

/// Counts on through the digits that `text` holds from `from` up to `to`.
fn read_digits(text: &[u8], from: usize, to: usize, count: i128, Ghost(value): Ghost<int>) -> (read:
    i128)
    requires
        from <= to <= text@.len(),
        all_digits(text@.subrange(from as int, to as int)),
        counts(count, value),
    ensures
        counts(read, extend(value, text@.subrange(from as int, to as int))),
{
    let mut i: usize = from;
    let mut read: i128 = count;
    assert(text@.subrange(from as int, from as int).len() == 0);
    while i < to
        invariant
            from <= i <= to <= text@.len(),
            all_digits(text@.subrange(from as int, to as int)),
            counts(read, extend(value, text@.subrange(from as int, i as int))),
        decreases to - i,
    {
        proof {
            let longer = text@.subrange(from as int, i + 1);
            assert(longer.drop_last() == text@.subrange(from as int, i as int));
            assert(longer.last() == text@[i as int]);
            assert(text@[i as int] == text@.subrange(from as int, to as int)[i - from]);
        }
        let digit: i128 = (text[i] - ZERO) as i128;
        if read <= COUNT_LIMIT {
            read = read * 10 + digit;
        }
        i = i + 1;
    }
    read
}

/// Counts `count` times ten to the power `zeros`.
fn append_zeros(count: i128, zeros: i128, Ghost(value): Ghost<int>) -> (read: i128)
    requires
        counts(count, value),
        0 <= zeros,
    ensures
        counts(read, value * pow10(zeros as nat)),
{
    let mut read: i128 = count;
    let mut done: i128 = 0;
    assert(value * pow10(0) == value) by (nonlinear_arith)
        requires
            pow10(0) == 1,
    ;
    while done < zeros && 0 < read && read <= COUNT_LIMIT
        invariant
            0 <= done <= zeros,
            counts(count, value),
            counts(read, value * pow10(done as nat)),
        decreases zeros - done,
    {
        proof {
            assert(value * pow10((done + 1) as nat) == 10 * (value * pow10(done as nat)))
                by (nonlinear_arith)
                requires
                    pow10((done + 1) as nat) == 10 * pow10(done as nat),
            ;
        }
        read = read * 10;
        done = done + 1;
    }
    proof {
        lemma_pow10_grows(done as nat, zeros as nat);
        let low = pow10(done as nat);
        let high = pow10(zeros as nat);
        if read == 0 {
            assert(value == 0) by (nonlinear_arith)
                requires
                    value * low == 0,
                    low >= 1,
                    value >= 0,
            ;
            assert(value * high == 0) by (nonlinear_arith)
                requires
                    value == 0,
            ;
        } else {
            assert(value * low <= value * high) by (nonlinear_arith)
                requires
                    low <= high,
                    value >= 0,
            ;
        }
    }
    read
}

/// Reads the exponent that `text` writes from `from` to its end, as
/// [`exponent_of`] takes it: whether it is negative and how large it is,
/// or `None` where the text writes none.
fn read_exponent(text: &[u8], from: usize) -> (read: Option<(bool, i128)>)
    requires
        from <= text@.len(),
    ensures
        match read {
            Some((negative, size)) => {
                &&& exponent_of(text@.skip(from as int)) is Some
                &&& negative <==> exponent_of(text@.skip(from as int))->0 < 0
                &&& counts(
                    size,
                    if negative {
                        -exponent_of(text@.skip(from as int))->0
                    } else {
                        exponent_of(text@.skip(from as int))->0
                    },
                )
            },
            None => exponent_of(text@.skip(from as int)) is None,
        },
{
    let n: usize = text.len();
    let ghost tail = text@.skip(from as int);
    if from == n {
        return Some((false, 0));
    }
    assert(tail[0] == text@[from as int]);
    if text[from] != LOWER_E && text[from] != UPPER_E {
        return None;
    }
    let ghost signed = tail.drop_first();
    assert(signed == text@.skip(from + 1));
    let minus = from + 1 < n && text[from + 1] == MINUS;
    let first: usize = if from + 1 < n && (text[from + 1] == MINUS || text[from + 1] == PLUS) {
        from + 2
    } else {
        from + 1
    };
    let ghost digits = text@.skip(first as int);
    assert(digits == if has_sign(signed) {
        signed.drop_first()
    } else {
        signed
    });
    let end = digits_end(text, first);
    if end == first || end < n {
        proof {
            if end < n {
                assert(digits[end - first] == text@[end as int]);
            }
        }
        return None;
    }
    assert(text@.subrange(first as int, n as int) == digits);
    let size = read_digits(text, first, n, 0, Ghost(0));
    Some((minus && size > 0, size))
}

/// Counts the number that the digits of `text` from `start` up to `mid`,
/// followed by those from `next` up to `end`, write once the decimal point
/// is moved by `shift` places.
fn read_scaled(text: &[u8], start: usize, mid: usize, next: usize, end: usize, shift: i128) -> (read:
    i128)
    requires
        start <= mid <= next <= end <= text@.len(),
        all_digits(text@.subrange(start as int, mid as int)),
        all_digits(text@.subrange(next as int, end as int)),
        -2 * COUNT_LIMIT <= shift <= 2 * COUNT_LIMIT,
    ensures
        counts(
            read,
            scaled(
                text@.subrange(start as int, mid as int) + text@.subrange(next as int, end as int),
                shift as int,
            ),
        ),
{
    let ghost whole = text@.subrange(start as int, mid as int);
    let ghost fraction = text@.subrange(next as int, end as int);
    let ghost digits = whole + fraction;
    let whole_length: usize = mid - start;
    let fraction_length: usize = end - next;
    if shift >= 0 {
        let first = read_digits(text, start, mid, 0, Ghost(0));
        let both = read_digits(text, next, end, first, Ghost(whole_value(whole)));
        proof {
            lemma_extend_twice(0, whole, fraction);
        }
        append_zeros(both, shift, Ghost(whole_value(digits)))
    } else {
        let kept: i128 = whole_length as i128 + fraction_length as i128 + shift;
        if kept <= 0 {
            0
        } else if kept <= whole_length as i128 {
            let stop: usize = start + kept as usize;
            assert(text@.subrange(start as int, stop as int) == digits.take(kept as int));
            assert(all_digits(text@.subrange(start as int, stop as int))) by {
                assert forall|i: int| 0 <= i < stop - start implies is_digit(
                    #[trigger] text@.subrange(start as int, stop as int)[i],
                ) by {
                    assert(text@.subrange(start as int, stop as int)[i] == whole[i]);
                }
            }
            read_digits(text, start, stop, 0, Ghost(0))
        } else {
            let more: usize = (kept - whole_length as i128) as usize;
            let stop: usize = next + more;
            let ghost part = text@.subrange(next as int, stop as int);
            assert(whole + part == digits.take(kept as int));
            assert(all_digits(part)) by {
                assert forall|i: int| 0 <= i < part.len() implies is_digit(#[trigger] part[i]) by {
                    assert(part[i] == fraction[i]);
                }
            }
            let first = read_digits(text, start, mid, 0, Ghost(0));
            proof {
                lemma_extend_twice(0, whole, part);
            }
            read_digits(text, next, stop, first, Ghost(whole_value(whole)))
        }
    }
}

/// What [`coordinate_of`] says of a text whose parts stand at the given
/// places: a sign before `start`, digits up to `mid`, a decimal point
/// between `mid` and `next` where the two differ, digits up to `end`, and
/// the exponent behind.
spec fn coordinate_at(text: Seq<u8>, start: int, mid: int, next: int, end: int) -> Option<
    int,
> {
    match exponent_of(text.skip(end)) {
        Some(exponent) => {
            let magnitude = scaled(
                text.subrange(start, mid) + text.subrange(next, end),
                PLACES + exponent - (end - next),
            );
            let value = if text.len() > 0 && text[0] == MINUS {
                -magnitude
            } else {
                magnitude
            };
            if (mid - start) + (end - next) > 0 && i64::MIN <= value <= i64::MAX {
                Some(value)
            } else {
                None
            }
        },
        None => None,
    }
}

/// The parts of a number stand where the runs of digits in its text end.
proof fn lemma_parts(text: Seq<u8>, start: int, mid: int, next: int, end: int)
    requires
        start == if has_sign(text) {
            1int
        } else {
            0int
        },
        start <= mid <= next <= end <= text.len(),
        mid - start == leading_digits(text.skip(start)),
        mid < text.len() && text[mid] == POINT ==> next == mid + 1 && end - next == leading_digits(
            text.skip(next),
        ),
        !(mid < text.len() && text[mid] == POINT) ==> next == mid && end == mid,
    ensures
        coordinate_of(text) == coordinate_at(text, start, mid, next, end),
{
    let body = if has_sign(text) {
        text.drop_first()
    } else {
        text
    };
    assert(body == text.skip(start));
    let whole = body.take(mid - start);
    let after = body.skip(mid - start);
    assert(whole == text.subrange(start, mid));
    assert(after == text.skip(mid));
    let pointed = after.len() > 0 && after[0] == POINT;
    assert(pointed <==> mid < text.len() && text[mid] == POINT);
    if pointed {
        assert(after.drop_first() == text.skip(next));
        assert(after.drop_first().take(end - next) == text.subrange(next, end));
        assert(after.drop_first().skip(end - next) == text.skip(end));
    } else {
        assert(text.subrange(next, end) == Seq::<u8>::empty());
    }
}

/// Reads a coordinate from its decimal notation.
///
/// Returns the coordinate in units of 10^-7 degree, or `None` where `text` is
/// not a decimal number or its value lies outside the range of an `i64`.
pub fn parse_coordinate(text: &str) -> (value: Option<i64>)
    ensures
        match value {
            Some(units) => coordinate_of(encode_utf8(text@)) == Some(units as int),
            None => coordinate_of(encode_utf8(text@)) is None,
        },
{
    let bytes = text.as_bytes();
    let n: usize = bytes.len();
    let negative = n > 0 && bytes[0] == MINUS;
    let start: usize = if n > 0 && (bytes[0] == MINUS || bytes[0] == PLUS) {
        1
    } else {
        0
    };
    let mid = digits_end(bytes, start);
    let pointed = mid < n && bytes[mid] == POINT;
    let next: usize = if pointed {
        mid + 1
    } else {
        mid
    };
    let end: usize = if pointed {
        digits_end(bytes, next)
    } else {
        mid
    };
    proof {
        lemma_parts(bytes@, start as int, mid as int, next as int, end as int);
        if !pointed {
            assert(bytes@.subrange(next as int, end as int).len() == 0);
        }
    }
    let exponent = match read_exponent(bytes, end) {
        None => {
            return None;
        },
        Some(exponent) => exponent,
    };
    if mid - start + (end - next) == 0 {
        return None;
    }
    finish(
        bytes,
        start,
        mid,
        next,
        end,
        negative,
        exponent.0,
        exponent.1,
        Ghost(exponent_of(bytes@.skip(end as int))->0),
    )
}

/// Puts together the digits, the exponent and the sign that
/// [`parse_coordinate`] found in `text`.
fn finish(
    text: &[u8],
    start: usize,
    mid: usize,
    next: usize,
    end: usize,
    negative: bool,
    down: bool,
    size: i128,
    Ghost(exponent): Ghost<int>,
) -> (value: Option<i64>)
    requires
        start <= mid <= next <= end <= text@.len(),
        all_digits(text@.subrange(start as int, mid as int)),
        all_digits(text@.subrange(next as int, end as int)),
        down <==> exponent < 0,
        counts(
            size,
            if down {
                -exponent
            } else {
                exponent
            },
        ),
    ensures
        ({
            let magnitude = scaled(
                text@.subrange(start as int, mid as int) + text@.subrange(next as int, end as int),
                PLACES + exponent - (end - next),
            );
            let signed = if negative {
                -magnitude
            } else {
                magnitude
            };
            match value {
                Some(units) => signed == units,
                None => !(i64::MIN <= signed <= i64::MAX),
            }
        }),
{
    let ghost digits = text@.subrange(start as int, mid as int) + text@.subrange(
        next as int,
        end as int,
    );
    let ghost shift = PLACES + exponent - (end - next);
    let fraction_length: i128 = (end - next) as i128;
    let read: i128 = if size > COUNT_LIMIT {
        if down {
            0
        } else {
            let all = read_scaled(text, start, mid, next, end, 0);
            proof {
                let number = whole_value(digits);
                let power = pow10(shift as nat);
                assert(number * pow10(0) == number) by (nonlinear_arith)
                    requires
                        pow10(0) == 1,
                ;
                lemma_pow10_large(shift as nat);
                lemma_pow10_grows(31, shift as nat);
                assert(pow10(31) > COUNT_LIMIT) by {
                    reveal_with_fuel(pow10, 32);
                }
                if number > 0 {
                    assert(number * power > COUNT_LIMIT) by (nonlinear_arith)
                        requires
                            number >= 1,
                            power > COUNT_LIMIT,
                    ;
                } else {
                    assert(number * power == 0) by (nonlinear_arith)
                        requires
                            number == 0,
                    ;
                }
            }
            if all == 0 {
                0
            } else {
                COUNT_LIMIT + 1
            }
        }
    } else {
        let moved: i128 = if down {
            PLACES - size - fraction_length
        } else {
            PLACES + size - fraction_length
        };
        read_scaled(text, start, mid, next, end, moved)
    };
    assert(counts(read, scaled(digits, shift)));
    if read > COUNT_LIMIT {
        return None;
    }
    let signed: i128 = if negative {
        -read
    } else {
        read
    };
    if signed < i64::MIN as i128 || signed > i64::MAX as i128 {
        None
    } else {
        Some(signed as i64)
    }
}

} // verus!
