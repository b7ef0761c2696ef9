//! Rendering of a measurement in tenths of a degree, and of a whole record.

use vstd::prelude::*;

verus! {

/// The byte between the city name and the temperature of a record.
pub const DELIMITER: u8 = 59;

/// The byte that ends every record.
pub const NEWLINE: u8 = 10;

/// The byte of the decimal point.
pub const POINT: u8 = 46;

/// The byte of the minus sign.
pub const MINUS: u8 = 45;

/// The lowest measurement drawn, in tenths of a degree (-60.0).
pub const MIN_MEASUREMENT: i32 = -600;

/// The highest measurement drawn, in tenths of a degree (59.9).
pub const MAX_MEASUREMENT: i32 = 599;

/// The most bytes one rendered measurement takes, sign and newline included
/// (as in "-99.9\n").
pub const MAX_MEASUREMENT_LEN: usize = 6;

/// The ASCII digit of `d` (0 to 9).
pub open spec fn digit_byte(d: int) -> u8 {
    (48 + d) as u8
}

pub open spec fn is_digit(b: u8) -> bool {
    48 <= b <= 57
}

pub open spec fn digit_value(b: u8) -> int {
    b - 48
}

/// A magnitude below 1000 tenths, written with one integer digit below 100
/// (`0.5`) and two from 100 on (`23.7`), then the point and one fractional digit.
pub open spec fn magnitude_text(a: int) -> Seq<u8> {
    if a < 100 {
        seq![digit_byte(a / 10), POINT, digit_byte(a % 10)]
    } else {
        seq![digit_byte(a / 100), digit_byte((a / 10) % 10), POINT, digit_byte(a % 10)]
    }
}

/// The rendered measurement without its line terminator: a minus sign only
/// when negative, then the magnitude.
pub open spec fn temperature_text(m: int) -> Seq<u8> {
    if m < 0 {
        seq![MINUS] + magnitude_text(-m)
    } else {
        magnitude_text(m)
    }
}

/// The rendered measurement followed by the line terminator.
pub open spec fn measurement_text(m: int) -> Seq<u8> {
    temperature_text(m).push(NEWLINE)
}

/// One output record: the city name, the delimiter, the rendered measurement.
pub open spec fn record_bytes(city: Seq<u8>, m: int) -> Seq<u8> {
    city.push(DELIMITER) + measurement_text(m)
}

/// A measurement that renders with at most two integer digits.
pub open spec fn renderable(m: int) -> bool {
    -1000 < m < 1000
}

/// Reads `D.D` or `DD.D` back as tenths.
pub open spec fn parse_magnitude(s: Seq<u8>) -> Option<int> {
    if s.len() == 3 && is_digit(s[0]) && s[1] == POINT && is_digit(s[2]) {
        Some(digit_value(s[0]) * 10 + digit_value(s[2]))
    } else if s.len() == 4 && is_digit(s[0]) && is_digit(s[1]) && s[2] == POINT && is_digit(
        s[3],
    ) {
        Some(digit_value(s[0]) * 100 + digit_value(s[1]) * 10 + digit_value(s[3]))
    } else {
        None
    }
}

/// Reads a signed decimal with one or two integer digits and exactly one
/// fractional digit back as tenths.
pub open spec fn parse_temperature(s: Seq<u8>) -> Option<int> {
    if s.len() > 0 && s[0] == MINUS {
        match parse_magnitude(s.drop_first()) {
            Some(v) => Some(-v),
            None => None,
        }
    } else {
        parse_magnitude(s)
    }
}

/// The index of the first `b` in `s`, or `s.len()` when there is none.
pub open spec fn first_index(s: Seq<u8>, b: u8) -> int
    decreases s.len(),
{
    if s.len() == 0 {
        0
    } else if s[0] == b {
        0
    } else {
        1 + first_index(s.drop_first(), b)
    }
}

/// Splits one output line on its first delimiter: the city name before it,
/// and the temperature between it and the final newline read back as tenths.
pub open spec fn parse_line(line: Seq<u8>) -> Option<(Seq<u8>, int)> {
    let k = first_index(line, DELIMITER);
    if k < line.len() && line.len() > 0 && line.last() == NEWLINE {
        match parse_temperature(line.subrange(k + 1, line.len() - 1)) {
            Some(t) => Some((line.subrange(0, k), t)),
            None => None,
        }
    } else {
        None
    }
}

/// A rendered measurement reads back as the measurement it came from, with one
/// or two integer digits and one fractional digit.
pub proof fn lemma_temperature_round_trip(m: int)
    requires
        renderable(m),
    ensures
        parse_temperature(temperature_text(m)) == Some(m),
        4 <= measurement_text(m).len() <= MAX_MEASUREMENT_LEN,
{
    let a = if m < 0 { -m } else { m };
    assert(parse_magnitude(magnitude_text(a)) == Some(a));
    if m < 0 {
        assert((seq![MINUS] + magnitude_text(a)).drop_first() =~= magnitude_text(a));
    }
}

proof fn lemma_first_index_after(city: Seq<u8>, rest: Seq<u8>)
    requires
        !city.contains(DELIMITER),
    ensures
        first_index(city.push(DELIMITER) + rest, DELIMITER) == city.len(),
    decreases city.len(),
{
    let s = city.push(DELIMITER) + rest;
    if city.len() == 0 {
        assert(s[0] == DELIMITER);
    } else {
        assert(city[0] != DELIMITER) by {
            assert(city.contains(city[0]));
        }
        assert(!city.drop_first().contains(DELIMITER)) by {
            if city.drop_first().contains(DELIMITER) {
                let i = choose|i: int|
                    0 <= i < city.drop_first().len() && city.drop_first()[i] == DELIMITER;
                assert(city[i + 1] == DELIMITER);
            }
        }
        lemma_first_index_after(city.drop_first(), rest);
        assert(s.drop_first() =~= city.drop_first().push(DELIMITER) + rest);
    }
}

/// Splitting a record on its first delimiter gives back exactly the city name
/// and the measurement, provided the name holds no delimiter.
pub proof fn lemma_record_round_trip(city: Seq<u8>, m: int)
    requires
        renderable(m),
        !city.contains(DELIMITER),
    ensures
        parse_line(record_bytes(city, m)) == Some((city, m)),
{
    let line = record_bytes(city, m);
    lemma_temperature_round_trip(m);
    lemma_first_index_after(city, measurement_text(m));
    let k = city.len() as int;
    assert(line.subrange(k + 1, line.len() - 1) =~= temperature_text(m));
    assert(line.subrange(0, k) =~= city);
}

/// The ASCII digit of `d`.
fn digit(d: i32) -> (r: u8)
    requires
        0 <= d <= 9,
    ensures
        r == digit_byte(d as int),
{
    48u8 + d as u8
}

/// Appends `city`, the delimiter and the rendered `measurement` to `out`, and
/// returns the number of bytes appended. The measurement is staged in a
/// fixed buffer of six bytes.
pub fn write_measurement(out: &mut Vec<u8>, city: &Vec<u8>, measurement: i32) -> (written: usize)
    requires
        renderable(measurement as int),
        old(out)@.len() + city@.len() + 1 + MAX_MEASUREMENT_LEN <= usize::MAX,
    ensures
        final(out)@ == old(out)@ + record_bytes(city@, measurement as int),
        written == record_bytes(city@, measurement as int).len(),
{
    let ghost start = out@;
    let mut i: usize = 0;
    while i < city.len()
        invariant
            i <= city@.len(),
            out@ == start + city@.subrange(0, i as int),
        decreases city@.len() - i,
    {
        out.push(city[i]);
        i = i + 1;
        assert(out@ =~= start + city@.subrange(0, i as int));
    }
    assert(city@.subrange(0, city@.len() as int) =~= city@);
    out.push(DELIMITER);

    let mut buf: [u8; 6] = [0u8; 6];
    let mut pos: usize = 0;
    let mut magnitude: i32 = measurement;
    if measurement < 0 {
        buf[0] = MINUS;
        pos = 1;
        magnitude = -measurement;
    }
    if magnitude < 100 {
        buf[pos] = digit(magnitude / 10);
        pos = pos + 1;
    } else {
        buf[pos] = digit(magnitude / 100);
        buf[pos + 1] = digit((magnitude / 10) % 10);
        pos = pos + 2;
    }
    buf[pos] = POINT;
    buf[pos + 1] = digit(magnitude % 10);
    buf[pos + 2] = NEWLINE;
    pos = pos + 3;
    assert(buf@.subrange(0, pos as int) =~= measurement_text(measurement as int));

    let ghost mid = out@;
    let mut j: usize = 0;
    while j < pos
        invariant
            j <= pos <= 6,
            buf@.subrange(0, pos as int) == measurement_text(measurement as int),
            out@ == mid + buf@.subrange(0, j as int),
            mid.len() + pos <= usize::MAX,
        decreases pos - j,
    {
        out.push(buf[j]);
        j = j + 1;
        assert(out@ =~= mid + buf@.subrange(0, j as int));
    }
    assert(out@ =~= start + record_bytes(city@, measurement as int));
    city.len() + 1 + pos
}

} // verus!
