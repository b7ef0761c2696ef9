//! Generating the output rows, and bounding their size in advance.

use crate::error::GenError;
use crate::format::{
    lemma_record_round_trip, lemma_temperature_round_trip, magnitude_text, measurement_text,
    parse_line, record_bytes, temperature_text, write_measurement, DELIMITER, MAX_MEASUREMENT,
    MAX_MEASUREMENT_LEN, MINUS, MIN_MEASUREMENT, NEWLINE,
};
use crate::random::{choose_city, random_in_range};
use rand::rngs::StdRng;
use vstd::prelude::*;

verus! {

/// The length of the longest name, 0 when there is none.
pub open spec fn max_city_len(cities: Seq<Seq<u8>>) -> nat
    decreases cities.len(),
{
    if cities.len() == 0 {
        0
    } else {
        let rest = max_city_len(cities.drop_last());
        if cities.last().len() > rest {
            cities.last().len()
        } else {
            rest
        }
    }
}

/// The most bytes one record can take: the longest name, the delimiter, and
/// the widest rendered measurement with its newline.
pub open spec fn max_record_len(cities: Seq<Seq<u8>>) -> nat {
    max_city_len(cities) + 1 + MAX_MEASUREMENT_LEN as nat
}

/// The records of a sequence of draws (city name, measurement), one after another.
pub open spec fn concat_records(draws: Seq<(Seq<u8>, int)>) -> Seq<u8>
    decreases draws.len(),
{
    if draws.len() == 0 {
        seq![]
    } else {
        concat_records(draws.drop_last()) + record_bytes(draws.last().0, draws.last().1)
    }
}

/// Every draw takes a name of the universe and a measurement of the drawn range.
pub open spec fn valid_draws(draws: Seq<(Seq<u8>, int)>, universe: Seq<Seq<u8>>) -> bool {
    forall|i: int|
        0 <= i < draws.len() ==> universe.contains(#[trigger] draws[i].0) && MIN_MEASUREMENT
            <= draws[i].1 <= MAX_MEASUREMENT
}

/// `out` is made of exactly `n` records, each a name of `universe` with a
/// measurement in [-600, 599] tenths.
pub open spec fn is_generated_output(out: Seq<u8>, universe: Seq<Seq<u8>>, n: nat) -> bool {
    exists|draws: Seq<(Seq<u8>, int)>|
        draws.len() == n && valid_draws(draws, universe) && #[trigger] concat_records(draws)
            == out
}

/// How many times `b` occurs in `s`.
pub open spec fn count_byte(s: Seq<u8>, b: u8) -> nat
    decreases s.len(),
{
    if s.len() == 0 {
        0
    } else {
        count_byte(s.drop_last(), b) + if s.last() == b {
            1nat
        } else {
            0nat
        }
    }
}

proof fn lemma_max_city_len(cities: Seq<Seq<u8>>, c: Seq<u8>)
    requires
        cities.contains(c),
    ensures
        c.len() <= max_city_len(cities),
    decreases cities.len(),
{
    if cities.last() != c {
        let i = choose|i: int| 0 <= i < cities.len() && cities[i] == c;
        assert(cities.drop_last()[i] == c);
        lemma_max_city_len(cities.drop_last(), c);
    }
}

/// An upper bound on the size of `num_rows` records drawn from `cities`:
/// `(longest name + 1 + 6) * num_rows`, or `None` where that does not fit in
/// a `usize`.
pub fn max_output_size(cities: &Vec<Vec<u8>>, num_rows: usize) -> (r: Option<usize>)
    ensures
        r is Some <==> max_record_len(cities.deep_view()) * num_rows <= usize::MAX,
        r matches Some(v) ==> v == max_record_len(cities.deep_view()) * num_rows,
{
    let mut longest: usize = 0;
    let mut i: usize = 0;
    while i < cities.len()
        invariant
            i <= cities@.len(),
            longest == max_city_len(cities.deep_view().subrange(0, i as int)),
        decreases cities@.len() - i,
    {
        assert(cities.deep_view().subrange(0, i + 1).drop_last() =~= cities.deep_view().subrange(
            0,
            i as int,
        ));
        if cities[i].len() > longest {
            longest = cities[i].len();
        }
        i = i + 1;
    }
    assert(cities.deep_view().subrange(0, cities@.len() as int) =~= cities.deep_view());
    if longest > usize::MAX - 1 - MAX_MEASUREMENT_LEN {
        proof {
            assert(max_record_len(cities.deep_view()) * num_rows <= usize::MAX ==> num_rows == 0)
                by (nonlinear_arith)
                requires
                    max_record_len(cities.deep_view()) > usize::MAX,
            ;
        }
        if num_rows == 0 {
            return Some(0);
        }
        return None;
    }
    let per_record = longest + 1 + MAX_MEASUREMENT_LEN;
    per_record.checked_mul(num_rows)
}

/// Appends `num_rows` records to `out`, each with a city drawn uniformly from
/// `cities` (with replacement) and a measurement drawn uniformly from
/// [-600, 599] tenths, and returns the number of bytes appended. Rows
/// requested from an empty universe give `NoCities` and leave `out` as it was.
pub fn generate_rows(out: &mut Vec<u8>, cities: &Vec<Vec<u8>>, num_rows: usize, rng: &mut StdRng) -> (r: Result<usize, GenError>)
    requires
        old(out)@.len() + max_record_len(cities.deep_view()) * num_rows <= usize::MAX,
    ensures
        r is Err <==> num_rows > 0 && cities@.len() == 0,
        r matches Err(e) ==> e is NoCities && final(out)@ == old(out)@,
        r matches Ok(w) ==> {
            &&& final(out)@.subrange(0, old(out)@.len() as int) == old(out)@
            &&& w == final(out)@.len() - old(out)@.len()
            &&& is_generated_output(
                final(out)@.subrange(old(out)@.len() as int, final(out)@.len() as int),
                cities.deep_view(),
                num_rows as nat,
            )
        },
{
    let ghost start = out@;
    let ghost universe = cities.deep_view();
    let ghost mut draws: Seq<(Seq<u8>, int)> = seq![];
    let ghost m = max_record_len(universe);
    let mut written: usize = 0;
    let mut i: usize = 0;
    while i < num_rows
        invariant
            i <= num_rows,
            start == old(out)@,
            universe == cities.deep_view(),
            m == max_record_len(universe),
            start.len() + m * num_rows <= usize::MAX,
            out@ == start + concat_records(draws),
            written == concat_records(draws).len(),
            written <= m * i,
            draws.len() == i,
            valid_draws(draws, universe),
            i > 0 ==> cities@.len() > 0,
        decreases num_rows - i,
    {
        let city = match choose_city(cities, rng) {
            Some(c) => c,
            None => {
                assert(draws.len() == 0);
                assert(concat_records(draws) == Seq::<u8>::empty());
                assert(out@ =~= start);
                return Err(GenError::NoCities);
            },
        };
        let measurement = random_in_range(rng, MIN_MEASUREMENT, MAX_MEASUREMENT + 1);
        proof {
            let k = choose|k: int| 0 <= k < cities@.len() && cities@[k] == *city;
            assert(universe[k] == city@);
            lemma_max_city_len(universe, city@);
            lemma_temperature_round_trip(measurement as int);
            assert(m * i + m <= m * num_rows) by (nonlinear_arith)
                requires
                    i < num_rows,
            ;
            assert(m * (i + 1) == m * i + m) by (nonlinear_arith);
        }
        let w = write_measurement(out, city, measurement);
        proof {
            let ghost next = draws.push((city@, measurement as int));
            assert(next.drop_last() =~= draws);
            assert forall|j: int| 0 <= j < next.len() implies universe.contains(
                #[trigger] next[j].0,
            ) && MIN_MEASUREMENT <= next[j].1 <= MAX_MEASUREMENT by {
                if j < draws.len() {
                    assert(next[j] == draws[j]);
                } else {
                    let k = choose|k: int| 0 <= k < cities@.len() && cities@[k] == *city;
                    assert(universe[k] == next[j].0);
                }
            }
            assert(out@ =~= start + concat_records(next));
            draws = next;
        }
        written = written + w;
        i = i + 1;
    }
    assert(out@.subrange(0, start.len() as int) =~= start);
    assert(out@.subrange(start.len() as int, out@.len() as int) =~= concat_records(draws));
    Ok(written)
}

proof fn lemma_count_concat(a: Seq<u8>, b: Seq<u8>, x: u8)
    ensures
        count_byte(a + b, x) == count_byte(a, x) + count_byte(b, x),
    decreases b.len(),
{
    if b.len() > 0 {
        assert((a + b).drop_last() =~= a + b.drop_last());
        lemma_count_concat(a, b.drop_last(), x);
    } else {
        assert(a + b =~= a);
    }
}

proof fn lemma_count_absent(s: Seq<u8>, x: u8)
    requires
        !s.contains(x),
    ensures
        count_byte(s, x) == 0,
    decreases s.len(),
{
    if s.len() > 0 {
        assert(s[s.len() - 1] == s.last());
        assert(!s.drop_last().contains(x)) by {
            if s.drop_last().contains(x) {
                let i = choose|i: int| 0 <= i < s.drop_last().len() && s.drop_last()[i] == x;
                assert(s[i] == x);
            }
        }
        lemma_count_absent(s.drop_last(), x);
    }
}

proof fn lemma_record_newlines(city: Seq<u8>, m: int)
    requires
        MIN_MEASUREMENT <= m <= MAX_MEASUREMENT,
        !city.contains(NEWLINE),
    ensures
        count_byte(record_bytes(city, m), NEWLINE) == 1,
{
    let t = temperature_text(m);
    assert(!t.contains(NEWLINE)) by {
        if t.contains(NEWLINE) {
            let i = choose|i: int| 0 <= i < t.len() && t[i] == NEWLINE;
            if m < 0 {
                assert(i == 0 || (seq![MINUS] + magnitude_text(-m))[i] == magnitude_text(-m)[i - 1]);
            }
        }
    }
    lemma_count_absent(city, NEWLINE);
    lemma_count_absent(t, NEWLINE);
    assert(city.push(DELIMITER) =~= city + seq![DELIMITER]);
    lemma_count_concat(city, seq![DELIMITER], NEWLINE);
    assert(seq![DELIMITER].drop_last() =~= Seq::<u8>::empty());
    assert(count_byte(Seq::<u8>::empty(), NEWLINE) == 0);
    assert(seq![DELIMITER].last() == DELIMITER);
    assert(count_byte(seq![DELIMITER], NEWLINE) == 0);
    assert(t.push(NEWLINE) =~= t + seq![NEWLINE]);
    lemma_count_concat(t, seq![NEWLINE], NEWLINE);
    assert(seq![NEWLINE].drop_last() =~= Seq::<u8>::empty());
    assert(seq![NEWLINE].last() == NEWLINE);
    assert(count_byte(seq![NEWLINE], NEWLINE) == 1);
    lemma_count_concat(city.push(DELIMITER), measurement_text(m), NEWLINE);
}

proof fn lemma_concat_newlines(draws: Seq<(Seq<u8>, int)>, universe: Seq<Seq<u8>>)
    requires
        valid_draws(draws, universe),
        forall|c: Seq<u8>| #[trigger] universe.contains(c) ==> !c.contains(NEWLINE),
    ensures
        count_byte(concat_records(draws), NEWLINE) == draws.len(),
    decreases draws.len(),
{
    if draws.len() > 0 {
        let last = draws.last();
        assert(draws[draws.len() - 1] == last);
        assert(universe.contains(last.0));
        lemma_record_newlines(last.0, last.1);
        assert forall|i: int| 0 <= i < draws.drop_last().len() implies universe.contains(
            #[trigger] draws.drop_last()[i].0,
        ) && MIN_MEASUREMENT <= draws.drop_last()[i].1 <= MAX_MEASUREMENT by {
            assert(draws.drop_last()[i] == draws[i]);
        }
        lemma_concat_newlines(draws.drop_last(), universe);
        lemma_count_concat(
            concat_records(draws.drop_last()),
            record_bytes(last.0, last.1),
            NEWLINE,
        );
    }
}

/// An output of `n` rows has exactly `n` lines, provided no city name holds a
/// newline.
pub proof fn lemma_line_count(out: Seq<u8>, universe: Seq<Seq<u8>>, n: nat)
    requires
        is_generated_output(out, universe, n),
        forall|c: Seq<u8>| #[trigger] universe.contains(c) ==> !c.contains(NEWLINE),
    ensures
        count_byte(out, NEWLINE) == n,
{
    let draws = choose|draws: Seq<(Seq<u8>, int)>|
        draws.len() == n && valid_draws(draws, universe) && #[trigger] concat_records(draws)
            == out;
    lemma_concat_newlines(draws, universe);
}

proof fn lemma_concat_len(draws: Seq<(Seq<u8>, int)>, universe: Seq<Seq<u8>>)
    requires
        valid_draws(draws, universe),
    ensures
        concat_records(draws).len() <= max_record_len(universe) * draws.len(),
    decreases draws.len(),
{
    if draws.len() > 0 {
        let last = draws.last();
        let m = max_record_len(universe);
        let k = draws.len() - 1;
        assert(draws[k] == last);
        lemma_max_city_len(universe, last.0);
        lemma_temperature_round_trip(last.1);
        assert forall|i: int| 0 <= i < draws.drop_last().len() implies universe.contains(
            #[trigger] draws.drop_last()[i].0,
        ) && MIN_MEASUREMENT <= draws.drop_last()[i].1 <= MAX_MEASUREMENT by {
            assert(draws.drop_last()[i] == draws[i]);
        }
        lemma_concat_len(draws.drop_last(), universe);
        assert(m * k + m == m * draws.len()) by (nonlinear_arith)
            requires
                k == draws.len() - 1,
        ;
    }
}

/// The size estimate made before writing is never below what is written:
/// `n` rows take at most `(longest name + 1 + 6) * n` bytes.
pub proof fn lemma_output_within_estimate(out: Seq<u8>, universe: Seq<Seq<u8>>, n: nat)
    requires
        is_generated_output(out, universe, n),
    ensures
        out.len() <= max_record_len(universe) * n,
{
    let draws = choose|draws: Seq<(Seq<u8>, int)>|
        draws.len() == n && valid_draws(draws, universe) && #[trigger] concat_records(draws)
            == out;
    lemma_concat_len(draws, universe);
}

/// Every line of an output splits on its delimiter into a name of the universe
/// and a temperature in [-60.0, 59.9] written with one fractional digit,
/// provided no city name holds the delimiter.
pub proof fn lemma_output_lines_round_trip(out: Seq<u8>, universe: Seq<Seq<u8>>, n: nat)
    requires
        is_generated_output(out, universe, n),
        forall|c: Seq<u8>| #[trigger] universe.contains(c) ==> !c.contains(DELIMITER),
    ensures
        exists|draws: Seq<(Seq<u8>, int)>|
            {
                &&& draws.len() == n
                &&& #[trigger] concat_records(draws) == out
                &&& forall|i: int|
                    0 <= i < draws.len() ==> {
                        &&& universe.contains(#[trigger] draws[i].0)
                        &&& MIN_MEASUREMENT <= draws[i].1 <= MAX_MEASUREMENT
                        &&& parse_line(record_bytes(draws[i].0, draws[i].1)) == Some(draws[i])
                    }
            },
{
    let draws = choose|draws: Seq<(Seq<u8>, int)>|
        draws.len() == n && valid_draws(draws, universe) && #[trigger] concat_records(draws)
            == out;
    assert forall|i: int| 0 <= i < draws.len() implies parse_line(
        record_bytes(draws[i].0, draws[i].1),
    ) == Some(draws[i]) by {
        assert(universe.contains(draws[i].0));
        lemma_record_round_trip(draws[i].0, draws[i].1);
    }
}

} // verus!
