use rand::rngs::StdRng;
use rand::SeedableRng;
use weather_gen::cities::{cities_from_table, load_cities, sample_cities, MAX_CITIES};
use weather_gen::error::GenError;
use weather_gen::format::write_measurement;
use weather_gen::generate::{generate_rows, max_output_size};

fn names(list: &[&str]) -> Vec<Vec<u8>> {
    list.iter().map(|s| s.as_bytes().to_vec()).collect()
}

fn render(city: &str, m: i32) -> (Vec<u8>, usize) {
    let mut out = Vec::new();
    let w = write_measurement(&mut out, &city.as_bytes().to_vec(), m);
    (out, w)
}

/// Checks `-?D{1,2}.D` and returns the value in tenths.
fn parse_temperature(t: &str) -> i32 {
    let (neg, digits) = match t.strip_prefix('-') {
        Some(rest) => (true, rest),
        None => (false, t),
    };
    let (int_part, frac) = digits.split_once('.').expect("a decimal point");
    assert!(int_part.len() == 1 || int_part.len() == 2, "integer part of {t}");
    assert_eq!(frac.len(), 1, "fraction of {t}");
    assert!(int_part.bytes().chain(frac.bytes()).all(|b| b.is_ascii_digit()));
    let v: i32 = int_part.parse::<i32>().unwrap() * 10 + frac.parse::<i32>().unwrap();
    if neg {
        -v
    } else {
        v
    }
}

fn check_output(out: &[u8], universe: &[Vec<u8>], rows: usize) {
    let text = std::str::from_utf8(out).unwrap();
    assert!(rows == 0 || text.ends_with('\n'));
    let lines: Vec<&str> = text.split_terminator('\n').collect();
    assert_eq!(lines.len(), rows);
    for line in lines {
        let (city, temp) = line.split_once(';').expect("a delimiter");
        assert!(universe.iter().any(|c| c.as_slice() == city.as_bytes()), "city {city}");
        let v = parse_temperature(temp);
        assert!((-600..=599).contains(&v), "value {v}");
    }
}

#[test]
fn renders_two_integer_digits() {
    assert_eq!(render("Oslo", 237), (b"Oslo;23.7\n".to_vec(), 10));
}

#[test]
fn renders_one_integer_digit() {
    assert_eq!(render("Oslo", 5), (b"Oslo;0.5\n".to_vec(), 9));
    assert_eq!(render("Oslo", 0), (b"Oslo;0.0\n".to_vec(), 9));
    assert_eq!(render("Oslo", 99), (b"Oslo;9.9\n".to_vec(), 9));
}

#[test]
fn renders_negative_values() {
    assert_eq!(render("Bergen", -600), (b"Bergen;-60.0\n".to_vec(), 13));
    assert_eq!(render("Bergen", -5), (b"Bergen;-0.5\n".to_vec(), 12));
    assert_eq!(render("Bergen", -100), (b"Bergen;-10.0\n".to_vec(), 13));
}

#[test]
fn renders_extremes() {
    assert_eq!(render("X", 599), (b"X;59.9\n".to_vec(), 7));
    assert_eq!(render("X", 999), (b"X;99.9\n".to_vec(), 7));
    assert_eq!(render("X", -999), (b"X;-99.9\n".to_vec(), 8));
}

#[test]
fn write_appends_to_existing_bytes() {
    let mut out = b"a;1.0\n".to_vec();
    let w = write_measurement(&mut out, &b"Troms\xc3\xb8".to_vec(), -12);
    assert_eq!(w, 13);
    assert_eq!(out, "a;1.0\nTromsø;-1.2\n".as_bytes().to_vec());
}

#[test]
fn loads_first_field_of_every_record() {
    let cities = load_cities(b"Oslo,1\nBergen,2\nTroms\xc3\xb8,3\n").unwrap();
    assert_eq!(cities, names(&["Oslo", "Bergen", "Tromsø"]));
}

#[test]
fn loads_single_column_without_trailing_newline() {
    let cities = load_cities(b"city\nOslo").unwrap();
    assert_eq!(cities, names(&["city", "Oslo"]));
}

#[test]
fn loads_quoted_field() {
    let cities = load_cities(b"\"St. John's, NL\",x\n").unwrap();
    assert_eq!(cities, names(&["St. John's, NL"]));
}

#[test]
fn loads_nothing_from_empty_input() {
    assert_eq!(load_cities(b"").unwrap(), Vec::<Vec<u8>>::new());
}

#[test]
fn rejects_ragged_table() {
    assert!(matches!(load_cities(b"a,b\nc\n"), Err(GenError::Input(_))));
}

#[test]
fn first_fields_skip_empty_records() {
    let table = vec![
        vec![b"Oslo".to_vec(), b"1".to_vec()],
        vec![],
        vec![b"Bergen".to_vec()],
    ];
    assert_eq!(cities_from_table(&table), names(&["Oslo", "Bergen"]));
}

#[test]
fn sample_keeps_small_input_whole() {
    let cities = names(&["Oslo", "Bergen", "Tromsø"]);
    let mut rng = StdRng::seed_from_u64(1);
    let mut sample = sample_cities(cities.clone(), &mut rng);
    assert_eq!(sample.len(), 3);
    sample.sort();
    let mut sorted = cities;
    sorted.sort();
    assert_eq!(sample, sorted);
}

#[test]
fn sample_of_exactly_the_bound_keeps_all() {
    let cities: Vec<Vec<u8>> = (0..MAX_CITIES).map(|i| format!("c{i}").into_bytes()).collect();
    let mut rng = StdRng::seed_from_u64(2);
    assert_eq!(sample_cities(cities, &mut rng).len(), 10000);
}

#[test]
fn sample_truncates_large_input() {
    let cities: Vec<Vec<u8>> = (0..25000).map(|i| format!("c{i}").into_bytes()).collect();
    let mut rng = StdRng::seed_from_u64(3);
    let mut sample = sample_cities(cities, &mut rng);
    assert_eq!(sample.len(), 10000);
    // not merely the first 10000 names
    assert!(sample.iter().any(|c| {
        let i: usize = std::str::from_utf8(&c[1..]).unwrap().parse().unwrap();
        i >= 10000
    }));
    sample.sort();
    sample.dedup();
    assert_eq!(sample.len(), 10000);
}

#[test]
fn sample_changes_order() {
    let cities: Vec<Vec<u8>> = (0..50).map(|i| format!("c{i}").into_bytes()).collect();
    let mut rng = StdRng::seed_from_u64(4);
    let sample = sample_cities(cities.clone(), &mut rng);
    assert_ne!(sample, cities);
}

#[test]
fn estimate_uses_longest_name() {
    let cities = names(&["Oslo", "Bergen", "Tromsø"]);
    // "Tromsø" is 7 bytes; 7 + 1 + 6 = 14 per row
    assert_eq!(max_output_size(&cities, 5), Some(70));
    assert_eq!(max_output_size(&cities, 0), Some(0));
    assert_eq!(max_output_size(&Vec::new(), 3), Some(21));
}

#[test]
fn estimate_overflow_is_none() {
    let cities = names(&["Oslo"]);
    assert_eq!(max_output_size(&cities, usize::MAX / 11 + 1), None);
    assert_eq!(max_output_size(&cities, usize::MAX / 11), Some(usize::MAX / 11 * 11));
}

#[test]
fn three_cities_five_rows() {
    let cities = names(&["Oslo", "Bergen", "Tromsø"]);
    let mut rng = StdRng::seed_from_u64(5);
    let universe = sample_cities(cities, &mut rng);
    let mut out = Vec::new();
    let w = generate_rows(&mut out, &universe, 5, &mut rng).unwrap();
    assert_eq!(w, out.len());
    check_output(&out, &universe, 5);
    assert!(w <= max_output_size(&universe, 5).unwrap());
}

#[test]
fn zero_rows_give_empty_output() {
    let cities = names(&["Oslo"]);
    let mut rng = StdRng::seed_from_u64(6);
    let mut out = Vec::new();
    assert_eq!(generate_rows(&mut out, &cities, 0, &mut rng).unwrap(), 0);
    assert!(out.is_empty());
    let mut out = Vec::new();
    assert_eq!(generate_rows(&mut out, &Vec::new(), 0, &mut rng).unwrap(), 0);
    assert!(out.is_empty());
}

#[test]
fn empty_universe_with_rows_fails() {
    let cities = load_cities(b"").unwrap();
    let mut rng = StdRng::seed_from_u64(7);
    let universe = sample_cities(cities, &mut rng);
    let mut out = b"keep".to_vec();
    assert!(matches!(
        generate_rows(&mut out, &universe, 3, &mut rng),
        Err(GenError::NoCities)
    ));
    assert_eq!(out, b"keep".to_vec());
}

#[test]
fn many_rows_are_well_formed() {
    let cities = names(&["Oslo", "Bergen", "Tromsø", "Hamburg", "Abéché"]);
    let mut rng = StdRng::seed_from_u64(8);
    let mut out = b"x;1.0\n".to_vec();
    let w = generate_rows(&mut out, &cities, 2000, &mut rng).unwrap();
    assert_eq!(w, out.len() - 6);
    check_output(&out[6..], &cities, 2000);
    assert!(w <= max_output_size(&cities, 2000).unwrap());
    // the draws vary: several cities and several temperatures occur
    let text = std::str::from_utf8(&out[6..]).unwrap();
    let lines: Vec<&str> = text.lines().collect();
    assert!(cities
        .iter()
        .all(|c| lines.iter().any(|l| l.as_bytes().starts_with(c) && l.as_bytes()[c.len()] == b';')));
    let temps: std::collections::BTreeSet<i32> =
        lines.iter().map(|l| parse_temperature(l.split_once(';').unwrap().1)).collect();
    assert!(temps.len() > 100);
    assert!(temps.iter().any(|v| *v < 0) && temps.iter().any(|v| *v > 0));
}

#[test]
fn same_seed_same_output() {
    let cities = names(&["Oslo", "Bergen", "Tromsø"]);
    let run = |seed: u64| {
        let mut rng = StdRng::seed_from_u64(seed);
        let universe = sample_cities(cities.clone(), &mut rng);
        let mut out = Vec::new();
        generate_rows(&mut out, &universe, 50, &mut rng).unwrap();
        out
    };
    assert_eq!(run(9), run(9));
}
