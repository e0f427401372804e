use advoc2023::almanac::{get_seeds, lowest, seed_count, seed_ranges, MapChain, MapEntry};
use advoc2023::error::ParseError;

const EXAMPLE: &str = "seeds: 79 14 55 13

seed-to-soil map:
50 98 2
52 50 48

soil-to-fertilizer map:
0 15 37
37 52 2
39 0 15

fertilizer-to-water map:
49 53 8
0 11 42
42 0 7
57 7 4

water-to-light map:
88 18 7
18 25 70

light-to-temperature map:
45 77 23
81 45 19
68 64 13

temperature-to-humidity map:
0 69 1
1 0 69

humidity-to-location map:
60 56 37
56 93 4
";

#[test]
fn test_map_chain() {
    let test_data = EXAMPLE.to_string();
    let map_chain = MapChain::from_str(&test_data).unwrap();
    let seeds = get_seeds(&test_data).unwrap();
    let locations: Vec<i64> = seeds.into_iter().map(|seed| map_chain.map(seed)).collect();
    let min = locations
        .iter()
        .reduce(|acc, v| if v < acc { v } else { acc })
        .unwrap();
    assert_eq!(map_chain.map(79), 82);
    println!("Locations: {:?}", locations);
    println!("  Minimum location: {}", min);
    assert_eq!(map_chain.map(14), 43);
    assert_eq!(map_chain.map(55), 86);
    assert_eq!(map_chain.map(13), 35);
}

#[test]
fn test_get_seeds() {
    let test_data = EXAMPLE.to_string();
    let seeds = get_seeds(&test_data).unwrap();
    println!("Seeds: {:?}", seeds);
    assert_eq!(seeds.len(), 4);
    for i in (0..seeds.len()).step_by(2) {
        for j in seeds[i]..(seeds[i] + seeds[i + 1]) {
            println!("seed: {}", j);
        }
    }
}

#[test]
fn test_water_map() {
    let test_data = EXAMPLE.to_string();
    let maps = MapChain::from_str(&test_data).unwrap().maps;
    assert_eq!(maps[2].name(), "fertilizer-to-water");
    assert_eq!(maps[2].map(53), 49);
}

#[test]
fn test_named_map() {
    let test_data = EXAMPLE.to_string();
    let maps = MapChain::from_str(&test_data).unwrap().maps;
    assert_eq!(maps.len(), 7);
    assert_eq!(maps[1].name(), "soil-to-fertilizer");
    assert_eq!(maps[2].map_entries().len(), 4);
    assert_eq!(maps[2].map_entries()[2].target_start(), 42);

    assert_eq!(maps[0].map(14), 14);
    assert_eq!(maps[0].map(79), 81);
    assert_eq!(maps[0].map(55), 57);
    assert_eq!(maps[0].map(13), 13);
}

#[test]
fn test_map_entry() {
    let map = MapEntry::from("50 98 2").unwrap();
    assert_eq!(map, MapEntry::new(50, 98, 2).unwrap());

    assert_eq!(map.map(97), 97);
    assert_eq!(map.map(98), 50);
    assert_eq!(map.map(99), 51);
    assert_eq!(map.map(100), 100);
}

#[test]
fn seeds_are_the_numbers_of_the_first_seed_line() {
    assert_eq!(get_seeds(EXAMPLE).unwrap(), vec![79, 14, 55, 13]);
    assert_eq!(get_seeds("x\nseeds: 1\nseeds: 2 3").unwrap(), vec![1]);
    assert_eq!(get_seeds("no seeds here\n").unwrap(), Vec::<i64>::new());
    assert_eq!(get_seeds("").unwrap(), Vec::<i64>::new());
    assert_eq!(
        get_seeds(&format!("seeds: {}", i64::MAX)).unwrap(),
        vec![i64::MAX]
    );
}

#[test]
fn seed_line_errors() {
    assert_eq!(get_seeds("seeds: ").unwrap_err(), ParseError::MissingField);
    assert_eq!(get_seeds("seeds: 1  2").unwrap_err(), ParseError::MissingField);
    assert_eq!(get_seeds("seeds: 1 2 ").unwrap_err(), ParseError::MissingField);
    assert_eq!(get_seeds("seeds: 1 x2").unwrap_err(), ParseError::SyntaxError { at: 9 });
    assert_eq!(get_seeds("seeds: 1 -2").unwrap_err(), ParseError::SyntaxError { at: 9 });
    assert_eq!(
        get_seeds("seeds: 1 9223372036854775808").unwrap_err(),
        ParseError::NumberOutOfRange { at: 9 }
    );
}

#[test]
fn map_entry_fields_and_missing_numbers() {
    let entry = MapEntry::from("42 0 7").unwrap();
    assert_eq!(entry.target_start(), 42);
    assert_eq!(entry.source_start(), 0);
    assert_eq!(entry.range_length(), 7);
    assert_eq!(MapEntry::from("5 6").unwrap(), MapEntry::new(5, 6, 0).unwrap());
    assert_eq!(MapEntry::from("5").unwrap(), MapEntry::new(5, 0, 0).unwrap());
}

#[test]
fn map_entry_errors() {
    assert_eq!(MapEntry::from("").unwrap_err(), ParseError::MissingField);
    assert_eq!(MapEntry::from("1 2 3 4").unwrap_err(), ParseError::UnexpectedToken { at: 3 });
    assert_eq!(MapEntry::from("1 2 3 4 x").unwrap_err(), ParseError::UnexpectedToken { at: 3 });
    assert_eq!(MapEntry::from("1 2 3 x").unwrap_err(), ParseError::SyntaxError { at: 6 });
    assert_eq!(MapEntry::from("1 2x 3").unwrap_err(), ParseError::SyntaxError { at: 3 });
    assert_eq!(
        MapEntry::from("1 99999999999999999999 3").unwrap_err(),
        ParseError::NumberOutOfRange { at: 2 }
    );
    assert_eq!(
        MapEntry::from("9223372036854775807 0 2").unwrap_err(),
        ParseError::NumberOutOfRange { at: 0 }
    );
    assert!(MapEntry::from("9223372036854775807 0 1").is_ok());
    assert_eq!(
        MapEntry::new(i64::MAX, 0, 2).unwrap_err(),
        ParseError::NumberOutOfRange { at: 0 }
    );
}

#[test]
fn map_entry_with_extreme_ranges() {
    let entry = MapEntry::new(i64::MAX - 1, i64::MIN, 2).unwrap();
    assert_eq!(entry.map(i64::MIN), i64::MAX - 1);
    assert_eq!(entry.map(i64::MIN + 1), i64::MAX);
    assert_eq!(entry.map(i64::MIN + 2), i64::MIN + 2);
    let down = MapEntry::new(i64::MIN, i64::MAX, 1).unwrap();
    assert_eq!(down.map(i64::MAX), i64::MIN);
    assert_eq!(down.map(0), 0);
    let none = MapEntry::new(7, 3, -1).unwrap();
    assert_eq!(none.map(3), 3);
}

#[test]
fn named_map_takes_the_first_entry_that_changes_the_value() {
    let chain = MapChain::from_str("a map:\n5 5 10\n100 5 10\n200 7 1\n").unwrap();
    assert_eq!(chain.maps.len(), 1);
    assert_eq!(chain.maps[0].name(), "a");
    assert_eq!(chain.maps[0].map(7), 102);
    assert_eq!(chain.maps[0].map(4), 4);
    assert_eq!(chain.map(7), 102);
}

#[test]
fn map_chain_blocks() {
    let chain = MapChain::from_str("junk\n1 2 3\nfirst map: and more\n1 0 5\n\n5 5 5\nsecond-one map:").unwrap();
    assert_eq!(chain.maps.len(), 2);
    assert_eq!(chain.maps[0].name(), "first");
    assert_eq!(chain.maps[0].map_entries().len(), 1);
    assert_eq!(chain.maps[1].name(), "second-one");
    assert_eq!(chain.maps[1].map_entries().len(), 0);
    assert_eq!(chain.map(0), 1);
    assert_eq!(MapChain::from_str("").unwrap().maps.len(), 0);
    assert_eq!(MapChain::from_str("").unwrap().map(17), 17);
}

#[test]
fn map_chain_errors() {
    assert_eq!(
        MapChain::from_str("a map:\n1 2 3\nb map:\n").unwrap_err(),
        ParseError::SyntaxError { at: 0 }
    );
    assert_eq!(
        MapChain::from_str("a map:\n1 2 3 4\n").unwrap_err(),
        ParseError::UnexpectedToken { at: 3 }
    );
    assert_eq!(
        MapChain::from_str("a map:\n1 2  3\n").unwrap_err(),
        ParseError::MissingField
    );
}

/// A small generator of numbers that is the same on every run.
fn next(state: &mut u64) -> u64 {
    *state = state
        .wrapping_mul(6364136223846793005)
        .wrapping_add(1442695040888963407);
    *state >> 33
}

#[test]
fn many_chains_map_as_their_entries_say() {
    let mut state = 13;
    for _ in 0..100 {
        let mut text = String::from("seeds: 1 2 3\n");
        let mut maps: Vec<Vec<(i64, i64, i64)>> = Vec::new();
        for m in 0..(next(&mut state) % 4) {
            text += &format!("\nm{}-to-m{} map:\n", m, m + 1);
            let mut entries = Vec::new();
            for _ in 0..(next(&mut state) % 4) {
                let entry = (
                    (next(&mut state) % 50) as i64,
                    (next(&mut state) % 50) as i64,
                    (next(&mut state) % 20) as i64,
                );
                text += &format!("{} {} {}\n", entry.0, entry.1, entry.2);
                entries.push(entry);
            }
            maps.push(entries);
        }
        let chain = MapChain::from_str(&text).unwrap();
        assert_eq!(chain.maps.len(), maps.len(), "{:?}", text);
        for v in 0..80i64 {
            let mut expected = v;
            for (m, entries) in maps.iter().enumerate() {
                let before = expected;
                for (target, source, length) in entries {
                    if before >= *source && before < source + length && target != source {
                        expected = before + target - source;
                        break;
                    }
                }
                assert_eq!(chain.maps[m].map(before), expected);
            }
            assert_eq!(chain.map(v), expected, "{:?} {}", text, v);
        }
    }
}

#[test]
fn lowest_location_of_the_example() {
    let chain = MapChain::from_str(EXAMPLE).unwrap();
    let seeds = get_seeds(EXAMPLE).unwrap();
    let locations = chain.locations(&seeds);
    assert_eq!(locations, vec![82, 43, 86, 35]);
    assert_eq!(lowest(&locations), Some(35));
    assert_eq!(lowest(&vec![]), None);
    assert_eq!(lowest(&vec![3, -7, i64::MIN, 5]), Some(i64::MIN));
    assert_eq!(lowest(&vec![i64::MAX]), Some(i64::MAX));
}

#[test]
fn lowest_location_of_the_ranges_of_the_example() {
    let chain = MapChain::from_str(EXAMPLE).unwrap();
    let seeds = get_seeds(EXAMPLE).unwrap();
    assert_eq!(seed_count(&seeds), Some(27));
    let ranges = seed_ranges(&seeds).unwrap();
    assert_eq!(ranges, vec![(79, 93), (55, 68)]);
    let lows: Vec<i64> = ranges
        .iter()
        .map(|(start, end)| chain.lowest_in_range(*start, *end))
        .collect();
    assert_eq!(lows, vec![46, 56]);
    assert_eq!(lowest(&lows), Some(46));
    assert_eq!(chain.lowest_in_range(5, 5), i64::MAX);
    assert_eq!(chain.lowest_in_range(5, 4), i64::MAX);
    assert_eq!(chain.lowest_in_range(79, 80), 82);
    let top = MapChain::from_str("").unwrap();
    assert_eq!(top.lowest_in_range(i64::MAX - 1, i64::MAX), i64::MAX - 1);
}

#[test]
fn seed_ranges_need_pairs_that_fit() {
    assert_eq!(seed_ranges(&vec![]), Some(vec![]));
    assert_eq!(seed_ranges(&vec![1]), None);
    assert_eq!(seed_ranges(&vec![1, 2, 3]), None);
    assert_eq!(seed_ranges(&vec![i64::MAX, 1]), None);
    assert_eq!(seed_ranges(&vec![i64::MAX, 0, 5, -5]), Some(vec![(i64::MAX, i64::MAX), (5, 0)]));
    assert_eq!(seed_count(&vec![]), Some(0));
    assert_eq!(seed_count(&vec![1]), None);
    assert_eq!(seed_count(&vec![0, i64::MAX, 0, 1]), None);
    assert_eq!(seed_count(&vec![0, i64::MAX, 0, 1, 0, -1]), None);
    assert_eq!(seed_count(&vec![0, i64::MAX, 0, -1, 0, 1]), Some(i64::MAX));
}

#[test]
fn copy_of_a_chain_maps_alike() {
    let chain = MapChain::from_str(EXAMPLE).unwrap();
    let copy = chain.clone();
    assert_eq!(copy.maps.len(), 7);
    for (a, b) in chain.maps.iter().zip(copy.maps.iter()) {
        assert_eq!(a.name(), b.name());
        assert_eq!(a.map_entries(), b.map_entries());
    }
    for v in 0..120 {
        assert_eq!(copy.map(v), chain.map(v));
    }
    assert_eq!(MapChain::default().maps.len(), 0);
}
