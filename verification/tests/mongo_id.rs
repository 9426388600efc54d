use std::collections::HashSet;
use std::time::{SystemTime, UNIX_EPOCH};

use spt_native::loot::mongo_id::{is_valid, MongoIdGenerator};

fn generator() -> MongoIdGenerator {
    MongoIdGenerator::new(4242)
}

#[test]
fn generates_24_lowercase_hex_characters() {
    let mut ids = generator();
    for _ in 0..100 {
        let id = ids.generate();
        assert_eq!(id.len(), 24, "{id} is not 24 characters");
        assert!(
            id.bytes()
                .all(|b| b.is_ascii_digit() || (b'a'..=b'f').contains(&b)),
            "{id} contains non-lowercase-hex characters"
        );
    }
}

#[test]
fn generates_unique_ids() {
    let mut generator = generator();
    let ids: HashSet<String> = (0..10_000).map(|_| generator.generate()).collect();
    assert_eq!(ids.len(), 10_000, "generated ids collided");
}

#[test]
fn leading_four_bytes_are_the_current_unix_seconds() {
    let mut ids = generator();
    let before = SystemTime::now()
        .duration_since(UNIX_EPOCH)
        .unwrap()
        .as_secs();
    let id = ids.generate();
    let after = SystemTime::now()
        .duration_since(UNIX_EPOCH)
        .unwrap()
        .as_secs();

    let timestamp = u64::from(u32::from_str_radix(&id[..8], 16).expect("hex timestamp prefix"));
    assert!(
        (before..=after).contains(&timestamp),
        "timestamp {timestamp} from {id} is outside {before}..={after}"
    );
}

#[test]
fn generated_ids_are_unique() {
    let mut ids = generator();
    let first = ids.generate();
    let second = ids.generate();
    assert_ne!(first, second);
}

#[test]
fn is_valid_accepts_generated_ids() {
    let mut ids = generator();
    assert!(is_valid(&ids.generate()));
}

#[test]
fn is_valid_matches_the_csharp_parser() {
    // The host's id parser accepts 24 hex characters of either case and rejects everything else.
    assert!(is_valid("5449016a4bdc2d6f028b456f"));
    assert!(is_valid("5449016A4BDC2D6F028B456F"));
    assert!(!is_valid(""));
    assert!(!is_valid("5449016a4bdc2d6f028b456"));
    assert!(!is_valid("5449016a4bdc2d6f028b456ff"));
    assert!(!is_valid("5449016a4bdc2d6f028b456g"));
    assert!(!is_valid("5449016a4bdc2d6f028b456\u{00e9}"));
}

#[test]
fn generate_at_lays_out_time_machine_process_and_counter() {
    let mut ids = MongoIdGenerator { machine: 0x00AB_CDEF, counter: 0x0012_3456, process_id: 0xBEEF };

    let id = ids.generate_at(0x5449_016A);

    assert_eq!(id, "5449016aabcdefbeef123456");
    assert_eq!(ids.counter, 0x0012_3457);
    assert_eq!(ids.machine, 0x00AB_CDEF);
    assert_eq!(ids.process_id, 0xBEEF);
}

#[test]
fn generate_at_keeps_only_the_low_three_bytes_of_machine_and_counter() {
    let mut ids = MongoIdGenerator { machine: 0xFF00_0001, counter: 0x0100_0002, process_id: 1 };

    assert_eq!(ids.generate_at(0), "000000000000010001000002");
    assert_eq!(ids.generate_at(u32::MAX), "ffffffff0000010001000003");
}

#[test]
fn generate_at_wraps_the_counter_past_its_maximum() {
    let mut ids = MongoIdGenerator { machine: 0, counter: u32::MAX, process_id: 0 };

    assert_eq!(ids.generate_at(1), "000000010000000000ffffff");
    assert_eq!(ids.counter, 0);
    assert_eq!(ids.generate_at(1), "000000010000000000000000");
}

#[test]
fn new_generators_draw_machine_and_counter_in_range() {
    for _ in 0..100 {
        let ids = MongoIdGenerator::new(7);
        assert_eq!(ids.process_id, 7);
        assert!(ids.machine <= 0x00FF_FFFF);
        assert!(ids.counter < 0x00FF_FFFF);
    }
}

#[test]
fn is_valid_rejects_whitespace_and_separators() {
    assert!(!is_valid(" 449016a4bdc2d6f028b456f"));
    assert!(!is_valid("5449016a-bdc2d6f028b456f"));
    assert!(is_valid("000000000000000000000000"));
    assert!(is_valid("ABCDEFabcdef012345678901"));
}
