use adblock::filters::hostnames::{
    get_entity_hashes_from_labels, get_hostname_hashes_from_labels, is_domain_of,
    normalize_hostname, parse_scope, scope_entry,
};
use adblock::filters::cosmetic::CosmeticFilterError;
use adblock::text::{chars_of, has_chars_at, has_prefix_at, index_of, string_of, trim_bounds};
use adblock::utils::{fast_hash, insert_sorted, is_strictly_sorted, sorted_intersects};

fn sorted(names: &[&str]) -> Vec<u64> {
    let mut hashes: Vec<u64> = names.iter().map(|n| fast_hash(n)).collect();
    hashes.sort();
    hashes
}

#[test]
fn fast_hash_is_fnv1a_64() {
    assert_eq!(fast_hash(""), 0xcbf29ce484222325);
    assert_eq!(fast_hash("a"), 0xaf63dc4c8601ec8c);
    assert_eq!(fast_hash("foobar"), 0x85944171f73967e8);
    assert_eq!(fast_hash("é"), fast_hash("\u{e9}"));
    assert_ne!(fast_hash("example.com"), fast_hash("example.org"));
}

#[test]
fn hostname_hashes_walk_up_to_the_domain() {
    assert_eq!(
        get_hostname_hashes_from_labels("a.b.example.com", "example.com"),
        sorted(&["a.b.example.com", "b.example.com", "example.com"])
    );
    assert_eq!(
        get_hostname_hashes_from_labels("example.com", "example.com"),
        sorted(&["example.com"])
    );
    assert_eq!(
        get_hostname_hashes_from_labels("www.example.co.uk", "example.co.uk"),
        sorted(&["www.example.co.uk", "example.co.uk"])
    );
    assert_eq!(get_hostname_hashes_from_labels("com", "example.com"), Vec::<u64>::new());
    assert_eq!(get_hostname_hashes_from_labels("example.com", ""), Vec::<u64>::new());
}

#[test]
fn domain_fits_a_hostname_at_a_label() {
    let fits = |hostname: &str, domain: &str| is_domain_of(&chars_of(hostname), &chars_of(domain));
    assert!(fits("example.com", "example.com"));
    assert!(fits("a.b.example.com", "example.com"));
    assert!(fits("a.b.example.com", "com"));
    assert!(fits(".com", "com"));
    assert!(!fits("badexample.com", "example.com"));
    assert!(!fits("example.com", "example.org"));
    assert!(!fits("example.com.", "example.com"));
    assert!(!fits("com", "example.com"));
    assert!(!fits("example.com", ""));
    assert!(!fits("", ""));
    assert_eq!(get_hostname_hashes_from_labels("badexample.com", "example.com"), Vec::<u64>::new());
    assert_eq!(get_entity_hashes_from_labels("badexample.com", "example.com"), Vec::<u64>::new());
    assert_eq!(get_hostname_hashes_from_labels("example.com.", "example.com"), Vec::<u64>::new());
}

#[test]
fn entity_hashes_drop_the_public_suffix() {
    assert_eq!(
        get_entity_hashes_from_labels("a.b.example.com", "example.com"),
        sorted(&["a.b.example", "b.example", "example"])
    );
    assert_eq!(
        get_entity_hashes_from_labels("www.example.co.uk", "example.co.uk"),
        sorted(&["www.example", "example"])
    );
    assert_eq!(get_entity_hashes_from_labels("example.com", "example.com"), sorted(&["example"]));
    assert_eq!(get_entity_hashes_from_labels("localhost", "localhost"), Vec::<u64>::new());
    assert_eq!(get_entity_hashes_from_labels("com", "example.com"), Vec::<u64>::new());
}

#[test]
fn sorted_sets_take_each_value_once() {
    let mut set: Vec<u64> = Vec::new();
    for x in [5u64, 1, 9, 5, 3, 1, 0, u64::MAX] {
        insert_sorted(&mut set, x);
    }
    assert_eq!(set, vec![0, 1, 3, 5, 9, u64::MAX]);
    assert!(is_strictly_sorted(&set));
    assert!(is_strictly_sorted(&[]));
    assert!(is_strictly_sorted(&[7]));
    assert!(!is_strictly_sorted(&[1, 1]));
    assert!(!is_strictly_sorted(&[2, 1]));
}

#[test]
fn sorted_sets_intersect_by_merge() {
    assert!(sorted_intersects(&[1, 3, 5], &[2, 3, 4]));
    assert!(sorted_intersects(&[5], &[1, 2, 5]));
    assert!(!sorted_intersects(&[1, 3, 5], &[2, 4, 6]));
    assert!(!sorted_intersects(&[], &[1]));
    assert!(!sorted_intersects(&[1], &[]));
}

#[test]
fn scope_entries_tell_negation_and_entity() {
    let plain = scope_entry("example.com");
    assert_eq!((plain.negation, plain.entity, plain.hash), (false, false, fast_hash("example.com")));
    let negated = scope_entry("~example.com");
    assert_eq!((negated.negation, negated.entity, negated.hash), (true, false, fast_hash("example.com")));
    let entity = scope_entry("example.*");
    assert_eq!((entity.negation, entity.entity, entity.hash), (false, true, fast_hash("example")));
    let both = scope_entry("~example.*");
    assert_eq!((both.negation, both.entity, both.hash), (true, true, fast_hash("example")));
    let least = scope_entry("~.*");
    assert_eq!((least.negation, least.entity, least.hash), (true, true, fast_hash("")));
    let empty = scope_entry("");
    assert_eq!((empty.negation, empty.entity, empty.hash), (false, false, fast_hash("")));
}

#[test]
fn hostnames_outside_ascii_go_through_punycode() {
    let ascii: Vec<char> = "Example.COM".chars().collect();
    assert_eq!(normalize_hostname(&ascii), Ok("Example.COM".to_string()));
    let unicode: Vec<char> = "неlloworlд.com".chars().collect();
    assert_eq!(normalize_hostname(&unicode), Ok("xn--lloworl-5ggb3f.com".to_string()));
    let upper: Vec<char> = "BÜCHER.de".chars().collect();
    assert_eq!(normalize_hostname(&upper), Ok("xn--bcher-kva.de".to_string()));
    let bad: Vec<char> = "~bücher.de".chars().collect();
    assert_eq!(normalize_hostname(&bad), Err(CosmeticFilterError::PunycodeError));
    let longest: Vec<char> = format!("ü.{}", "a".repeat(51)).chars().collect();
    assert_eq!(longest.len(), 53);
    assert_eq!(normalize_hostname(&longest), Ok(format!("xn--tda.{}", "a".repeat(51))));
    let longer: Vec<char> = format!("ü.{}", "a".repeat(52)).chars().collect();
    assert_eq!(normalize_hostname(&longer), Err(CosmeticFilterError::PunycodeError));
}

#[test]
fn scope_is_read_part_by_part() {
    let scope: Vec<char> = "b.com,~a.com,x.*,bücher.de".chars().collect();
    let sets = parse_scope(&scope).ok().unwrap();
    assert_eq!(sets.hostnames, sorted(&["b.com", "xn--bcher-kva.de"]));
    assert_eq!(sets.not_hostnames, sorted(&["a.com"]));
    assert_eq!(sets.entities, sorted(&["x"]));
    assert_eq!(sets.not_entities, Vec::<u64>::new());
    assert!(sets.is_unicode);
    let plain: Vec<char> = "a.com".chars().collect();
    assert!(!parse_scope(&plain).ok().unwrap().is_unicode);
    let bad: Vec<char> = "a.com,~bücher.de,b.com".chars().collect();
    assert!(parse_scope(&bad).is_err());
}

#[test]
fn text_helpers() {
    let chars = chars_of("  a#b, c  ");
    assert_eq!(chars.len(), 10);
    assert_eq!(index_of(&chars, '#', 0), 3);
    assert_eq!(index_of(&chars, '#', 4), 10);
    assert_eq!(index_of(&chars, ' ', 0), 0);
    assert_eq!(string_of(&chars, 2, 5), "a#b");
    assert_eq!(string_of(&chars, 4, 4), "");
    assert!(has_prefix_at(&chars, 2, "a#b"));
    assert!(has_chars_at(&chars, 2, &['a', '#']));
    assert!(!has_chars_at(&chars, 9, &[' ', ' ']));
    assert!(has_prefix_at(&chars, 10, ""));
    assert!(!has_prefix_at(&chars, 3, "a#b"));
    assert!(!has_prefix_at(&chars, 8, "   "));
    assert_eq!(trim_bounds(&chars, 0, 10), (2, 8));
    assert_eq!(trim_bounds(&chars, 5, 7), (5, 6));
    assert_eq!(trim_bounds(&chars, 6, 8), (7, 8));
    assert_eq!(trim_bounds(&chars, 8, 10), (10, 10));
    let wide = chars_of("\u{3000}\té\u{a0}\n");
    assert_eq!(trim_bounds(&wide, 0, wide.len()), (2, 3));
}
