use adblock::cosmetic_filter_cache::{
    hostname_domain_hashes, rules_to_stylesheet, CosmeticFilterCache,
};
use adblock::filters::cosmetic::CosmeticFilter;
use adblock::utils::fast_hash;

fn rule(line: &str) -> CosmeticFilter {
    CosmeticFilter::parse(line, false).unwrap()
}

fn cache_of(lines: &[&str]) -> CosmeticFilterCache {
    CosmeticFilterCache::new(lines.iter().map(|line| rule(line)).collect())
}

fn strings(items: &[&str]) -> Vec<String> {
    items.iter().map(|item| item.to_string()).collect()
}

#[test]
fn hostname_rule_applies_to_subdomains() {
    let cache = cache_of(&["example.com##.ad"]);
    assert_eq!(cache.hostname_stylesheet("sub.example.com"), ".ad{display:none !important;}\n");
    assert_eq!(cache.hostname_stylesheet("example.com"), ".ad{display:none !important;}\n");
    assert_eq!(cache.hostname_stylesheet("other.com"), "");
    assert_eq!(cache.hostname_stylesheet("badexample.com"), "");
}

#[test]
fn hostname_that_ends_in_a_dot_matches_no_rule() {
    let cache = cache_of(&["example.com##.ad", "example.*##.entity"]);
    assert_eq!(cache.hostname_stylesheet("example.com."), "");
    assert_eq!(cache.hostname_stylesheet("sub.example.com."), "");
    assert_eq!(
        cache.hostname_stylesheet("sub.example.com"),
        ".ad,.entity{display:none !important;}\n"
    );
}

#[test]
fn domain_that_does_not_fit_matches_no_rule() {
    let cache = cache_of(&["example.com##.ad", "badexample.com##.bad", "example.*##.entity"]);
    assert_eq!(cache.hostname_stylesheet_for_domain("badexample.com", "example.com"), "");
    assert_eq!(cache.hostname_stylesheet_for_domain("example.com", "example.org"), "");
    assert_eq!(cache.hostname_stylesheet_for_domain("example.com", ""), "");
    assert_eq!(cache.hostname_stylesheet_for_domain("example.com", "a.example.com"), "");
}

#[test]
fn entity_rule_applies_under_every_public_suffix() {
    let cache = cache_of(&["example.*##.ad"]);
    assert_eq!(cache.hostname_stylesheet("www.example.co.uk"), ".ad{display:none !important;}\n");
    assert_eq!(cache.hostname_stylesheet("example.com"), ".ad{display:none !important;}\n");
    assert_eq!(cache.hostname_stylesheet("example.other.com"), "");
}

#[test]
fn hostname_without_registrable_domain_gets_nothing() {
    let cache = cache_of(&["example.com##.ad", "com##.x"]);
    assert_eq!(cache.hostname_stylesheet("com"), "");
    assert_eq!(cache.hostname_stylesheet(""), "");
}

#[test]
fn stylesheet_for_a_given_domain() {
    let cache = cache_of(&["example.com##.ad", "b.example.com##.b", "~a.example.com##.not-a"]);
    assert_eq!(
        cache.hostname_stylesheet_for_domain("a.example.com", "example.com"),
        ".ad{display:none !important;}\n"
    );
    assert_eq!(
        cache.hostname_stylesheet_for_domain("b.example.com", "example.com"),
        ".ad,.b,.not-a{display:none !important;}\n"
    );
    assert_eq!(
        cache.hostname_stylesheet_for_domain("a.example.com", "a.example.com"),
        ""
    );
}

#[test]
fn negative_scope_excludes() {
    let cache = cache_of(&["example.com,~sub.example.com##.ad", "~example.*##.other"]);
    assert_eq!(cache.hostname_stylesheet("www.example.com"), ".ad{display:none !important;}\n");
    assert_eq!(cache.hostname_stylesheet("sub.example.com"), "");
    assert_eq!(cache.hostname_stylesheet("a.sub.example.com"), "");
    assert_eq!(cache.hostname_stylesheet("example.org"), "");
    assert_eq!(cache.hostname_stylesheet("other.org"), ".other{display:none !important;}\n");
}

#[test]
fn every_positive_set_must_be_met() {
    let cache = cache_of(&["example.com,example.*##.both"]);
    assert_eq!(cache.hostname_stylesheet("example.com"), ".both{display:none !important;}\n");
    assert_eq!(cache.hostname_stylesheet("example.org"), "");
}

#[test]
fn styled_rules_follow_the_hide_block() {
    let cache = cache_of(&[
        "example.com##.a:style(color: red)",
        "example.com##.b",
        "example.com##.c:style()",
        "example.com##div > p:style(margin: 0)",
        "example.com##.d",
    ]);
    assert_eq!(
        cache.hostname_stylesheet("example.com"),
        ".b,.c,.d{display:none !important;}\n.a {color: red}\ndiv > p {margin: 0}\n"
    );
}

#[test]
fn stylesheet_of_rules() {
    assert_eq!(rules_to_stylesheet(&[]), "");
    let a = rule("##.a");
    let b = rule("##.b:style(x: y)");
    let c = rule("##c[d]");
    assert_eq!(rules_to_stylesheet(&[&a]), ".a{display:none !important;}\n");
    assert_eq!(rules_to_stylesheet(&[&a, &c]), ".a,c[d]{display:none !important;}\n");
    assert_eq!(rules_to_stylesheet(&[&a, &b, &c]), ".a,c[d]{display:none !important;}\n.b {x: y}\n");
    assert_eq!(rules_to_stylesheet(&[&b]), "{display:none !important;}\n.b {x: y}\n");
}

#[test]
fn base_stylesheet_follows_the_insertions() {
    let mut cache = cache_of(&["##div[class^=\"x\"]"]);
    assert_eq!(cache.base_stylesheet(), "div[class^=\"x\"]{display:none !important;}\n");
    cache.add_filter(rule("##a[href=\"y\"]"));
    assert_eq!(cache.base_stylesheet(), "div[class^=\"x\"],a[href=\"y\"]{display:none !important;}\n");
    assert_eq!(cache.base_stylesheet(), "div[class^=\"x\"],a[href=\"y\"]{display:none !important;}\n");
    cache.add_filter(rule("##div.popup:style(color: red)"));
    cache.regen_base_stylesheet();
    cache.add_filter(rule("example.com##.scoped"));
    cache.add_filter(rule("##.simple"));
    cache.add_filter(rule("#@#div.unhide"));
    cache.add_filter(rule("##+js(a.js)"));
    cache.add_filter(rule("##p.last"));
    let expected = "div[class^=\"x\"],a[href=\"y\"],p.last{display:none !important;}\ndiv.popup {color: red}\n";
    assert_eq!(cache.base_stylesheet(), expected);
    cache.regen_base_stylesheet();
    assert_eq!(cache.base_stylesheet(), expected);
}

#[test]
fn empty_index_has_empty_stylesheets() {
    let cache = cache_of(&[]);
    assert_eq!(cache.base_stylesheet(), "");
    assert_eq!(cache.hostname_stylesheet("example.com"), "");
    assert_eq!(cache.class_id_stylesheet(&strings(&["a"]), &strings(&["b"])), None);
}

#[test]
fn classes_and_ids_are_probed() {
    let cache = cache_of(&[
        "##.a",
        "##.b",
        "###c",
        "##.a > div",
        "##.a[x]",
        "##.z > p",
        "###c + q",
        "###e",
    ]);
    assert_eq!(
        cache.class_id_stylesheet(&strings(&["a", "b", "x"]), &strings(&["c", "e"])),
        Some(".b,#e,.a > div,.a[x],#c + q{display:none !important;}".to_string())
    );
    assert_eq!(
        cache.class_id_stylesheet(&strings(&["b"]), &[]),
        Some(".b{display:none !important;}".to_string())
    );
    assert_eq!(
        cache.class_id_stylesheet(&[], &strings(&["e", "e"])),
        Some("#e,#e{display:none !important;}".to_string())
    );
    assert_eq!(cache.class_id_stylesheet(&strings(&["z", "x"]), &strings(&["a", "b"])), None);
    assert_eq!(cache.class_id_stylesheet(&[], &[]), None);
}

#[test]
fn request_hashes_come_sorted() {
    let (entities, hostnames) = hostname_domain_hashes("a.example.com", "example.com");
    let mut expected_entities = vec![fast_hash("a.example"), fast_hash("example")];
    expected_entities.sort();
    let mut expected_hostnames = vec![fast_hash("a.example.com"), fast_hash("example.com")];
    expected_hostnames.sort();
    assert_eq!(entities, expected_entities);
    assert_eq!(hostnames, expected_hostnames);
}
