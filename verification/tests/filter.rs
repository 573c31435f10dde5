use boundary_rings::boundary::Area;
use boundary_rings::filter::{by_query, by_target, settle};
use boundary_rings::tags::Tags;

fn area(tags: &[(&str, &str)]) -> Area {
    let mut all = Tags::new();
    for (key, value) in tags {
        all.insert(key.to_string(), value.to_string());
    }
    Area { id: 1, tags: all, members: vec![] }
}

fn town(level: &str) -> Area {
    area(&[
        ("name", "Musterstadt"),
        ("type", "boundary"),
        ("boundary", "administrative"),
        ("de:regionalschluessel", "010010000000"),
        ("admin_level", level),
    ])
}

#[test]
fn tags_hold_the_latest_value_of_a_key() {
    let mut tags = Tags::new();
    assert_eq!(tags.get("name"), None);
    assert!(!tags.contains_key("name"));
    tags.insert("name".to_string(), "Alt".to_string());
    tags.insert("type".to_string(), "boundary".to_string());
    tags.insert("name".to_string(), "Neu".to_string());
    assert_eq!(tags.get("name"), Some(&"Neu".to_string()));
    assert_eq!(tags.get("type"), Some(&"boundary".to_string()));
    assert!(tags.contains_key("type"));
    assert!(tags.has("name", "Neu"));
    assert!(!tags.has("name", "Alt"));
    assert!(!tags.has("nam", "Neu"));
    assert!(!tags.has("boundary", "boundary"));
}

#[test]
fn target_levels_are_two_four_six_seven_and_eight() {
    for level in ["2", "4", "6", "7", "8"] {
        assert!(by_target(&town(level)), "level {level}");
    }
    for level in ["1", "3", "5", "9", "10", "", "08", " 8", "eight"] {
        assert!(!by_target(&town(level)), "level {level}");
    }
}

#[test]
fn target_needs_every_tag() {
    let full = [
        ("name", "Musterstadt"),
        ("type", "boundary"),
        ("boundary", "administrative"),
        ("de:regionalschluessel", "010010000000"),
        ("admin_level", "8"),
    ];
    assert!(by_target(&area(&full)));
    for left_out in 0..full.len() {
        let mut rest = full.to_vec();
        rest.remove(left_out);
        assert!(!by_target(&area(&rest)), "without {}", full[left_out].0);
    }
}

#[test]
fn target_needs_the_exact_kind() {
    let mut wrong_type = town("8");
    wrong_type.tags.insert("type".to_string(), "multipolygon".to_string());
    assert!(!by_target(&wrong_type));
    let mut wrong_boundary = town("8");
    wrong_boundary.tags.insert("boundary".to_string(), "postal_code".to_string());
    assert!(!by_target(&wrong_boundary));
}

#[test]
fn query_is_a_regular_expression_where_it_is_valid() {
    let q = by_query("^Muster.*dt$");
    assert!(q.matches_name("Musterstadt"));
    assert!(!q.matches_name("Neu Musterstadt"));
    assert!(!q.matches_name("musterstadt"));
    assert!(q.matches(&town("8")));
    assert!(!q.matches(&area(&[("name", "Beispieldorf")])));
}

#[test]
fn plain_text_query_matches_as_an_expression() {
    let q = by_query("stadt");
    assert!(q.matches_name("Musterstadt"));
    assert!(!q.matches_name("MusterStadt"));
    assert!(!q.matches_name("Stad"));
}

#[test]
fn invalid_expression_is_searched_as_text_whatever_the_case() {
    let q = by_query("Stadt(");
    assert!(q.matches_name("Musterstadt(Alt)"));
    assert!(q.matches_name("MUSTERSTADT(ALT)"));
    assert!(!q.matches_name("Musterstadt"));
    assert!(!q.matches_name("tadt("));
}

#[test]
fn area_without_a_name_answers_no_query() {
    let nameless = area(&[("type", "boundary")]);
    assert!(!by_query(".*").matches(&nameless));
    assert!(!by_query("").matches(&nameless));
    assert!(by_query("").matches(&town("2")));
}

#[test]
fn verdict_of_the_expression_is_final() {
    assert!(settle(Some(true), "x", "y"));
    assert!(!settle(Some(false), "a", "a"));
    assert!(settle(None, "A", "xay"));
    assert!(settle(None, "", ""));
    assert!(!settle(None, "ab", "a"));
    assert!(!settle(None, "ab", "ba"));
}
