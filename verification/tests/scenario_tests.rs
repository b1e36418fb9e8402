//! Concrete scenarios for the engine's stated behaviour: page-size bounds,
//! pagination-independent totals, score positivity, descending order,
//! filter narrowing, out-of-range offsets, case folding, exact score
//! arithmetic, and fuzzy threshold monotonicity.

use hublab_engine::models::Capsule;
use hublab_engine::search::{fuzzy_search_capsules, search_capsules};
use hublab_engine::{CapsuleIndex, SearchConfig, SearchQuery};

fn capsule(id: &str, name: &str, category: &str, description: &str, tags: Vec<&str>) -> Capsule {
    Capsule::new(
        id.to_string(),
        name.to_string(),
        category.to_string(),
        description.to_string(),
        tags.iter().map(|s| s.to_string()).collect(),
        "react".to_string(),
        None,
        None,
    )
}

fn two_item_catalog() -> CapsuleIndex {
    CapsuleIndex::new(vec![
        capsule("1", "Dashboard", "UI", "", vec!["dashboard", "analytics"]),
        capsule("2", "Button", "UI", "", vec!["button"]),
    ])
}

fn query(text: &str, limit: usize, offset: usize) -> SearchQuery {
    SearchQuery {
        query: text.to_string(),
        category: None,
        platform: None,
        tags: vec![],
        limit,
        offset,
    }
}

#[test]
fn test_exact_scenario_scores() {
    // Exact search for "dashboard": only the first capsule matches, with
    // 100 points for the exact name plus 40 for the exact tag, reported in
    // thousandths of a point.
    let index = two_item_catalog();
    let config = SearchConfig::default();

    let result = search_capsules(&index, &query("dashboard", 10, 0), &config);

    assert_eq!(result.total, 1);
    assert_eq!(result.results.len(), 1);
    assert_eq!(result.results[0].capsule.id, "1");
    assert_eq!(result.results[0].score, 140_000);
}

#[test]
fn test_empty_query_lists_category_in_order() {
    // An empty query with a category filter lists everything that passed
    // the filter at the uniform placeholder score, catalog order kept.
    let index = two_item_catalog();
    let config = SearchConfig::default();

    let mut q = query("", 10, 0);
    q.category = Some("UI".to_string());
    let result = search_capsules(&index, &q, &config);

    assert_eq!(result.total, 2);
    assert_eq!(result.results.len(), 2);
    assert_eq!(result.results[0].capsule.id, "1");
    assert_eq!(result.results[1].capsule.id, "2");
    assert_eq!(result.results[0].score, 1000);
    assert_eq!(result.results[1].score, 1000);
}

#[test]
fn test_fuzzy_typo_found_at_loose_threshold() {
    // "dashbord" is one edit from "dashboard" (similarity 888 of 1000):
    // found at threshold 0.7, excluded at 0.99, and lowering the threshold
    // never shrinks the count.
    let index = CapsuleIndex::new(vec![capsule("1", "Dashboard", "UI", "", vec![])]);

    let mut loose = SearchConfig::default();
    loose.fuzzy_threshold = 700;
    let mut strict = SearchConfig::default();
    strict.fuzzy_threshold = 990;

    let q = query("dashbord", 10, 0);
    let found = fuzzy_search_capsules(&index, &q, &loose);
    let excluded = fuzzy_search_capsules(&index, &q, &strict);

    assert_eq!(found.total, 1);
    assert_eq!(found.results[0].capsule.id, "1");
    assert!(excluded.total <= found.total);
    assert_eq!(excluded.total, 0);
}

#[test]
fn test_fuzzy_pure_typo_score_proportional_to_similarity() {
    // A pure typo match with no substring overlap scores similarity x 100:
    // "abcx" vs name "abcd" has similarity 750 of 1000, so 75000
    // thousandths of a point.
    let index = CapsuleIndex::new(vec![capsule("1", "abcd", "UI", "zzzz", vec![])]);
    let mut config = SearchConfig::default();
    config.fuzzy_threshold = 700;

    let result = fuzzy_search_capsules(&index, &query("abcx", 10, 0), &config);

    assert_eq!(result.total, 1);
    assert_eq!(result.results[0].score, 75_000);
}

#[test]
fn test_page_size_never_exceeds_limit_or_ceiling() {
    let index = CapsuleIndex::new(vec![
        capsule("1", "A dash", "UI", "", vec![]),
        capsule("2", "B dash", "UI", "", vec![]),
        capsule("3", "C dash", "UI", "", vec![]),
    ]);

    let mut config = SearchConfig::default();
    config.max_results = 2;

    let result = search_capsules(&index, &query("dash", 10, 0), &config);
    assert_eq!(result.total, 3);
    assert_eq!(result.results.len(), 2);

    let result = search_capsules(&index, &query("dash", 1, 0), &config);
    assert_eq!(result.total, 3);
    assert_eq!(result.results.len(), 1);
}

#[test]
fn test_total_same_across_pages() {
    let index = CapsuleIndex::new(vec![
        capsule("1", "A dash", "UI", "", vec![]),
        capsule("2", "B dash", "UI", "", vec![]),
        capsule("3", "C dash", "UI", "", vec![]),
    ]);
    let config = SearchConfig::default();

    let page1 = search_capsules(&index, &query("dash", 2, 0), &config);
    let page2 = search_capsules(&index, &query("dash", 2, 2), &config);

    assert_eq!(page1.total, 3);
    assert_eq!(page2.total, 3);
    assert_eq!(page1.results.len(), 2);
    assert_eq!(page2.results.len(), 1);
    assert_ne!(page1.results[0].capsule.id, page2.results[0].capsule.id);
}

#[test]
fn test_scores_sorted_descending() {
    let index = CapsuleIndex::new(vec![
        capsule("1", "x", "UI", "a dash here", vec![]),
        capsule("2", "dash", "UI", "", vec![]),
        capsule("3", "a dash board", "UI", "", vec![]),
    ]);
    let config = SearchConfig::default();

    let result = search_capsules(&index, &query("dash", 10, 0), &config);

    assert_eq!(result.total, 3);
    for pair in result.results.windows(2) {
        assert!(pair[0].score >= pair[1].score);
    }
    // Exact name (100) before substring name (50) before description (30).
    assert_eq!(result.results[0].capsule.id, "2");
    assert_eq!(result.results[1].capsule.id, "3");
    assert_eq!(result.results[2].capsule.id, "1");
}

#[test]
fn test_filters_never_increase_total() {
    let index = CapsuleIndex::new(vec![
        capsule("1", "Dash A", "UI", "", vec!["x"]),
        capsule("2", "Dash B", "Data", "", vec!["y"]),
    ]);
    let config = SearchConfig::default();

    let unfiltered = search_capsules(&index, &query("dash", 10, 0), &config);

    let mut by_cat = query("dash", 10, 0);
    by_cat.category = Some("UI".to_string());
    let filtered_cat = search_capsules(&index, &by_cat, &config);

    let mut by_tag = query("dash", 10, 0);
    by_tag.tags = vec!["x".to_string()];
    let filtered_tag = search_capsules(&index, &by_tag, &config);

    assert_eq!(unfiltered.total, 2);
    assert!(filtered_cat.total <= unfiltered.total);
    assert!(filtered_tag.total <= unfiltered.total);
    assert_eq!(filtered_cat.total, 1);
    assert_eq!(filtered_tag.total, 1);
}

#[test]
fn test_case_folded_queries_rank_alike() {
    // Case variants of the query return the same capsules in the same
    // order with the same scores.
    let index = two_item_catalog();
    let config = SearchConfig::default();

    let lower = search_capsules(&index, &query("dashboard", 10, 0), &config);
    let upper = search_capsules(&index, &query("DASHBOARD", 10, 0), &config);
    let mixed = search_capsules(&index, &query("DashBoard", 10, 0), &config);

    assert_eq!(lower.total, upper.total);
    assert_eq!(lower.total, mixed.total);
    assert_eq!(lower.results.len(), upper.results.len());
    for (a, b) in lower.results.iter().zip(upper.results.iter()) {
        assert_eq!(a.capsule.id, b.capsule.id);
        assert_eq!(a.score, b.score);
    }
    for (a, b) in lower.results.iter().zip(mixed.results.iter()) {
        assert_eq!(a.capsule.id, b.capsule.id);
        assert_eq!(a.score, b.score);
    }
}

#[test]
fn test_score_formula_all_fields() {
    // name exact 100 + description substring 30 + one exact tag 40 + one
    // substring-only tag 0 (no, "dash" does not contain "dashboard") +
    // category exact 25.
    let c = capsule(
        "1",
        "Dashboard",
        "dashboard",
        "my dashboard notes",
        vec!["dashboard", "dash"],
    );
    assert_eq!(c.score("dashboard"), 195);

    // Tag contributions accumulate per occurrence: two matching tags.
    let c2 = capsule("2", "x", "y", "z", vec!["dashboard", "dashboard"]);
    assert_eq!(c2.score("dashboard"), 80);

    // Substring matches score lower: name 50 + description 30 + tag 20 +
    // category 10.
    let c3 = capsule("3", "my dash", "dash tools", "dash it", vec!["dashy"]);
    assert_eq!(c3.score("dash"), 110);
}

#[test]
fn test_duplicate_ids_last_wins() {
    // Both copies stay in the catalog; the identifier lookup returns the
    // later one.
    let index = CapsuleIndex::new(vec![
        capsule("dup", "First", "UI", "", vec![]),
        capsule("dup", "Second", "UI", "", vec![]),
    ]);

    assert_eq!(index.len(), 2);
    let hit = index.get("dup");
    assert!(hit.is_some());
    assert_eq!(hit.unwrap().name, "Second");
}

#[test]
fn test_categories_and_tags_sorted_distinct() {
    let index = CapsuleIndex::new(vec![
        capsule("1", "a", "UI", "", vec!["grid", "button"]),
        capsule("2", "b", "Data", "", vec!["button", "button"]),
        capsule("3", "c", "UI", "", vec!["apple"]),
    ]);

    assert_eq!(index.categories(), vec!["Data".to_string(), "UI".to_string()]);
    assert_eq!(
        index.tags(),
        vec!["apple".to_string(), "button".to_string(), "grid".to_string()]
    );
    // A repeated tag within one capsule lists that capsule once.
    assert_eq!(index.by_tag_name("button").len(), 2);
}
