use hublab_engine::models::Capsule;
use hublab_engine::search::{fuzzy_search_capsules, search_capsules};
use hublab_engine::{CapsuleIndex, SearchConfig, SearchQuery};

fn create_test_capsule(id: &str, name: &str, category: &str, tags: Vec<&str>) -> Capsule {
    Capsule::new(
        id.to_string(),
        name.to_string(),
        category.to_string(),
        format!("Description for {}", name),
        tags.iter().map(|s| s.to_string()).collect(),
        "react".to_string(),
        None,
        None,
    )
}

#[test]
fn test_search_basic() {
    let capsules = vec![
        create_test_capsule("1", "Dashboard", "UI", vec!["dashboard", "analytics"]),
        create_test_capsule("2", "Button", "UI", vec!["button", "component"]),
        create_test_capsule("3", "Data Table", "Data", vec!["table", "grid"]),
    ];

    let index = CapsuleIndex::new(capsules);
    let config = SearchConfig::default();

    let query = SearchQuery {
        query: "dashboard".to_string(),
        category: None,
        platform: None,
        tags: vec![],
        limit: 10,
        offset: 0,
    };

    let result = search_capsules(&index, &query, &config);

    assert!(!result.results.is_empty());
    assert_eq!(result.results[0].capsule.name, "Dashboard");
}

#[test]
fn test_search_with_category_filter() {
    let capsules = vec![
        create_test_capsule("1", "UI Component", "UI", vec![]),
        create_test_capsule("2", "Data Table", "Data", vec![]),
    ];

    let index = CapsuleIndex::new(capsules);
    let config = SearchConfig::default();

    let query = SearchQuery {
        query: String::new(),
        category: Some("UI".to_string()),
        platform: None,
        tags: vec![],
        limit: 10,
        offset: 0,
    };

    let result = search_capsules(&index, &query, &config);

    assert_eq!(result.total, 1);
    assert_eq!(result.results[0].capsule.category, "UI");
}

#[test]
fn test_fuzzy_search() {
    let capsules = vec![create_test_capsule("1", "Dashboard", "UI", vec![])];

    let index = CapsuleIndex::new(capsules);
    let mut config = SearchConfig::default();
    config.fuzzy_threshold = 700;

    let query = SearchQuery {
        query: "dashbord".to_string(), // typo
        category: None,
        platform: None,
        tags: vec![],
        limit: 10,
        offset: 0,
    };

    let result = fuzzy_search_capsules(&index, &query, &config);

    assert!(!result.results.is_empty());
    assert_eq!(result.results[0].capsule.name, "Dashboard");
}
