use hublab_engine::models::Capsule;
use hublab_engine::CapsuleIndex;

fn create_test_capsule(id: &str, category: &str, tags: Vec<&str>) -> Capsule {
    Capsule::new(
        id.to_string(),
        format!("Test {}", id),
        category.to_string(),
        "Test capsule".to_string(),
        tags.iter().map(|s| s.to_string()).collect(),
        "react".to_string(),
        None,
        None,
    )
}

#[test]
fn test_index_creation() {
    let capsules = vec![
        create_test_capsule("1", "UI", vec!["button", "component"]),
        create_test_capsule("2", "UI", vec!["input", "form"]),
        create_test_capsule("3", "Data", vec!["table", "grid"]),
    ];

    let index = CapsuleIndex::new(capsules);

    assert_eq!(index.len(), 3);
    assert_eq!(index.categories().len(), 2);
    assert!(index.categories().contains(&"UI".to_string()));
    assert!(index.categories().contains(&"Data".to_string()));
}

#[test]
fn test_get_by_id() {
    let capsules = vec![create_test_capsule("test-1", "UI", vec!["button"])];
    let index = CapsuleIndex::new(capsules);

    let capsule = index.get("test-1");
    assert!(capsule.is_some());
    assert_eq!(capsule.unwrap().id, "test-1");

    let missing = index.get("nonexistent");
    assert!(missing.is_none());
}

#[test]
fn test_by_category() {
    let capsules = vec![
        create_test_capsule("1", "UI", vec![]),
        create_test_capsule("2", "UI", vec![]),
        create_test_capsule("3", "Data", vec![]),
    ];
    let index = CapsuleIndex::new(capsules);

    let ui_capsules = index.by_category_name("UI");
    assert_eq!(ui_capsules.len(), 2);

    let data_capsules = index.by_category_name("Data");
    assert_eq!(data_capsules.len(), 1);
}
