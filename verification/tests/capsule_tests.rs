use hublab_engine::Capsule;

#[test]
fn test_capsule_matches() {
    let capsule = Capsule::new(
        "test-1".to_string(),
        "Dashboard Analytics".to_string(),
        "UI".to_string(),
        "Analytics dashboard component".to_string(),
        vec!["dashboard".to_string(), "analytics".to_string()],
        "react".to_string(),
        None,
        None,
    );

    assert!(capsule.matches("dashboard"));
    assert!(capsule.matches("analytics"));
    assert!(capsule.matches("ui"));
    assert!(!capsule.matches("nonexistent"));
}

#[test]
fn test_capsule_score() {
    let capsule = Capsule::new(
        "test-1".to_string(),
        "Dashboard".to_string(),
        "UI".to_string(),
        "A dashboard component".to_string(),
        vec!["dashboard".to_string()],
        "react".to_string(),
        None,
        None,
    );

    let score_exact = capsule.score("dashboard");
    let score_partial = capsule.score("dash");
    let score_tag = capsule.score("dashboard");

    assert!(score_exact > 100);
    assert!(score_partial > 0);
    assert!(score_tag > 0);
    assert!(score_exact > score_partial);
}
