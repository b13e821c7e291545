//! Metadata and metadata-filter behaviour.

use vectordb::storage::{Metadata, MetadataFilter};

#[test]
fn test_filter_eq() {
    let mut meta = Metadata::new();
    meta.insert("color".to_string(), "red".to_string());

    let f = MetadataFilter::Eq { field: "color".to_string(), value: "red".to_string() };
    assert!(f.matches(&meta));

    let f2 = MetadataFilter::Eq { field: "color".to_string(), value: "blue".to_string() };
    assert!(!f2.matches(&meta));
}

#[test]
fn test_filter_ne() {
    let mut meta = Metadata::new();
    meta.insert("color".to_string(), "red".to_string());

    let f = MetadataFilter::Ne { field: "color".to_string(), value: "blue".to_string() };
    assert!(f.matches(&meta));

    let f2 = MetadataFilter::Ne { field: "color".to_string(), value: "red".to_string() };
    assert!(!f2.matches(&meta));
}

#[test]
fn test_filter_exists() {
    let mut meta = Metadata::new();
    meta.insert("color".to_string(), "red".to_string());

    let f = MetadataFilter::Exists { field: "color".to_string() };
    assert!(f.matches(&meta));

    let f2 = MetadataFilter::Exists { field: "size".to_string() };
    assert!(!f2.matches(&meta));
}

#[test]
fn test_filter_and() {
    let mut meta = Metadata::new();
    meta.insert("color".to_string(), "red".to_string());
    meta.insert("size".to_string(), "large".to_string());

    let f = MetadataFilter::And {
        filters: vec![
            MetadataFilter::Eq { field: "color".to_string(), value: "red".to_string() },
            MetadataFilter::Eq { field: "size".to_string(), value: "large".to_string() },
        ],
    };
    assert!(f.matches(&meta));

    let f2 = MetadataFilter::And {
        filters: vec![
            MetadataFilter::Eq { field: "color".to_string(), value: "red".to_string() },
            MetadataFilter::Eq { field: "size".to_string(), value: "small".to_string() },
        ],
    };
    assert!(!f2.matches(&meta));
}

#[test]
fn test_filter_or() {
    let mut meta = Metadata::new();
    meta.insert("color".to_string(), "red".to_string());

    let f = MetadataFilter::Or {
        filters: vec![
            MetadataFilter::Eq { field: "color".to_string(), value: "red".to_string() },
            MetadataFilter::Eq { field: "color".to_string(), value: "blue".to_string() },
        ],
    };
    assert!(f.matches(&meta));

    let f2 = MetadataFilter::Or {
        filters: vec![
            MetadataFilter::Eq { field: "color".to_string(), value: "green".to_string() },
            MetadataFilter::Eq { field: "color".to_string(), value: "blue".to_string() },
        ],
    };
    assert!(!f2.matches(&meta));
}

#[test]
fn test_filter_ne_absent_field() {
    let meta = Metadata::new();
    let f = MetadataFilter::Ne { field: "color".to_string(), value: "red".to_string() };
    assert!(f.matches(&meta));
}

#[test]
fn test_filter_empty_conjunctions() {
    let meta = Metadata::new();
    let all = MetadataFilter::And { filters: vec![] };
    let any = MetadataFilter::Or { filters: vec![] };
    assert!(all.matches(&meta));
    assert!(!any.matches(&meta));
}

#[test]
fn test_metadata_insert_replaces() {
    let mut meta = Metadata::new();
    meta.insert("k".to_string(), "a".to_string());
    meta.insert("k".to_string(), "b".to_string());
    assert_eq!(meta.get("k"), Some(&"b".to_string()));
    assert_eq!(meta.fields().len(), 1);
    assert_eq!(meta.get("missing"), None);
}
