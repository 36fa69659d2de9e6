//! Events of the pipeline: construction and merging.
use std::collections::HashSet;
use tilefeed::events::TileEvent;

#[test]
fn test_update_complete_sorts_zooms() {
    let mut zooms = HashSet::new();
    zooms.insert(14u8);
    zooms.insert(2);
    zooms.insert(8);

    let event = TileEvent::update_complete(
        "src".to_string(),
        42,
        &zooms,
        14,
        vec!["layer1".to_string()],
    );

    match event {
        TileEvent::UpdateComplete {
            affected_zooms,
            tiles_updated,
            ..
        } => {
            assert_eq!(affected_zooms, vec![2, 8, 14]);
            assert_eq!(tiles_updated, 42);
        }
        _ => panic!("Wrong event type"),
    }
}

#[test]
fn test_source_accessor() {
    let e1 = TileEvent::GenerateComplete {
        source: "parks".to_string(),
        duration_ms: 100,
    };
    assert_eq!(e1.source(), "parks");

    let e2 = TileEvent::update_complete(
        "basemap".to_string(),
        5,
        &HashSet::new(),
        14,
        vec![],
    );
    assert_eq!(e2.source(), "basemap");
}

#[test]
fn test_merge_update_events() {
    let mut e1 = TileEvent::update_complete(
        "src".to_string(),
        10,
        &[5u8, 6].into_iter().collect(),
        14,
        vec!["roads".to_string()],
    );
    let e2 = TileEvent::update_complete(
        "src".to_string(),
        20,
        &[6u8, 7].into_iter().collect(),
        14,
        vec!["buildings".to_string()],
    );
    e1.merge(&e2);

    match e1 {
        TileEvent::UpdateComplete {
            tiles_updated,
            affected_zooms,
            layers_affected,
            ..
        } => {
            assert_eq!(tiles_updated, 30);
            assert_eq!(affected_zooms, vec![5, 6, 7]);
            assert!(layers_affected.contains(&"roads".to_string()));
            assert!(layers_affected.contains(&"buildings".to_string()));
        }
        _ => panic!("Wrong type"),
    }
}

#[test]
fn test_merge_generate_replaces_update() {
    let mut e1 = TileEvent::update_complete(
        "src".to_string(),
        10,
        &[5u8].into_iter().collect(),
        14,
        vec!["roads".to_string()],
    );
    let e2 = TileEvent::GenerateComplete {
        source: "src".to_string(),
        duration_ms: 500,
    };
    e1.merge(&e2);

    match e1 {
        TileEvent::GenerateComplete { duration_ms, .. } => {
            assert_eq!(duration_ms, 500);
        }
        _ => panic!("Should be GenerateComplete after merge"),
    }
}

#[test]
fn test_merge_generate_keeps_over_update() {
    let mut e1 = TileEvent::GenerateComplete {
        source: "src".to_string(),
        duration_ms: 500,
    };
    let e2 = TileEvent::update_complete(
        "src".to_string(),
        10,
        &[5u8].into_iter().collect(),
        14,
        vec!["roads".to_string()],
    );
    e1.merge(&e2);

    // Generate should remain
    match e1 {
        TileEvent::GenerateComplete { duration_ms, .. } => {
            assert_eq!(duration_ms, 500);
        }
        _ => panic!("Should still be GenerateComplete"),
    }
}

#[test]
fn test_merge_two_generates() {
    let mut e1 = TileEvent::GenerateComplete {
        source: "src".to_string(),
        duration_ms: 100,
    };
    let e2 = TileEvent::GenerateComplete {
        source: "src".to_string(),
        duration_ms: 999,
    };
    e1.merge(&e2);

    match e1 {
        TileEvent::GenerateComplete { duration_ms, .. } => {
            assert_eq!(duration_ms, 999);
        }
        _ => panic!("Wrong type"),
    }
}

#[test]
fn merged_layers_are_sorted_and_kept_once() {
    let mut e1 = TileEvent::update_complete(
        "src".to_string(),
        1,
        &[9u8].into_iter().collect(),
        12,
        vec!["roads".to_string(), "parks".to_string()],
    );
    let e2 = TileEvent::update_complete(
        "other".to_string(),
        2,
        &[3u8].into_iter().collect(),
        14,
        vec!["parks".to_string(), "\u{e4}cker".to_string(), "a".to_string()],
    );
    e1.merge(&e2);
    match e1 {
        TileEvent::UpdateComplete { source, tiles_updated, affected_zooms, max_zoom, layers_affected } => {
            assert_eq!(source, "src");
            assert_eq!(tiles_updated, 3);
            assert_eq!(affected_zooms, vec![3, 9]);
            assert_eq!(max_zoom, 12);
            assert_eq!(layers_affected, vec!["a", "parks", "roads", "\u{e4}cker"]);
        }
        _ => panic!("wrong event"),
    }
}

#[test]
fn a_copy_says_the_same() {
    let event = TileEvent::update_complete(
        "s".to_string(),
        7,
        &[1u8, 2].into_iter().collect(),
        3,
        vec!["l".to_string()],
    );
    let copy = event.copy();
    assert_eq!(format!("{:?}", copy), format!("{:?}", event));
}

fn changed(tiles_updated: usize, zooms: &[u8], layers: &[&str]) -> TileEvent {
    TileEvent::UpdateComplete {
        source: "src".to_string(),
        tiles_updated,
        affected_zooms: zooms.to_vec(),
        max_zoom: 14,
        layers_affected: layers.iter().map(|l| l.to_string()).collect(),
    }
}

#[test]
fn events_merge_in_any_order() {
    let (b, c) = (changed(5, &[3, 9], &["roads", "b"]), changed(7, &[2, 3], &["a", "roads"]));
    let mut one = changed(1, &[14], &["parks"]);
    one.merge(&b);
    one.merge(&c);
    let mut other = changed(1, &[14], &["parks"]);
    other.merge(&c);
    other.merge(&b);
    assert_eq!(format!("{:?}", one), format!("{:?}", other));
    match one {
        TileEvent::UpdateComplete { tiles_updated, affected_zooms, layers_affected, .. } => {
            assert_eq!(tiles_updated, 13);
            assert_eq!(affected_zooms, vec![2, 3, 9, 14]);
            assert_eq!(layers_affected, vec!["a", "b", "parks", "roads"]);
        }
        _ => panic!("wrong event"),
    }
}
