//! The course of an update.
use tilefeed::config::{GenerationBackend, LayerConfig, SourceConfig, TippecanoeConfig};
use tilefeed::events::TileEvent;
use tilefeed::refresh::{
    tile_writes, RefreshAction, RefreshEvent, Regenerated, SourceRefresh, UnexpectedEvent,
};
use tilefeed::tiles::{TileCoord, TileSpan};
use tilefeed::updater::{parse_notification, TileWrite, UpdateEvent};

fn source() -> SourceConfig {
    SourceConfig {
        name: "town".to_string(),
        mbtiles_path: "town.mbtiles".to_string(),
        min_zoom: 0,
        max_zoom: 14,
        generation_backend: GenerationBackend::Native,
        layers: vec![LayerConfig {
            name: "parks".to_string(),
            schema: None,
            table: "parks".to_string(),
            geometry_column: None,
            id_column: None,
            srid: None,
            properties: None,
            filter: None,
            geometry_columns: None,
            simplify_tolerance: None,
            property_rules: None,
            generate_label_points: false,
            generate_boundary_lines: false,
        }],
        tippecanoe: TippecanoeConfig::default(),
    }
}

fn changes() -> Vec<UpdateEvent> {
    ["parks:7", "lakes:8", "parks:9"].iter().map(|text| parse_notification(text).unwrap()).collect()
}

fn t(z: u8, x: u32, y: u32) -> TileCoord {
    TileCoord { z, x, y }
}

fn span(z: u8, x_min: u32, x_max: u32, y: u32) -> TileSpan {
    TileSpan { z, x_min, x_max, y_min: y, y_max: y }
}

/// The areas of two changes that share a tile.
fn areas() -> Vec<TileSpan> {
    vec![span(2, 1, 2, 3), span(1, 0, 0, 1), span(2, 2, 3, 3)]
}

fn announced(action: RefreshAction) -> (usize, Vec<u8>, u8, Vec<String>) {
    match action {
        RefreshAction::Announce {
            event:
                TileEvent::UpdateComplete {
                    source,
                    tiles_updated,
                    affected_zooms,
                    max_zoom,
                    layers_affected,
                },
        } => {
            assert_eq!(source, "town");
            (tiles_updated, affected_zooms, max_zoom, layers_affected)
        }
        other => panic!("not announced: {:?}", other),
    }
}

#[test]
fn an_update_is_written_published_and_announced() {
    let (source, changes, places) = (source(), changes(), vec![0, 2]);
    let (mut refresh, action) = SourceRefresh::begin(&source, &changes, &places, true);
    match action {
        RefreshAction::LookUp { lookups } => {
            let ids: Vec<i64> = lookups.iter().map(|l| l.feature_id).collect();
            assert_eq!(ids, vec![7, 9]);
        }
        other => panic!("{:?}", other),
    }

    let tiles = match refresh.advance(RefreshEvent::Reached(areas())).unwrap() {
        RefreshAction::Regenerate { tiles } => tiles,
        other => panic!("{:?}", other),
    };
    assert_eq!(tiles, vec![t(1, 0, 1), t(2, 1, 3), t(2, 2, 3), t(2, 3, 3)]);

    let outcomes = vec![
        Regenerated::Tile(vec![1]),
        Regenerated::Empty,
        Regenerated::Failed,
        Regenerated::Tile(vec![2, 3]),
    ];
    match refresh.advance(RefreshEvent::Regenerated(outcomes)).unwrap() {
        RefreshAction::Write { writes } => assert_eq!(
            writes,
            vec![
                TileWrite::Put(t(1, 0, 1), vec![1]),
                TileWrite::Delete(t(2, 1, 3)),
                TileWrite::Put(t(2, 3, 3), vec![2, 3]),
            ]
        ),
        other => panic!("{:?}", other),
    }

    assert!(matches!(refresh.advance(RefreshEvent::Written), Ok(RefreshAction::Publish)));
    let report = announced(refresh.advance(RefreshEvent::Published).unwrap());
    assert_eq!(report, (4, vec![1, 2], 14, vec!["parks".to_string()]));
    assert_eq!(refresh.advance(RefreshEvent::Published).err(), Some(UnexpectedEvent));
}

#[test]
fn an_update_that_is_not_published_is_announced_once_written() {
    let (source, changes, places) = (source(), changes(), vec![2]);
    let (mut refresh, _) = SourceRefresh::begin(&source, &changes, &places, false);
    refresh.advance(RefreshEvent::Reached(vec![span(0, 0, 0, 0)])).unwrap();
    refresh.advance(RefreshEvent::Regenerated(vec![Regenerated::Empty])).unwrap();
    let report = announced(refresh.advance(RefreshEvent::Written).unwrap());
    assert_eq!(report, (1, vec![0], 14, vec!["parks".to_string()]));
}

#[test]
fn an_update_without_stale_tiles_does_nothing() {
    let (source, changes, places) = (source(), changes(), vec![1]);
    let (mut refresh, _) = SourceRefresh::begin(&source, &changes, &places, true);
    assert!(matches!(refresh.advance(RefreshEvent::Reached(vec![])), Ok(RefreshAction::Done)));
}

#[test]
fn an_update_takes_its_steps_in_order() {
    let (source, changes, places) = (source(), changes(), vec![0]);
    let (mut refresh, _) = SourceRefresh::begin(&source, &changes, &places, true);
    assert_eq!(refresh.advance(RefreshEvent::Written).err(), Some(UnexpectedEvent));

    let (mut refresh, _) = SourceRefresh::begin(&source, &changes, &places, true);
    refresh.advance(RefreshEvent::Reached(areas())).unwrap();
    // Four tiles were to be regenerated.
    let short = RefreshEvent::Regenerated(vec![Regenerated::Empty]);
    assert_eq!(refresh.advance(short).err(), Some(UnexpectedEvent));
}

#[test]
fn failed_tiles_are_left_as_they_are() {
    let tiles = vec![t(0, 0, 0), t(1, 1, 1)];
    assert_eq!(tile_writes(&tiles, vec![Regenerated::Failed, Regenerated::Failed]), vec![]);
    assert_eq!(
        tile_writes(&tiles, vec![Regenerated::Failed, Regenerated::Empty]),
        vec![TileWrite::Delete(t(1, 1, 1))]
    );
}
