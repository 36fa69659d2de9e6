//! Commands: their names, and which of them generate.
use tilefeed::commands::Commands;

#[test]
fn test_serve_generates_by_default() {
    let command = Commands::Serve { skip_generate: false };
    assert!(command.generates());
    assert_eq!(command.name(), "serve");
}

#[test]
fn test_serve_skip_generate() {
    let command = Commands::Serve { skip_generate: true };
    // Drives both the Tippecanoe/GDAL precondition check and the startup metric
    assert!(!command.generates());
}

#[test]
fn test_run_skip_generate() {
    let command = Commands::Run { skip_generate: true };
    assert!(!command.generates());
    assert_eq!(command.name(), "run");
}

#[test]
fn test_only_generating_commands_report_generates() {
    assert!(Commands::Generate.generates());
    assert!(!Commands::Watch.generates());
    assert!(!Commands::Validate.generates());
    assert!(!Commands::Inspect { path: "a.mbtiles".to_string() }.generates());
    assert!(!Commands::Diff { path_a: "a.mbtiles".to_string(), path_b: "b.mbtiles".to_string() }
        .generates());
    assert!(!Commands::Export { input: "a.mbtiles".to_string(), output: "a.pmtiles".to_string() }
        .generates());
    assert!(Commands::Run { skip_generate: false }.generates());
}

#[test]
fn test_command_names_are_stable_metric_labels() {
    for (command, name) in [
        (Commands::Generate, "generate"),
        (Commands::Watch, "watch"),
        (Commands::Run { skip_generate: false }, "run"),
        (Commands::Serve { skip_generate: false }, "serve"),
        (Commands::Validate, "validate"),
        (Commands::Inspect { path: "a.mbtiles".to_string() }, "inspect"),
        (
            Commands::Diff { path_a: "a.mbtiles".to_string(), path_b: "b.mbtiles".to_string() },
            "diff",
        ),
        (
            Commands::Export { input: "a.mbtiles".to_string(), output: "a.pmtiles".to_string() },
            "export",
        ),
    ] {
        assert_eq!(command.name(), name);
    }
}
