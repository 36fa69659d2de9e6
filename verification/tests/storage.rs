//! Publishing: which publisher, and what it runs and asks.
use tilefeed::config::{PublishBackend, PublishConfig};
use tilefeed::storage::{
    after_run, command_run, local_target, mapbox_account, s3_copy, LocalTarget, MapboxAction,
    MapboxCredentials, MapboxEvent, MapboxUpload, PublishError, StoragePublisher,
};

fn config(backend: PublishBackend) -> PublishConfig {
    PublishConfig { backend, ..PublishConfig::default() }
}

fn failure(c: &PublishConfig) -> String {
    StoragePublisher::from_config(c).unwrap_err().message()
}

#[test]
fn nothing_is_published_by_default() {
    assert!(StoragePublisher::from_config(&PublishConfig::default()).unwrap().is_none());
}

#[test]
fn backends_need_their_settings() {
    assert_eq!(
        failure(&config(PublishBackend::Local)),
        "publish.destination is required when publish.backend=local"
    );
    assert_eq!(
        failure(&config(PublishBackend::S3)),
        "publish.destination is required when publish.backend=s3"
    );
    let mut c = config(PublishBackend::Mapbox);
    assert_eq!(
        failure(&c),
        "publish.mapbox_tileset_id is required when publish.backend=mapbox"
    );
    c.mapbox_tileset_id = Some("me.tiles".to_string());
    assert_eq!(failure(&c), "publish.mapbox_token is required when publish.backend=mapbox");
    assert_eq!(
        failure(&config(PublishBackend::Command)),
        "publish.command is required when publish.backend=command"
    );
}

#[test]
fn publishers_take_their_settings() {
    let mut c = config(PublishBackend::S3);
    c.destination = Some("s3://bucket/x".to_string());
    match StoragePublisher::from_config(&c).unwrap().unwrap() {
        StoragePublisher::S3 { destination, args } => {
            assert_eq!(destination, "s3://bucket/x");
            assert!(args.is_empty());
        }
        _ => panic!("wrong publisher"),
    }
    c.backend = PublishBackend::Local;
    assert!(matches!(
        StoragePublisher::from_config(&c).unwrap().unwrap(),
        StoragePublisher::Local { destination } if destination == "s3://bucket/x"
    ));
    c.backend = PublishBackend::Mapbox;
    c.mapbox_tileset_id = Some("me.tiles".to_string());
    c.mapbox_token = Some("t".to_string());
    assert!(matches!(
        StoragePublisher::from_config(&c).unwrap().unwrap(),
        StoragePublisher::Mapbox { tileset_id, token } if tileset_id == "me.tiles" && token == "t"
    ));
    c.backend = PublishBackend::Command;
    c.command = Some("run.sh".to_string());
    assert!(matches!(
        StoragePublisher::from_config(&c).unwrap().unwrap(),
        StoragePublisher::Command { command, args } if command == "run.sh" && args.is_empty()
    ));
    c.args = Some(vec!["--fast".to_string(), "a b".to_string()]);
    assert!(matches!(
        StoragePublisher::from_config(&c).unwrap().unwrap(),
        StoragePublisher::Command { args, .. } if args == ["--fast", "a b"]
    ));
}

#[test]
fn programs_get_their_arguments() {
    let run = s3_copy("a.mbtiles", "s3://b/k", &vec!["--acl".to_string(), "private".to_string()]);
    assert_eq!(run.program, "aws");
    assert_eq!(run.args, vec!["s3", "cp", "a.mbtiles", "s3://b/k", "--acl", "private"]);
    assert!(run.vars.is_empty());
    let run = command_run("deploy.sh", &vec![], "a.mbtiles", "full-generate", false);
    assert_eq!((run.program.as_str(), run.args), ("sh", vec!["-c".to_string(), "deploy.sh".to_string()]));
    assert_eq!(run.vars[0], ("TILEFEED_MBTILES_PATH".to_string(), "a.mbtiles".to_string()));
    assert_eq!(run.vars[1], ("TILEFEED_PUBLISH_REASON".to_string(), "full-generate".to_string()));
    assert_eq!(command_run("x", &vec![], "a", "r", true).args, vec!["/C", "x"]);
    assert!(after_run("S3 publish", true, "").is_ok());
    assert_eq!(
        after_run("S3 publish", false, "denied").unwrap_err().message(),
        "S3 publish failed: denied"
    );
}

#[test]
fn commands_get_their_extra_arguments() {
    let extra = vec!["--fast".to_string(), "a b".to_string()];
    let run = command_run("deploy.sh", &extra, "a.mbtiles", "update", false);
    assert_eq!(run.program, "sh");
    assert_eq!(run.args, vec!["-c", "deploy.sh \"$@\"", "sh", "--fast", "a b"]);
    let run = command_run("deploy.cmd", &extra, "a.mbtiles", "update", true);
    assert_eq!(run.program, "cmd");
    assert_eq!(run.args, vec!["/C", "deploy.cmd", "--fast", "a b"]);
}

#[test]
fn copies_go_into_directories() {
    assert!(matches!(local_target(false, None), Ok(LocalTarget::Destination)));
    assert!(matches!(local_target(true, None), Err(PublishError::NoFileName)));
    assert!(matches!(
        local_target(true, Some("a.mbtiles".to_string())),
        Ok(LocalTarget::InDirectory { file_name }) if file_name == "a.mbtiles"
    ));
}

fn credentials() -> MapboxCredentials {
    MapboxCredentials {
        access_key_id: "id".to_string(),
        bucket: "bucket".to_string(),
        key: "key/1".to_string(),
        secret_access_key: "secret".to_string(),
        session_token: "session".to_string(),
        url: "https://bucket/key/1".to_string(),
    }
}

#[test]
fn an_upload_goes_through_staging() {
    let (mut upload, action) = MapboxUpload::begin("a.mbtiles", "me.tiles", "tok");
    assert!(matches!(action, MapboxAction::RequestCredentials { url }
        if url == "https://api.mapbox.com/uploads/v1/me/credentials?access_token=tok"));
    match upload.advance(MapboxEvent::Credentials(credentials())).unwrap() {
        MapboxAction::Stage { run } => {
            assert_eq!(run.program, "aws");
            assert_eq!(run.args, vec!["s3", "cp", "a.mbtiles", "s3://bucket/key/1"]);
            assert_eq!(run.vars[2], ("AWS_SESSION_TOKEN".to_string(), "session".to_string()));
        }
        _ => panic!("staging was expected"),
    }
    let staged = MapboxEvent::Staged { success: true, stderr: String::new() };
    match upload.advance(staged).unwrap() {
        MapboxAction::CreateUpload { url, fields } => {
            assert_eq!(url, "https://api.mapbox.com/uploads/v1/me?access_token=tok");
            assert_eq!(fields[0], ("url".to_string(), "https://bucket/key/1".to_string()));
            assert_eq!(fields[1], ("tileset".to_string(), "me.tiles".to_string()));
            assert_eq!(fields[2], ("name".to_string(), "me.tiles".to_string()));
        }
        _ => panic!("an upload was expected"),
    }
    assert!(matches!(upload.advance(MapboxEvent::Created), Ok(MapboxAction::Done)));
    assert!(matches!(upload.advance(MapboxEvent::Created), Err(PublishError::Unexpected)));
}

#[test]
fn a_failed_staging_ends_an_upload() {
    let (mut upload, _) = MapboxUpload::begin("a.mbtiles", "tiles", "tok");
    upload.advance(MapboxEvent::Credentials(credentials())).unwrap();
    let staged = MapboxEvent::Staged { success: false, stderr: "no".to_string() };
    assert_eq!(
        upload.advance(staged).unwrap_err().message(),
        "Mapbox staging upload failed: no"
    );
    assert!(upload.advance(MapboxEvent::Created).is_err());
    assert_eq!(mapbox_account("me.a.b"), "me");
    assert_eq!(mapbox_account("whole"), "whole");
    assert_eq!(mapbox_account(""), "");
}
