//! Publishing tile stores: to a directory, to S3, to Mapbox, or by a command.
use crate::config::{PublishBackend, PublishConfig};
use crate::text::{chars_of, copied, has_part, joined, lemma_has_part, text_of, texts};
use vstd::prelude::*;

verus! {

/// Where tile stores are published to.
#[derive(Debug)]
pub enum StoragePublisher {
    Local { destination: String },
    S3 { destination: String, args: Vec<String> },
    Mapbox { tileset_id: String, token: String },
    Command { command: String, args: Vec<String> },
}

/// Why nothing could be published.
#[derive(Debug)]
pub enum PublishError {
    /// The backend is to be a directory, but none is configured.
    LocalDestinationMissing,
    /// The backend is to be S3, but no destination is configured.
    S3DestinationMissing,
    MapboxTilesetMissing,
    MapboxTokenMissing,
    CommandMissing,
    /// The tile store's path has no file name.
    NoFileName,
    /// A program ended without success; what it said.
    ProgramFailed { what: String, stderr: String },
    /// An answer came that was not asked for.
    Unexpected,
}

/// What a publisher is.
pub enum PublisherModel {
    Local { destination: Seq<char> },
    S3 { destination: Seq<char>, args: Seq<Seq<char>> },
    Mapbox { tileset_id: Seq<char>, token: Seq<char> },
    Command { command: Seq<char>, args: Seq<Seq<char>> },
}

/// The extra arguments that are configured.
pub open spec fn extra_args(config: PublishConfig) -> Seq<Seq<char>> {
    match config.args {
        Some(args) => texts(args@),
        None => Seq::empty(),
    }
}

fn configured_args(config: &PublishConfig) -> (args: Vec<String>)
    ensures
        texts(args@) == extra_args(*config),
{
    let args: Vec<String> = match &config.args {
        Some(args) => copied(args),
        None => Vec::new(),
    };
    assert(config.args is None ==> texts(args@) =~= Seq::<Seq<char>>::empty());
    args
}

impl StoragePublisher {
    pub open spec fn model(self) -> PublisherModel {
        match self {
            StoragePublisher::Local { destination } => PublisherModel::Local {
                destination: destination@,
            },
            StoragePublisher::S3 { destination, args } => PublisherModel::S3 {
                destination: destination@,
                args: texts(args@),
            },
            StoragePublisher::Mapbox { tileset_id, token } => PublisherModel::Mapbox {
                tileset_id: tileset_id@,
                token: token@,
            },
            StoragePublisher::Command { command, args } => PublisherModel::Command {
                command: command@,
                args: texts(args@),
            },
        }
    }

    /// The publisher that a configuration asks for, if any. What the chosen
    /// backend needs must be configured.
    pub fn from_config(config: &PublishConfig) -> (res: Result<
        Option<StoragePublisher>,
        PublishError,
    >)
        ensures
            match config.backend {
                PublishBackend::Disabled => res is Ok && res->Ok_0 is None,
                PublishBackend::Local => match config.destination {
                    None => res is Err && res->Err_0 is LocalDestinationMissing,
                    Some(d) => res is Ok && res->Ok_0 is Some && res->Ok_0->0.model() == (
                    PublisherModel::Local { destination: d@ }),
                },
                PublishBackend::S3 => match config.destination {
                    None => res is Err && res->Err_0 is S3DestinationMissing,
                    Some(d) => res is Ok && res->Ok_0 is Some && res->Ok_0->0.model() == (
                    PublisherModel::S3 {
                        destination: d@,
                        args: extra_args(*config),
                    }),
                },
                PublishBackend::Mapbox => match (config.mapbox_tileset_id, config.mapbox_token) {
                    (None, _) => res is Err && res->Err_0 is MapboxTilesetMissing,
                    (Some(_), None) => res is Err && res->Err_0 is MapboxTokenMissing,
                    (Some(id), Some(token)) => res is Ok && res->Ok_0 is Some
                        && res->Ok_0->0.model() == (PublisherModel::Mapbox {
                        tileset_id: id@,
                        token: token@,
                    }),
                },
                PublishBackend::Command => match config.command {
                    None => res is Err && res->Err_0 is CommandMissing,
                    Some(c) => res is Ok && res->Ok_0 is Some && res->Ok_0->0.model() == (
                    PublisherModel::Command { command: c@, args: extra_args(*config) }),
                },
            },
    {
        match config.backend {
            PublishBackend::Disabled => Ok(None),
            PublishBackend::Local => match &config.destination {
                None => Err(PublishError::LocalDestinationMissing),
                Some(d) => Ok(Some(StoragePublisher::Local { destination: d.clone() })),
            },
            PublishBackend::S3 => match &config.destination {
                None => Err(PublishError::S3DestinationMissing),
                Some(d) => Ok(
                    Some(
                        StoragePublisher::S3 {
                            destination: d.clone(),
                            args: configured_args(config),
                        },
                    ),
                ),
            },
            PublishBackend::Mapbox => match &config.mapbox_tileset_id {
                None => Err(PublishError::MapboxTilesetMissing),
                Some(id) => match &config.mapbox_token {
                    None => Err(PublishError::MapboxTokenMissing),
                    Some(token) => Ok(
                        Some(
                            StoragePublisher::Mapbox {
                                tileset_id: id.clone(),
                                token: token.clone(),
                            },
                        ),
                    ),
                },
            },
            PublishBackend::Command => match &config.command {
                None => Err(PublishError::CommandMissing),
                Some(c) => Ok(
                    Some(
                        StoragePublisher::Command {
                            command: c.clone(),
                            args: configured_args(config),
                        },
                    ),
                ),
            },
        }
    }
}

impl PublishError {
    /// The message of the error.
    pub open spec fn spec_message(self) -> Seq<char> {
        match self {
            PublishError::LocalDestinationMissing => "publish.destination is required when publish.backend=local"@,
            PublishError::S3DestinationMissing => "publish.destination is required when publish.backend=s3"@,
            PublishError::MapboxTilesetMissing => "publish.mapbox_tileset_id is required when publish.backend=mapbox"@,
            PublishError::MapboxTokenMissing => "publish.mapbox_token is required when publish.backend=mapbox"@,
            PublishError::CommandMissing => "publish.command is required when publish.backend=command"@,
            PublishError::NoFileName => "MBTiles source path has no filename"@,
            PublishError::ProgramFailed { what, stderr } => what@ + " failed: "@ + stderr@,
            PublishError::Unexpected => "unexpected answer while publishing"@,
        }
    }

    /// The error in words.
    pub fn message(&self) -> (text: String)
        ensures
            text@ == self.spec_message(),
    {
        match self {
            PublishError::LocalDestinationMissing => "publish.destination is required when publish.backend=local".to_owned(),
            PublishError::S3DestinationMissing => "publish.destination is required when publish.backend=s3".to_owned(),
            PublishError::MapboxTilesetMissing => "publish.mapbox_tileset_id is required when publish.backend=mapbox".to_owned(),
            PublishError::MapboxTokenMissing => "publish.mapbox_token is required when publish.backend=mapbox".to_owned(),
            PublishError::CommandMissing => "publish.command is required when publish.backend=command".to_owned(),
            PublishError::NoFileName => "MBTiles source path has no filename".to_owned(),
            PublishError::ProgramFailed { what, stderr } => {
                let mut text: String = joined(what.as_str(), " failed: ");
                text.append(stderr.as_str());
                text
            },
            PublishError::Unexpected => "unexpected answer while publishing".to_owned(),
        }
    }
}

/// Where a store is copied to: into a directory under the store's own name, or
/// to the destination itself.
#[derive(Debug)]
pub enum LocalTarget {
    InDirectory { file_name: String },
    Destination,
}

/// Decide where a store is copied to.
pub fn local_target(destination_is_dir: bool, file_name: Option<String>) -> (res: Result<
    LocalTarget,
    PublishError,
>)
    ensures
        match (destination_is_dir, file_name) {
            (false, _) => res is Ok && res->Ok_0 is Destination,
            (true, None) => res is Err && res->Err_0 is NoFileName,
            (true, Some(name)) => res is Ok && res->Ok_0 == (LocalTarget::InDirectory {
                file_name: name,
            }),
        },
{
    if !destination_is_dir {
        return Ok(LocalTarget::Destination);
    }
    match file_name {
        None => Err(PublishError::NoFileName),
        Some(file_name) => Ok(LocalTarget::InDirectory { file_name }),
    }
}

/// A program to run: its name, its arguments, and what is added to its
/// environment.
#[derive(Debug)]
pub struct ProgramRun {
    pub program: String,
    pub args: Vec<String>,
    pub vars: Vec<(String, String)>,
}

/// What a program run is.
pub struct RunModel {
    pub program: Seq<char>,
    pub args: Seq<Seq<char>>,
    pub vars: Seq<(Seq<char>, Seq<char>)>,
}

/// The texts of pairs.
pub open spec fn pair_texts(pairs: Seq<(String, String)>) -> Seq<(Seq<char>, Seq<char>)> {
    Seq::new(pairs.len(), |i: int| (pairs[i].0@, pairs[i].1@))
}

impl ProgramRun {
    pub open spec fn model(self) -> RunModel {
        RunModel {
            program: self.program@,
            args: texts(self.args@),
            vars: pair_texts(self.vars@),
        }
    }
}

/// The copy of a store to S3.
pub open spec fn s3_copy_model(
    source_path: Seq<char>,
    destination: Seq<char>,
    args: Seq<Seq<char>>,
) -> RunModel {
    RunModel {
        program: "aws"@,
        args: seq!["s3"@, "cp"@, source_path, destination] + args,
        vars: Seq::empty(),
    }
}

/// The copy of a store to S3 by the AWS command line.
pub fn s3_copy(source_path: &str, destination: &str, args: &Vec<String>) -> (run: ProgramRun)
    ensures
        run.model() == s3_copy_model(source_path@, destination@, texts(args@)),
{
    let mut all: Vec<String> = Vec::new();
    all.push("s3".to_owned());
    all.push("cp".to_owned());
    all.push(source_path.to_owned());
    all.push(destination.to_owned());
    let ghost led = texts(all@);
    assert(led =~= seq!["s3"@, "cp"@, source_path@, destination@]);
    let mut more: Vec<String> = copied(args);
    let ghost added = more@;
    all.append(&mut more);
    assert(texts(all@) =~= led + texts(added));
    let vars: Vec<(String, String)> = Vec::new();
    assert(pair_texts(vars@) =~= Seq::<(Seq<char>, Seq<char>)>::empty());
    ProgramRun { program: "aws".to_owned(), args: all, vars }
}

/// The shell of the platform, and its switch for a command line.
pub open spec fn shell(windows: bool) -> (Seq<char>, Seq<char>) {
    if windows {
        ("cmd"@, "/C"@)
    } else {
        ("sh"@, "-c"@)
    }
}

/// The arguments with which a shell runs a command with extra arguments. The
/// Windows shell takes them behind the command. The other one takes them as its own
/// parameters, and the command is told to go on with those.
pub open spec fn shell_args(windows: bool, command: Seq<char>, extra: Seq<Seq<char>>) -> Seq<
    Seq<char>,
> {
    if extra.len() == 0 {
        seq![shell(windows).1, command]
    } else if windows {
        seq![shell(windows).1, command] + extra
    } else {
        seq![shell(windows).1, command + " \"$@\""@, "sh"@] + extra
    }
}

/// The run of a publish command with its extra arguments by the shell of the
/// platform, with the store and the reason in its environment.
pub fn command_run(
    command: &str,
    args: &Vec<String>,
    source_path: &str,
    reason: &str,
    windows: bool,
) -> (run: ProgramRun)
    ensures
        run.model() == (RunModel {
            program: shell(windows).0,
            args: shell_args(windows, command@, texts(args@)),
            vars: seq![
                ("TILEFEED_MBTILES_PATH"@, source_path@),
                ("TILEFEED_PUBLISH_REASON"@, reason@),
            ],
        }),
{
    let (program, flag): (&str, &str) = if windows { ("cmd", "/C") } else { ("sh", "-c") };
    let mut line: Vec<String> = Vec::new();
    line.push(flag.to_owned());
    if args.len() == 0 || windows {
        line.push(command.to_owned());
        assert(texts(line@) =~= seq![flag@, command@]);
    } else {
        line.push(joined(command, " \"$@\""));
        line.push("sh".to_owned());
        assert(texts(line@) =~= seq![flag@, command@ + " \"$@\""@, "sh"@]);
    }
    let ghost led = texts(line@);
    let mut extra: Vec<String> = copied(args);
    assert(texts(extra@).len() == texts(args@).len());
    line.append(&mut extra);
    assert(texts(line@) =~= led + texts(args@));
    assert(texts(line@) =~= shell_args(windows, command@, texts(args@)));
    let mut vars: Vec<(String, String)> = Vec::new();
    vars.push(("TILEFEED_MBTILES_PATH".to_owned(), source_path.to_owned()));
    vars.push(("TILEFEED_PUBLISH_REASON".to_owned(), reason.to_owned()));
    assert(pair_texts(vars@) =~= seq![
        ("TILEFEED_MBTILES_PATH"@, source_path@),
        ("TILEFEED_PUBLISH_REASON"@, reason@),
    ]);
    ProgramRun { program: program.to_owned(), args: line, vars }
}

/// Judge how a program ended.
pub fn after_run(what: &str, success: bool, stderr: &str) -> (res: Result<(), PublishError>)
    ensures
        success ==> res is Ok,
        !success ==> res is Err && res->Err_0.spec_message() == what@ + " failed: "@ + stderr@,
{
    if success {
        Ok(())
    } else {
        Err(PublishError::ProgramFailed { what: what.to_owned(), stderr: stderr.to_owned() })
    }
}

/// Temporary credentials for Mapbox's staging bucket.
#[derive(Debug)]
pub struct MapboxCredentials {
    pub access_key_id: String,
    pub bucket: String,
    pub key: String,
    pub secret_access_key: String,
    pub session_token: String,
    pub url: String,
}

/// The account of a tileset: what stands before the first dot.
pub open spec fn account(tileset_id: Seq<char>) -> Seq<char>
    decreases tileset_id.len(),
{
    if tileset_id.len() == 0 || tileset_id[0] == '.' {
        Seq::empty()
    } else {
        seq![tileset_id[0]] + account(tileset_id.skip(1))
    }
}

proof fn lemma_account(id: Seq<char>, i: int)
    requires
        0 <= i <= id.len(),
        forall|k: int| 0 <= k < i ==> (#[trigger] id[k]) != '.',
        i < id.len() ==> id[i] == '.',
    ensures
        account(id) == id.take(i),
    decreases i,
{
    if i > 0 {
        let rest = id.skip(1);
        assert(id[0] != '.');
        assert forall|k: int| 0 <= k < i - 1 implies (#[trigger] rest[k]) != '.' by {
            assert(rest[k] == id[k + 1]);
        }
        lemma_account(rest, i - 1);
        assert(seq![id[0]] + rest.take(i - 1) =~= id.take(i));
    } else {
        assert(id.take(0) =~= Seq::<char>::empty());
    }
}

/// The account of a tileset.
pub fn mapbox_account(tileset_id: &str) -> (name: String)
    ensures
        name@ == account(tileset_id@),
{
    let chars: Vec<char> = chars_of(tileset_id);
    let mut i: usize = 0;
    while i < chars.len() && chars[i] != '.'
        invariant
            i <= chars@.len(),
            forall|k: int| 0 <= k < i ==> (#[trigger] chars@[k]) != '.',
        decreases chars@.len() - i,
    {
        i = i + 1;
    }
    proof {
        lemma_account(chars@, i as int);
        assert(chars@.subrange(0, i as int) =~= chars@.take(i as int));
    }
    text_of(chars.as_slice(), 0, i)
}

/// What to do next to publish to Mapbox.
#[derive(Debug)]
pub enum MapboxAction {
    /// Ask for staging credentials.
    RequestCredentials { url: String },
    /// Copy the store to the staging bucket.
    Stage { run: ProgramRun },
    /// Create the upload from what was staged.
    CreateUpload { url: String, fields: Vec<(String, String)> },
    Done,
}

/// What such an action is.
pub enum MapboxActionModel {
    RequestCredentials { url: Seq<char> },
    Stage { run: RunModel },
    CreateUpload { url: Seq<char>, fields: Seq<(Seq<char>, Seq<char>)> },
    Done,
}

impl MapboxAction {
    pub open spec fn model(self) -> MapboxActionModel {
        match self {
            MapboxAction::RequestCredentials { url } => MapboxActionModel::RequestCredentials {
                url: url@,
            },
            MapboxAction::Stage { run } => MapboxActionModel::Stage { run: run.model() },
            MapboxAction::CreateUpload { url, fields } => MapboxActionModel::CreateUpload {
                url: url@,
                fields: pair_texts(fields@),
            },
            MapboxAction::Done => MapboxActionModel::Done,
        }
    }
}

/// What came of an action.
#[derive(Debug)]
pub enum MapboxEvent {
    Credentials(MapboxCredentials),
    Staged { success: bool, stderr: String },
    Created,
}

/// How far publishing to Mapbox has come.
#[derive(Debug)]
pub enum MapboxStage {
    AwaitingCredentials,
    Staging { url: String },
    Creating,
    Finished,
}

/// A store on its way to Mapbox.
#[derive(Debug)]
pub struct MapboxUpload {
    pub source_path: String,
    pub tileset_id: String,
    pub token: String,
    pub stage: MapboxStage,
}

/// The address for credentials.
pub open spec fn credentials_url(tileset_id: Seq<char>, token: Seq<char>) -> Seq<char> {
    "https://api.mapbox.com/uploads/v1/"@ + account(tileset_id) + "/credentials?access_token="@
        + token
}

/// The address for uploads.
pub open spec fn upload_url(tileset_id: Seq<char>, token: Seq<char>) -> Seq<char> {
    "https://api.mapbox.com/uploads/v1/"@ + account(tileset_id) + "?access_token="@ + token
}

/// The copy of a store to the staging bucket.
pub open spec fn staging_run(source_path: Seq<char>, creds: MapboxCredentials) -> RunModel {
    RunModel {
        program: "aws"@,
        args: seq!["s3"@, "cp"@, source_path, "s3://"@ + creds.bucket@ + "/"@ + creds.key@],
        vars: seq![
            ("AWS_ACCESS_KEY_ID"@, creds.access_key_id@),
            ("AWS_SECRET_ACCESS_KEY"@, creds.secret_access_key@),
            ("AWS_SESSION_TOKEN"@, creds.session_token@),
        ],
    }
}

/// The body of an upload.
pub open spec fn upload_fields(url: Seq<char>, tileset_id: Seq<char>) -> Seq<
    (Seq<char>, Seq<char>),
> {
    seq![("url"@, url), ("tileset"@, tileset_id), ("name"@, tileset_id)]
}

fn stage_run(source_path: &str, creds: &MapboxCredentials) -> (run: ProgramRun)
    ensures
        run.model() == staging_run(source_path@, *creds),
{
    let mut target: String = joined("s3://", creds.bucket.as_str());
    target.append("/");
    target.append(creds.key.as_str());
    let ghost staging = target@;
    let mut args: Vec<String> = Vec::new();
    args.push("s3".to_owned());
    args.push("cp".to_owned());
    args.push(source_path.to_owned());
    args.push(target);
    assert(texts(args@) =~= seq!["s3"@, "cp"@, source_path@, staging]);
    let mut vars: Vec<(String, String)> = Vec::new();
    vars.push(("AWS_ACCESS_KEY_ID".to_owned(), creds.access_key_id.clone()));
    vars.push(("AWS_SECRET_ACCESS_KEY".to_owned(), creds.secret_access_key.clone()));
    vars.push(("AWS_SESSION_TOKEN".to_owned(), creds.session_token.clone()));
    assert(pair_texts(vars@) =~= staging_run(source_path@, *creds).vars);
    ProgramRun { program: "aws".to_owned(), args, vars }
}

impl MapboxUpload {
    /// Begin: the first action asks for credentials.
    pub fn begin(source_path: &str, tileset_id: &str, token: &str) -> (started: (
        MapboxUpload,
        MapboxAction,
    ))
        ensures
            started.0.source_path@ == source_path@,
            started.0.tileset_id@ == tileset_id@,
            started.0.token@ == token@,
            started.0.stage is AwaitingCredentials,
            started.1.model() == (MapboxActionModel::RequestCredentials {
                url: credentials_url(tileset_id@, token@),
            }),
    {
        let mut url: String = joined(
            "https://api.mapbox.com/uploads/v1/",
            mapbox_account(tileset_id).as_str(),
        );
        url.append("/credentials?access_token=");
        url.append(token);
        (
            MapboxUpload {
                source_path: source_path.to_owned(),
                tileset_id: tileset_id.to_owned(),
                token: token.to_owned(),
                stage: MapboxStage::AwaitingCredentials,
            },
            MapboxAction::RequestCredentials { url },
        )
    }

    /// Go on with what came of the last action: stage the store with the
    /// credentials, create the upload once it is staged, and be done once that
    /// is created. A failed staging ends it.
    pub fn advance(&mut self, event: MapboxEvent) -> (res: Result<MapboxAction, PublishError>)
        ensures
            final(self).source_path@ == old(self).source_path@,
            final(self).tileset_id@ == old(self).tileset_id@,
            final(self).token@ == old(self).token@,
            match (old(self).stage, event) {
                (MapboxStage::AwaitingCredentials, MapboxEvent::Credentials(creds)) => {
                    &&& res is Ok
                    &&& res->Ok_0.model() == (MapboxActionModel::Stage {
                        run: staging_run(old(self).source_path@, creds),
                    })
                    &&& final(self).stage is Staging
                    &&& final(self).stage->Staging_url@ == creds.url@
                },
                (MapboxStage::Staging { url }, MapboxEvent::Staged { success, stderr }) => {
                    if success {
                        &&& res is Ok
                        &&& res->Ok_0.model() == (MapboxActionModel::CreateUpload {
                            url: upload_url(old(self).tileset_id@, old(self).token@),
                            fields: upload_fields(url@, old(self).tileset_id@),
                        })
                        &&& final(self).stage is Creating
                    } else {
                        &&& res is Err
                        &&& res->Err_0.spec_message() == "Mapbox staging upload"@ + " failed: "@
                            + stderr@
                        &&& final(self).stage is Finished
                    }
                },
                (MapboxStage::Creating, MapboxEvent::Created) => res is Ok && res->Ok_0.model() == (
                MapboxActionModel::Done) && final(self).stage is Finished,
                _ => res is Err && res->Err_0 is Unexpected && final(self).stage is Finished,
            },
    {
        let mut stage: MapboxStage = MapboxStage::Finished;
        core::mem::swap(&mut stage, &mut self.stage);
        match (stage, event) {
            (MapboxStage::AwaitingCredentials, MapboxEvent::Credentials(creds)) => {
                let run: ProgramRun = stage_run(self.source_path.as_str(), &creds);
                self.stage = MapboxStage::Staging { url: creds.url };
                Ok(MapboxAction::Stage { run })
            },
            (MapboxStage::Staging { url }, MapboxEvent::Staged { success, stderr }) => {
                if !success {
                    return Err(
                        PublishError::ProgramFailed {
                            what: "Mapbox staging upload".to_owned(),
                            stderr,
                        },
                    );
                }
                let mut address: String = joined(
                    "https://api.mapbox.com/uploads/v1/",
                    mapbox_account(self.tileset_id.as_str()).as_str(),
                );
                address.append("?access_token=");
                address.append(self.token.as_str());
                let ghost staged = url@;
                let mut fields: Vec<(String, String)> = Vec::new();
                fields.push(("url".to_owned(), url));
                fields.push(("tileset".to_owned(), self.tileset_id.clone()));
                fields.push(("name".to_owned(), self.tileset_id.clone()));
                assert(pair_texts(fields@) =~= upload_fields(staged, self.tileset_id@));
                self.stage = MapboxStage::Creating;
                Ok(MapboxAction::CreateUpload { url: address, fields })
            },
            (MapboxStage::Creating, MapboxEvent::Created) => Ok(MapboxAction::Done),
            _ => Err(PublishError::Unexpected),
        }
    }
}

/// A copy to S3 is handed the store, then the destination, then all extra
/// arguments in their order, and nothing else behind the two words of the command.
pub proof fn lemma_copy_names_store_and_destination(
    source_path: Seq<char>,
    destination: Seq<char>,
    args: Seq<Seq<char>>,
)
    ensures
        ({
            let run = s3_copy_model(source_path, destination, args);
            &&& run.program == "aws"@
            &&& run.args.len() == args.len() + 4
            &&& run.args[0] == "s3"@ && run.args[1] == "cp"@
            &&& run.args[2] == source_path && run.args[3] == destination
            &&& forall|i: int| 0 <= i < args.len() ==> run.args[i + 4] == #[trigger] args[i]
            &&& run.vars.len() == 0
        }),
{
}

/// A shell is handed the command behind its switch, and all extra arguments, in
/// their order and at the end. Without any, or on Windows, the command stands as it
/// is written; else it begins so, and goes on with the shell's parameters.
pub proof fn lemma_shell_is_handed_everything(
    windows: bool,
    command: Seq<char>,
    extra: Seq<Seq<char>>,
)
    ensures
        ({
            let args = shell_args(windows, command, extra);
            let lead = args.len() - extra.len();
            &&& lead == if windows || extra.len() == 0 {
                2int
            } else {
                3
            }
            &&& args[0] == if windows {
                "/C"@
            } else {
                "-c"@
            }
            &&& forall|i: int| 0 <= i < extra.len() ==> args[lead + i] == #[trigger] extra[i]
            &&& windows || extra.len() == 0 ==> args[1] == command
            &&& !windows && extra.len() > 0 ==> args[2] == "sh"@ && args[1].len() == command.len()
                + 5 && args[1].take(command.len() as int) == command && args[1].skip(
                command.len() as int,
            ) == " \"$@\""@
        }),
        shell(windows).0 == if windows {
            "cmd"@
        } else {
            "sh"@
        },
{
    reveal_strlit(" \"$@\"");
    let added = command + " \"$@\""@;
    assert(added.take(command.len() as int) =~= command);
    assert(added.skip(command.len() as int) =~= " \"$@\""@);
}

/// All configured extra arguments are taken, in their order.
pub proof fn lemma_all_arguments_are_taken(config: PublishConfig)
    ensures
        config.args is None ==> extra_args(config).len() == 0,
        config.args is Some ==> extra_args(config).len() == config.args->0@.len(),
        config.args is Some ==> forall|i: int|
            0 <= i < config.args->0@.len() ==> extra_args(config)[i] == (
            #[trigger] config.args->0@[i])@,
{
}

/// An account is all of a tileset's name up to its first dot, and the whole name
/// where it has none.
pub proof fn lemma_account_ends_at_the_first_dot(tileset_id: Seq<char>)
    ensures
        account(tileset_id).is_prefix_of(tileset_id),
        !account(tileset_id).contains('.'),
        account(tileset_id).len() < tileset_id.len() ==> tileset_id[account(
            tileset_id,
        ).len() as int] == '.',
    decreases tileset_id.len(),
{
    let name = account(tileset_id);
    if tileset_id.len() > 0 && tileset_id[0] != '.' {
        let rest = tileset_id.skip(1);
        let behind = account(rest);
        lemma_account_ends_at_the_first_dot(rest);
        assert(name.len() == behind.len() + 1);
        assert forall|i: int| 0 <= i < name.len() implies name[i] == tileset_id[i] && name[i]
            != '.' by {
            if i > 0 {
                assert(name[i] == behind[i - 1]);
                assert(behind =~= rest.subrange(0, behind.len() as int));
                assert(rest[i - 1] == tileset_id[i]);
                assert(behind.contains(behind[i - 1]));
            }
        }
        assert(name =~= tileset_id.subrange(0, name.len() as int));
        if behind.len() < rest.len() {
            assert(rest[behind.len() as int] == tileset_id[name.len() as int]);
        }
    } else {
        assert(name =~= tileset_id.subrange(0, 0));
    }
}

/// The addresses for credentials and for uploads lie under the account, and end
/// in the token.
pub proof fn lemma_addresses_lie_under_the_account(tileset_id: Seq<char>, token: Seq<char>)
    ensures
        ({
            let root = "https://api.mapbox.com/uploads/v1/"@ + account(tileset_id);
            &&& root.is_prefix_of(credentials_url(tileset_id, token))
            &&& root.is_prefix_of(upload_url(tileset_id, token))
            &&& token.is_suffix_of(credentials_url(tileset_id, token))
            &&& token.is_suffix_of(upload_url(tileset_id, token))
            &&& has_part(credentials_url(tileset_id, token), "/credentials?access_token="@)
            &&& has_part(upload_url(tileset_id, token), "?access_token="@)
            &&& credentials_url(tileset_id, token).len() == upload_url(tileset_id, token).len() + 12
        }),
{
    reveal_strlit("/credentials?access_token=");
    reveal_strlit("?access_token=");
    let root = "https://api.mapbox.com/uploads/v1/"@ + account(tileset_id);
    let c = credentials_url(tileset_id, token);
    let u = upload_url(tileset_id, token);
    lemma_has_part(root, "/credentials?access_token="@, token);
    lemma_has_part(root, "?access_token="@, token);
    assert(root =~= c.subrange(0, root.len() as int));
    assert(root =~= u.subrange(0, root.len() as int));
    assert(token =~= c.subrange(c.len() - token.len(), c.len() as int));
    assert(token =~= u.subrange(u.len() - token.len(), u.len() as int));
}

/// A store is staged in the bucket under the key that the credentials give, and
/// under no other rights than theirs.
pub proof fn lemma_store_is_staged_as_told(source_path: Seq<char>, creds: MapboxCredentials)
    ensures
        ({
            let run = staging_run(source_path, creds);
            &&& run.program == "aws"@
            &&& run.args.len() == 4
            &&& run.args[0] == "s3"@ && run.args[1] == "cp"@
            &&& run.args[2] == source_path
            &&& ("s3://"@ + creds.bucket@).is_prefix_of(run.args[3])
            &&& creds.key@.is_suffix_of(run.args[3])
            &&& run.args[3].len() == creds.bucket@.len() + creds.key@.len() + 6
            &&& run.args[3][creds.bucket@.len() as int + 5] == '/'
            &&& run.vars.len() == 3
            &&& run.vars.contains(("AWS_ACCESS_KEY_ID"@, creds.access_key_id@))
            &&& run.vars.contains(("AWS_SECRET_ACCESS_KEY"@, creds.secret_access_key@))
            &&& run.vars.contains(("AWS_SESSION_TOKEN"@, creds.session_token@))
        }),
{
    reveal_strlit("s3://");
    reveal_strlit("/");
    let run = staging_run(source_path, creds);
    let target = run.args[3];
    let root = "s3://"@ + creds.bucket@;
    assert(root =~= target.subrange(0, root.len() as int));
    assert(creds.key@ =~= target.subrange(
        target.len() - creds.key@.len(),
        target.len() as int,
    ));
    assert(run.vars[0] == ("AWS_ACCESS_KEY_ID"@, creds.access_key_id@));
    assert(run.vars[1] == ("AWS_SECRET_ACCESS_KEY"@, creds.secret_access_key@));
    assert(run.vars[2] == ("AWS_SESSION_TOKEN"@, creds.session_token@));
}

/// An upload is told where the store was staged, and which tileset it becomes.
pub proof fn lemma_upload_is_told_the_tileset(url: Seq<char>, tileset_id: Seq<char>)
    ensures
        upload_fields(url, tileset_id).len() == 3,
        upload_fields(url, tileset_id).contains(("url"@, url)),
        upload_fields(url, tileset_id).contains(("tileset"@, tileset_id)),
        upload_fields(url, tileset_id).contains(("name"@, tileset_id)),
{
    let fields = upload_fields(url, tileset_id);
    assert(fields[0] == ("url"@, url));
    assert(fields[1] == ("tileset"@, tileset_id));
    assert(fields[2] == ("name"@, tileset_id));
}

/// An error names the setting that is missing.
pub proof fn lemma_error_names_the_setting(what: String, stderr: String)
    ensures
        has_part(PublishError::LocalDestinationMissing.spec_message(), "publish.destination"@),
        has_part(PublishError::LocalDestinationMissing.spec_message(), "=local"@),
        has_part(PublishError::S3DestinationMissing.spec_message(), "publish.destination"@),
        has_part(PublishError::S3DestinationMissing.spec_message(), "=s3"@),
        has_part(PublishError::MapboxTilesetMissing.spec_message(), "publish.mapbox_tileset_id"@),
        has_part(PublishError::MapboxTokenMissing.spec_message(), "publish.mapbox_token"@),
        has_part(PublishError::CommandMissing.spec_message(), "publish.command"@),
        what@.is_prefix_of((PublishError::ProgramFailed { what, stderr }).spec_message()),
        stderr@.is_suffix_of((PublishError::ProgramFailed { what, stderr }).spec_message()),
{
    reveal_strlit("publish.destination is required when publish.backend=local");
    reveal_strlit("publish.destination is required when publish.backend=s3");
    reveal_strlit("publish.mapbox_tileset_id is required when publish.backend=mapbox");
    reveal_strlit("publish.mapbox_token is required when publish.backend=mapbox");
    reveal_strlit("publish.command is required when publish.backend=command");
    reveal_strlit("publish.destination");
    reveal_strlit("publish.mapbox_tileset_id");
    reveal_strlit("publish.mapbox_token");
    reveal_strlit("publish.command");
    reveal_strlit("=local");
    reveal_strlit("=s3");
    let local = PublishError::LocalDestinationMissing.spec_message();
    lemma_part_at(local, "publish.destination"@, 0);
    lemma_part_at(local, "=local"@, 52);
    let s3 = PublishError::S3DestinationMissing.spec_message();
    lemma_part_at(s3, "publish.destination"@, 0);
    lemma_part_at(s3, "=s3"@, 52);
    lemma_part_at(
        PublishError::MapboxTilesetMissing.spec_message(),
        "publish.mapbox_tileset_id"@,
        0,
    );
    lemma_part_at(PublishError::MapboxTokenMissing.spec_message(), "publish.mapbox_token"@, 0);
    lemma_part_at(PublishError::CommandMissing.spec_message(), "publish.command"@, 0);
    let failed = (PublishError::ProgramFailed { what, stderr }).spec_message();
    assert(what@ =~= failed.subrange(0, what@.len() as int));
    assert(stderr@ =~= failed.subrange(failed.len() - stderr@.len(), failed.len() as int));
}

proof fn lemma_part_at(text: Seq<char>, part: Seq<char>, i: int)
    requires
        0 <= i,
        i + part.len() <= text.len(),
        forall|k: int| 0 <= k < part.len() ==> text[i + k] == #[trigger] part[k],
    ensures
        has_part(text, part),
{
    let head = text.take(i);
    let tail = text.skip(i + part.len());
    assert(text =~= head + part + tail);
    lemma_has_part(head, part, tail);
}

/// A publisher, a program run and an action are all that stands in them.
pub proof fn lemma_runs_are_all_of_themselves(
    publisher: StoragePublisher,
    run: ProgramRun,
    action: MapboxAction,
)
    ensures
        match (publisher, publisher.model()) {
            (
                StoragePublisher::Local { destination },
                PublisherModel::Local { destination: to },
            ) => to == destination@,
            (
                StoragePublisher::S3 { destination, args },
                PublisherModel::S3 { destination: to, args: given },
            ) => to == destination@ && given.len() == args@.len() && forall|i: int|
                0 <= i < given.len() ==> #[trigger] given[i] == args@[i]@,
            (
                StoragePublisher::Mapbox { tileset_id, token },
                PublisherModel::Mapbox { tileset_id: id, token: secret },
            ) => id == tileset_id@ && secret == token@,
            (
                StoragePublisher::Command { command, args },
                PublisherModel::Command { command: line, args: given },
            ) => line == command@ && given.len() == args@.len() && forall|i: int|
                0 <= i < given.len() ==> #[trigger] given[i] == args@[i]@,
            _ => false,
        },
        run.model().program == run.program@,
        run.model().args.len() == run.args@.len(),
        forall|i: int| 0 <= i < run.args@.len() ==> #[trigger] run.model().args[i] == run.args@[i]@,
        run.model().vars.len() == run.vars@.len(),
        forall|i: int|
            0 <= i < run.vars@.len() ==> #[trigger] run.model().vars[i] == (
                run.vars@[i].0@,
                run.vars@[i].1@,
            ),
        match (action, action.model()) {
            (
                MapboxAction::RequestCredentials { url },
                MapboxActionModel::RequestCredentials { url: asked },
            ) => asked == url@,
            (MapboxAction::Stage { run: made }, MapboxActionModel::Stage { run: staged }) => staged
                == made.model(),
            (
                MapboxAction::CreateUpload { url, fields },
                MapboxActionModel::CreateUpload { url: asked, fields: sent },
            ) => asked == url@ && sent.len() == fields@.len() && forall|i: int|
                0 <= i < sent.len() ==> #[trigger] sent[i] == (fields@[i].0@, fields@[i].1@),
            (MapboxAction::Done, MapboxActionModel::Done) => true,
            _ => false,
        },
{
}

} // verus!
