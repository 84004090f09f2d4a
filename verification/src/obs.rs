//! The control of OBS: what is known of it, and how a command is carried out.

use crate::text;
use crate::text::{chars_of, join, parse_unsigned, same_text};
use vstd::prelude::*;

verus! {

/// How OBS is reached, and which parameter holds its recording bitrate.
#[derive(Debug)]
pub struct ObsConfig {
    pub host: String,
    pub port: u16,
    pub password: Option<String>,
    pub recording_bitrate_category: String,
    pub recording_bitrate_name: String,
}

/// What is known of OBS.
#[derive(Debug)]
pub struct ObsStatus {
    pub enabled: bool,
    pub connected: bool,
    pub host: String,
    pub port: u16,
    pub last_error: Option<String>,
    pub current_scene: Option<String>,
    pub scenes: Vec<String>,
    pub streaming: Option<bool>,
    pub recording: Option<bool>,
    pub recording_bitrate_kbps: Option<u32>,
    pub recording_bitrate_category: String,
    pub recording_bitrate_name: String,
}

impl Default for ObsStatus {
    /// OBS is not controlled.
    fn default() -> (status: ObsStatus)
        ensures
            !status.enabled,
            !status.connected,
            status.host@ == Seq::<char>::empty(),
            status.port == 0,
            status.last_error is None,
            status.current_scene is None,
            status.scenes@.len() == 0,
            status.streaming is None,
            status.recording is None,
            status.recording_bitrate_kbps is None,
            status.recording_bitrate_category@ == Seq::<char>::empty(),
            status.recording_bitrate_name@ == Seq::<char>::empty(),
    {
        ObsStatus {
            enabled: false,
            connected: false,
            host: String::new(),
            port: 0,
            last_error: None,
            current_scene: None,
            scenes: Vec::new(),
            streaming: None,
            recording: None,
            recording_bitrate_kbps: None,
            recording_bitrate_category: String::new(),
            recording_bitrate_name: String::new(),
        }
    }
}

/// What OBS can be told.
#[derive(Debug, Clone, Copy, PartialEq, Eq, Structural)]
pub enum ObsCommand {
    Connect,
    Disconnect,
    Refresh,
    StartRecord,
    StopRecord,
    SetRecordingBitrate { kbps: u32 },
}

impl ObsCommand {
    /// Whether a command that failed is tried once more, over a new connection.
    pub open spec fn is_retried(self) -> bool {
        self != ObsCommand::Disconnect
    }

    pub fn should_retry_after_reconnect(&self) -> (retry: bool)
        ensures
            retry == self.is_retried(),
    {
        match self {
            ObsCommand::Disconnect => false,
            _ => true,
        }
    }
}

/// A parameter of OBS, by its category and its name.
#[derive(Debug)]
pub struct ObsParameter {
    pub category: String,
    pub name: String,
}

/// The parameters that a list holds.
pub open spec fn parameter_models(list: Seq<ObsParameter>) -> Seq<(Seq<char>, Seq<char>)> {
    list.map_values(|parameter: ObsParameter| (parameter.category@, parameter.name@))
}

/// The list with a parameter, which it holds once.
pub open spec fn with_parameter(
    list: Seq<(Seq<char>, Seq<char>)>,
    parameter: (Seq<char>, Seq<char>),
) -> Seq<(Seq<char>, Seq<char>)> {
    if list.contains(parameter) {
        list
    } else {
        list.push(parameter)
    }
}

/// The parameters that may hold the recording bitrate: the one that was named, and those that
/// usually do.
pub open spec fn bitrate_parameters(category: Seq<char>, name: Seq<char>) -> Seq<
    (Seq<char>, Seq<char>),
> {
    with_parameter(
        with_parameter(seq![(category, name)], ("AdvOut"@, "FFVBitrate"@)),
        ("SimpleOutput"@, "VBitrate"@),
    )
}

/// Adds a parameter to a list, if it is not there.
fn add_parameter(list: &mut Vec<ObsParameter>, category: &str, name: &str)
    ensures
        parameter_models(final(list)@) == with_parameter(
            parameter_models(old(list)@),
            (category@, name@),
        ),
{
    let ghost before = parameter_models(list@);
    for i in 0..list.len()
        invariant
            before == parameter_models(list@),
            *list == *old(list),
            forall|j: int| 0 <= j < i ==> #[trigger] before[j] != (category@, name@),
    {
        if same_text(list[i].category.as_str(), category) && same_text(list[i].name.as_str(), name) {
            assert(before[i as int] == (category@, name@));
            return;
        }
    }
    assert(!before.contains((category@, name@)));
    list.push(ObsParameter { category: category.to_owned(), name: name.to_owned() });
    assert(parameter_models(list@) =~= before.push((category@, name@)));
}

/// The recording bitrate that a parameter holds, if it holds one.
pub fn parse_bitrate(value: &str) -> (kbps: Option<u32>)
    ensures
        match text::unsigned_value(value@, u32::MAX as nat) {
            Some(number) => kbps matches Some(found) && found == number,
            None => kbps is None,
        },
{
    let chars = chars_of(value);
    match parse_unsigned(chars.as_slice(), 0xffff_ffff) {
        Some(number) => Some(number as u32),
        None => None,
    }
}

/// The recording bitrate that is read from a parameter: none if the parameter could not be read, or
/// holds something else.
pub open spec fn bitrate_in(value: Option<String>) -> Option<nat> {
    match value {
        Some(text) => text::unsigned_value(text@, u32::MAX as nat),
        None => None,
    }
}

/// The first recording bitrate among what was read from parameters.
pub fn first_bitrate(values: &[Option<String>]) -> (kbps: Option<u32>)
    ensures
        match kbps {
            Some(found) => exists|i: int|
                0 <= i < values@.len() && bitrate_in(#[trigger] values@[i]) == Some(found as nat)
                    && forall|j: int| 0 <= j < i ==> bitrate_in(#[trigger] values@[j]) is None,
            None => forall|i: int|
                0 <= i < values@.len() ==> bitrate_in(#[trigger] values@[i]) is None,
        },
{
    for i in 0..values.len()
        invariant
            forall|j: int| 0 <= j < i ==> bitrate_in(#[trigger] values@[j]) is None,
    {
        if let Some(value) = &values[i] {
            let found = parse_bitrate(value.as_str());
            if found.is_some() {
                assert(bitrate_in(values@[i as int]) is Some);
                return found;
            }
        }
    }
    None
}

/// What came of setting a parameter: the error, if there was one.
#[derive(Debug)]
pub struct ParameterResult {
    pub parameter: ObsParameter,
    pub error: Option<String>,
}

/// Whether a parameter was set.
pub open spec fn some_applied(results: Seq<ParameterResult>) -> bool {
    exists|i: int| 0 <= i < results.len() && (#[trigger] results[i]).error is None
}

/// The errors, each with its parameter.
pub open spec fn failures_of(results: Seq<ParameterResult>) -> Seq<Seq<char>> {
    results.map_values(
        |result: ParameterResult|
            result.parameter.category@ + "/"@ + result.parameter.name@ + ": "@
                + result.error->0@,
    )
}

/// Whether the recording bitrate was set: one parameter is enough.
pub fn bitrate_outcome(results: &[ParameterResult]) -> (outcome: Result<(), String>)
    ensures
        outcome is Ok <==> some_applied(results@),
        outcome matches Err(error) ==> error@ == "failed to set OBS recording bitrate; tried "@
            + text::joined(failures_of(results@), ", "@),
{
    let mut failures: Vec<String> = Vec::new();
    for i in 0..results.len()
        invariant
            failures@.len() == i,
            forall|j: int| 0 <= j < i ==> (#[trigger] results@[j]).error is Some,
            forall|j: int|
                0 <= j < i ==> (#[trigger] failures@[j])@ == failures_of(results@)[j],
    {
        match &results[i].error {
            Some(error) => {
                let mut failure = results[i].parameter.category.clone();
                failure.append("/");
                failure.append(results[i].parameter.name.as_str());
                failure.append(": ");
                failure.append(error.as_str());
                failures.push(failure);
            },
            None => {
                return Ok(());
            },
        }
    }
    let mut error = "failed to set OBS recording bitrate; tried ".to_owned();
    error.append(join(failures.as_slice(), ", ").as_str());
    assert(text::texts(failures@) =~= failures_of(results@));
    Err(error)
}

/// The control of OBS.
#[derive(Debug)]
pub struct ObsRemote {
    pub config: ObsConfig,
    pub has_client: bool,
    pub status: ObsStatus,
}

impl ObsRemote {
    pub fn new(config: ObsConfig) -> (remote: ObsRemote)
        ensures
            remote.config == config,
            !remote.has_client,
            remote.status.enabled,
            !remote.status.connected,
            remote.status.host@ == config.host@,
            remote.status.port == config.port,
            remote.status.last_error is None,
            remote.status.current_scene is None,
            remote.status.scenes@.len() == 0,
            remote.status.streaming is None,
            remote.status.recording is None,
            remote.status.recording_bitrate_kbps is None,
            remote.status.recording_bitrate_category@ == config.recording_bitrate_category@,
            remote.status.recording_bitrate_name@ == config.recording_bitrate_name@,
    {
        let status = ObsStatus {
            enabled: true,
            connected: false,
            host: config.host.clone(),
            port: config.port,
            last_error: None,
            current_scene: None,
            scenes: Vec::new(),
            streaming: None,
            recording: None,
            recording_bitrate_kbps: None,
            recording_bitrate_category: config.recording_bitrate_category.clone(),
            recording_bitrate_name: config.recording_bitrate_name.clone(),
        };
        ObsRemote { config, has_client: false, status }
    }

    /// What is known of OBS.
    pub fn cached_status(&self) -> (status: &ObsStatus)
        ensures
            *status == self.status,
    {
        &self.status
    }

    /// A connection is up.
    pub fn connected(&mut self)
        ensures
            *final(self) == (ObsRemote {
                has_client: true,
                status: ObsStatus { connected: true, last_error: None, ..old(self).status },
                ..*old(self)
            }),
    {
        self.has_client = true;
        self.status.connected = true;
        self.status.last_error = None;
    }

    /// The connection was closed.
    pub fn disconnected(&mut self)
        ensures
            *final(self) == (ObsRemote {
                has_client: false,
                status: ObsStatus { connected: false, recording: None, ..old(self).status },
                ..*old(self)
            }),
    {
        self.has_client = false;
        self.status.connected = false;
        self.status.recording = None;
    }

    /// OBS has told what it is doing.
    pub fn refreshed(&mut self, recording: bool, bitrate_kbps: Option<u32>)
        ensures
            *final(self) == (ObsRemote {
                status: ObsStatus {
                    connected: true,
                    last_error: None,
                    recording: Some(recording),
                    recording_bitrate_kbps: bitrate_kbps,
                    ..old(self).status
                },
                ..*old(self)
            }),
    {
        self.status.connected = true;
        self.status.last_error = None;
        self.status.recording = Some(recording);
        self.status.recording_bitrate_kbps = bitrate_kbps;
    }

    /// Something went wrong.
    pub fn set_error(&mut self, error: String)
        ensures
            *final(self) == (ObsRemote {
                status: ObsStatus {
                    connected: old(self).has_client,
                    last_error: Some(error),
                    ..old(self).status
                },
                ..*old(self)
            }),
    {
        self.status.connected = self.has_client;
        self.status.last_error = Some(error);
    }

    /// The connection is given up.
    pub fn drop_client(&mut self)
        ensures
            *final(self) == (ObsRemote {
                has_client: false,
                status: ObsStatus { connected: false, ..old(self).status },
                ..*old(self)
            }),
    {
        self.has_client = false;
        self.status.connected = false;
    }

    /// The parameters that may hold the recording bitrate, in the order in which they are tried.
    pub fn recording_bitrate_params(&self) -> (list: Vec<ObsParameter>)
        ensures
            parameter_models(list@) == bitrate_parameters(
                self.config.recording_bitrate_category@,
                self.config.recording_bitrate_name@,
            ),
    {
        let mut list: Vec<ObsParameter> = Vec::new();
        list.push(
            ObsParameter {
                category: self.config.recording_bitrate_category.clone(),
                name: self.config.recording_bitrate_name.clone(),
            },
        );
        assert(parameter_models(list@) =~= seq![
            (
                self.config.recording_bitrate_category@,
                self.config.recording_bitrate_name@,
            ),
        ]);
        add_parameter(&mut list, "AdvOut", "FFVBitrate");
        add_parameter(&mut list, "SimpleOutput", "VBitrate");
        list
    }
}

/// What is done for a command, one thing after the other.
#[derive(Debug, Clone, Copy, PartialEq, Eq, Structural)]
pub enum ObsStage {
    /// A connection is opened; what is behind it comes next.
    Connecting,
    /// The connection is closed.
    Disconnecting,
    /// OBS is asked whether it is recording, to decide about the command.
    Checking,
    /// The command itself is given.
    Acting,
    /// OBS is asked whether it is recording, to know it.
    Reading,
    /// OBS is asked for its bitrate, while it is recording or not.
    ReadingBitrate { recording: bool },
    /// Everything is done.
    Finished,
}

/// A command that is being carried out.
#[derive(Debug, Clone, Copy, PartialEq, Eq, Structural)]
pub struct ObsTask {
    pub command: ObsCommand,
    pub stage: ObsStage,
    /// The command has been tried before, or is not tried again.
    pub retried: bool,
    /// OBS is only asked how it is; an error gives up the connection.
    pub polling: bool,
}

/// What OBS is to be told or asked.
#[derive(Debug, Clone, Copy, PartialEq, Eq, Structural)]
pub enum ObsAction {
    Connect,
    Disconnect,
    ReadRecording,
    StartRecording,
    StopRecording,
    SetBitrate { kbps: u32 },
    ReadBitrate,
    /// Nothing more: the command was carried out.
    Succeed,
    /// Nothing more: the command failed.
    Fail,
}

/// What came of it.
#[derive(Debug)]
pub enum ObsEvent {
    Done,
    Recording { active: bool },
    Bitrate { kbps: Option<u32> },
    Failed { error: String },
}

/// What is done first for a command, if there is no connection or there is one.
pub open spec fn first_stage(command: ObsCommand, has_client: bool) -> ObsStage {
    match command {
        ObsCommand::Connect => ObsStage::Connecting,
        ObsCommand::Disconnect => ObsStage::Disconnecting,
        _ => if has_client {
            stage_behind_connection(command)
        } else {
            ObsStage::Connecting
        },
    }
}

/// What is done once there is a connection.
pub open spec fn stage_behind_connection(command: ObsCommand) -> ObsStage {
    match command {
        ObsCommand::StartRecord => ObsStage::Checking,
        ObsCommand::StopRecord => ObsStage::Checking,
        ObsCommand::SetRecordingBitrate { .. } => ObsStage::Acting,
        _ => ObsStage::Reading,
    }
}

/// What OBS is told or asked at a stage.
pub open spec fn action_at(command: ObsCommand, stage: ObsStage) -> ObsAction {
    match stage {
        ObsStage::Connecting => ObsAction::Connect,
        ObsStage::Disconnecting => ObsAction::Disconnect,
        ObsStage::Checking => ObsAction::ReadRecording,
        ObsStage::Acting => match command {
            ObsCommand::StartRecord => ObsAction::StartRecording,
            ObsCommand::StopRecord => ObsAction::StopRecording,
            ObsCommand::SetRecordingBitrate { kbps } => ObsAction::SetBitrate { kbps },
            _ => ObsAction::Fail,
        },
        ObsStage::Reading => ObsAction::ReadRecording,
        ObsStage::ReadingBitrate { .. } => ObsAction::ReadBitrate,
        ObsStage::Finished => ObsAction::Succeed,
    }
}

/// Whether a command cannot be carried out at all.
pub open spec fn is_invalid(command: ObsCommand) -> bool {
    command matches ObsCommand::SetRecordingBitrate { kbps } && kbps == 0
}

/// The stage after one that went well.
pub open spec fn next_stage(task: ObsTask, event: ObsEvent) -> ObsStage {
    match task.stage {
        ObsStage::Connecting => stage_behind_connection(task.command),
        ObsStage::Checking => match event {
            ObsEvent::Recording { active } => if active == (task.command
                == ObsCommand::StopRecord) {
                ObsStage::Acting
            } else {
                ObsStage::Reading
            },
            _ => ObsStage::Reading,
        },
        ObsStage::Acting => ObsStage::Reading,
        ObsStage::Reading => ObsStage::ReadingBitrate {
            recording: event matches ObsEvent::Recording { active } && active,
        },
        _ => ObsStage::Finished,
    }
}

/// What is known of OBS after a stage that went well.
pub open spec fn remote_after(remote: ObsRemote, stage: ObsStage, event: ObsEvent) -> ObsRemote {
    match stage {
        ObsStage::Connecting => ObsRemote {
            has_client: true,
            status: ObsStatus { connected: true, last_error: None, ..remote.status },
            ..remote
        },
        ObsStage::Disconnecting => ObsRemote {
            has_client: false,
            status: ObsStatus { connected: false, recording: None, ..remote.status },
            ..remote
        },
        ObsStage::ReadingBitrate { recording } => ObsRemote {
            status: ObsStatus {
                connected: true,
                last_error: None,
                recording: Some(recording),
                recording_bitrate_kbps: match event {
                    ObsEvent::Bitrate { kbps } => kbps,
                    _ => None,
                },
                ..remote.status
            },
            ..remote
        },
        _ => remote,
    }
}

/// The connection is given up.
pub open spec fn without_client(remote: ObsRemote) -> ObsRemote {
    ObsRemote {
        has_client: false,
        status: ObsStatus { connected: false, ..remote.status },
        ..remote
    }
}

/// An error is shown.
pub open spec fn shows_error(before: ObsRemote, after: ObsRemote, error: Seq<char>) -> bool {
    &&& after.status.last_error matches Some(text) && text@ == error
    &&& after == (ObsRemote {
        status: ObsStatus {
            connected: before.has_client,
            last_error: after.status.last_error,
            ..before.status
        },
        ..before
    })
}

impl ObsTask {
    /// What is done first at a stage.
    fn first(command: ObsCommand, has_client: bool) -> (stage: ObsStage)
        ensures
            stage == first_stage(command, has_client),
    {
        match command {
            ObsCommand::Connect => ObsStage::Connecting,
            ObsCommand::Disconnect => ObsStage::Disconnecting,
            _ => if has_client {
                ObsTask::behind_connection(command)
            } else {
                ObsStage::Connecting
            },
        }
    }

    fn behind_connection(command: ObsCommand) -> (stage: ObsStage)
        ensures
            stage == stage_behind_connection(command),
    {
        match command {
            ObsCommand::StartRecord => ObsStage::Checking,
            ObsCommand::StopRecord => ObsStage::Checking,
            ObsCommand::SetRecordingBitrate { .. } => ObsStage::Acting,
            _ => ObsStage::Reading,
        }
    }

    /// What OBS is told or asked.
    pub fn action(&self) -> (action: ObsAction)
        ensures
            action == action_at(self.command, self.stage),
    {
        match self.stage {
            ObsStage::Connecting => ObsAction::Connect,
            ObsStage::Disconnecting => ObsAction::Disconnect,
            ObsStage::Checking => ObsAction::ReadRecording,
            ObsStage::Acting => match self.command {
                ObsCommand::StartRecord => ObsAction::StartRecording,
                ObsCommand::StopRecord => ObsAction::StopRecording,
                ObsCommand::SetRecordingBitrate { kbps } => ObsAction::SetBitrate { kbps },
                _ => ObsAction::Fail,
            },
            ObsStage::Reading => ObsAction::ReadRecording,
            ObsStage::ReadingBitrate { .. } => ObsAction::ReadBitrate,
            ObsStage::Finished => ObsAction::Succeed,
        }
    }

    /// Starts to ask OBS how it is.
    pub fn poll(remote: &ObsRemote) -> (task: ObsTask)
        ensures
            task == (ObsTask {
                command: ObsCommand::Refresh,
                stage: first_stage(ObsCommand::Refresh, remote.has_client),
                retried: true,
                polling: true,
            }),
    {
        ObsTask {
            command: ObsCommand::Refresh,
            stage: ObsTask::first(ObsCommand::Refresh, remote.has_client),
            retried: true,
            polling: true,
        }
    }

    /// Starts to carry out a command, unless it cannot be carried out at all: then the connection
    /// is given up and the error shown.
    pub fn apply(command: ObsCommand, remote: &mut ObsRemote) -> (task: Option<ObsTask>)
        ensures
            if is_invalid(command) {
                &&& task is None
                &&& shows_error(
                    without_client(*old(remote)),
                    *final(remote),
                    "recording bitrate must be greater than zero"@,
                )
            } else {
                &&& *final(remote) == *old(remote)
                &&& task == Some(
                    ObsTask {
                        command,
                        stage: first_stage(command, old(remote).has_client),
                        retried: !command.is_retried(),
                        polling: false,
                    },
                )
            },
    {
        if let ObsCommand::SetRecordingBitrate { kbps } = command {
            if kbps == 0 {
                remote.drop_client();
                remote.set_error("recording bitrate must be greater than zero".to_owned());
                return None;
            }
        }
        Some(
            ObsTask {
                command,
                stage: ObsTask::first(command, remote.has_client),
                retried: !command.should_retry_after_reconnect(),
                polling: false,
            },
        )
    }

    /// Takes note of what came of the last action; what OBS is told or asked next. A command that
    /// failed is tried once more from the start, over a new connection.
    pub fn on_event(&mut self, remote: &mut ObsRemote, event: ObsEvent) -> (action: ObsAction)
        requires
            old(self).stage != ObsStage::Finished,
        ensures
            final(self).command == old(self).command,
            final(self).polling == old(self).polling,
            match event {
                ObsEvent::Failed { error } => if old(self).retried {
                    &&& final(self).stage == ObsStage::Finished
                    &&& final(self).retried
                    &&& shows_error(
                        if old(self).polling {
                            without_client(*old(remote))
                        } else {
                            *old(remote)
                        },
                        *final(remote),
                        error@,
                    )
                    &&& action == ObsAction::Fail
                } else {
                    &&& final(self).retried
                    &&& final(self).stage == first_stage(old(self).command, false)
                    &&& *final(remote) == without_client(*old(remote))
                    &&& action == action_at(old(self).command, final(self).stage)
                },
                _ => {
                    &&& final(self).retried == old(self).retried
                    &&& final(self).stage == next_stage(*old(self), event)
                    &&& *final(remote) == remote_after(*old(remote), old(self).stage, event)
                    &&& action == action_at(old(self).command, final(self).stage)
                },
            },
    {
        let reported: Option<bool> = match &event {
            ObsEvent::Recording { active } => Some(*active),
            _ => None,
        };
        let bitrate: Option<u32> = match &event {
            ObsEvent::Bitrate { kbps } => *kbps,
            _ => None,
        };
        if let ObsEvent::Failed { error } = event {
            if self.retried {
                if self.polling {
                    remote.drop_client();
                }
                remote.set_error(error);
                self.stage = ObsStage::Finished;
                return ObsAction::Fail;
            }
            remote.drop_client();
            self.retried = true;
            self.stage = ObsTask::first(self.command, false);
            return self.action();
        }
        match self.stage {
            ObsStage::Connecting => {
                remote.connected();
                self.stage = ObsTask::behind_connection(self.command);
            },
            ObsStage::Disconnecting => {
                remote.disconnected();
                self.stage = ObsStage::Finished;
            },
            ObsStage::Checking => {
                let acts = match reported {
                    Some(active) => active == (self.command == ObsCommand::StopRecord),
                    None => false,
                };
                self.stage = if acts {
                    ObsStage::Acting
                } else {
                    ObsStage::Reading
                };
            },
            ObsStage::Acting => {
                self.stage = ObsStage::Reading;
            },
            ObsStage::Reading => {
                let recording = match reported {
                    Some(active) => active,
                    None => false,
                };
                self.stage = ObsStage::ReadingBitrate { recording };
            },
            ObsStage::ReadingBitrate { recording } => {
                remote.refreshed(recording, bitrate);
                self.stage = ObsStage::Finished;
            },
            ObsStage::Finished => {},
        }
        self.action()
    }
}

/// How many steps are left at most.
pub open spec fn steps_left(task: ObsTask) -> nat {
    let stages: nat = match task.stage {
        ObsStage::Connecting => 5,
        ObsStage::Checking => 4,
        ObsStage::Acting => 3,
        ObsStage::Reading => 2,
        ObsStage::ReadingBitrate { .. } => 1,
        ObsStage::Disconnecting => 1,
        ObsStage::Finished => 0,
    };
    if task.retried {
        stages
    } else {
        stages + 5
    }
}

/// Every command ends: each step leaves fewer steps to be done, whether it went well or not, and
/// there are never more than ten.
pub proof fn law_every_command_ends(task: ObsTask, event: ObsEvent)
    requires
        task.stage != ObsStage::Finished,
        event !is Failed,
    ensures
        steps_left(ObsTask { stage: next_stage(task, event), ..task }) < steps_left(task) <= 10,
        !task.retried ==> steps_left(
            ObsTask { retried: true, stage: first_stage(task.command, false), ..task },
        ) < steps_left(task),
{
}

/// A recording is started only if OBS is not recording, and stopped only if it is.
pub proof fn law_recording_is_not_started_twice(task: ObsTask, active: bool)
    requires
        task.stage == ObsStage::Checking,
        task.command == ObsCommand::StartRecord || task.command == ObsCommand::StopRecord,
    ensures
        action_at(task.command, next_stage(task, ObsEvent::Recording { active })) == (match (
            task.command,
            active,
        ) {
            (ObsCommand::StartRecord, false) => ObsAction::StartRecording,
            (ObsCommand::StopRecord, true) => ObsAction::StopRecording,
            _ => ObsAction::ReadRecording,
        }),
{
}

} // verus!
