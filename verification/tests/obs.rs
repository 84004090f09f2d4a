use irohsion::obs::{
    bitrate_outcome, first_bitrate, parse_bitrate, ObsAction, ObsCommand, ObsConfig, ObsEvent, ObsParameter,
    ObsRemote, ObsStage, ObsStatus, ObsTask, ParameterResult,
};

fn remote() -> ObsRemote {
    ObsRemote::new(ObsConfig {
        host: "localhost".to_string(),
        port: 4455,
        password: None,
        recording_bitrate_category: "AdvOut".to_string(),
        recording_bitrate_name: "RecBitrate".to_string(),
    })
}

fn connected() -> ObsRemote {
    let mut remote = remote();
    remote.connected();
    remote
}

fn failed(error: &str) -> ObsEvent {
    ObsEvent::Failed {
        error: error.to_string(),
    }
}

#[test]
fn a_new_remote_is_not_connected() {
    let remote = remote();
    let status = remote.cached_status();
    assert!(status.enabled);
    assert!(!status.connected);
    assert_eq!(status.host, "localhost");
    assert_eq!(status.port, 4455);
    assert!(!ObsStatus::default().enabled);
}

#[test]
fn bitrates_are_numbers() {
    assert_eq!(parse_bitrate("6000"), Some(6_000));
    assert_eq!(parse_bitrate("4294967295"), Some(u32::MAX));
    assert_eq!(parse_bitrate("4294967296"), None);
    assert_eq!(parse_bitrate("fast"), None);
}

#[test]
fn recording_starts_if_it_is_not_running() {
    let mut remote = connected();
    let mut task = ObsTask::apply(ObsCommand::StartRecord, &mut remote).unwrap();
    assert_eq!(task.action(), ObsAction::ReadRecording);
    assert_eq!(
        task.on_event(&mut remote, ObsEvent::Recording { active: false }),
        ObsAction::StartRecording
    );
    assert_eq!(
        task.on_event(&mut remote, ObsEvent::Done),
        ObsAction::ReadRecording
    );
    assert_eq!(
        task.on_event(&mut remote, ObsEvent::Recording { active: true }),
        ObsAction::ReadBitrate
    );
    assert_eq!(
        task.on_event(&mut remote, ObsEvent::Bitrate { kbps: Some(6_000) }),
        ObsAction::Succeed
    );
    assert_eq!(task.stage, ObsStage::Finished);
    assert_eq!(remote.status.recording, Some(true));
    assert_eq!(remote.status.recording_bitrate_kbps, Some(6_000));
}

#[test]
fn recording_is_not_started_twice() {
    let mut remote = connected();
    let mut task = ObsTask::apply(ObsCommand::StartRecord, &mut remote).unwrap();
    assert_eq!(
        task.on_event(&mut remote, ObsEvent::Recording { active: true }),
        ObsAction::ReadRecording
    );
    let mut task = ObsTask::apply(ObsCommand::StopRecord, &mut remote).unwrap();
    assert_eq!(
        task.on_event(&mut remote, ObsEvent::Recording { active: false }),
        ObsAction::ReadRecording
    );
    let mut task = ObsTask::apply(ObsCommand::StopRecord, &mut remote).unwrap();
    assert_eq!(
        task.on_event(&mut remote, ObsEvent::Recording { active: true }),
        ObsAction::StopRecording
    );
}

#[test]
fn a_command_that_fails_is_tried_once_more() {
    let mut remote = connected();
    let mut task = ObsTask::apply(ObsCommand::Refresh, &mut remote).unwrap();
    assert_eq!(task.action(), ObsAction::ReadRecording);
    assert_eq!(
        task.on_event(&mut remote, failed("gone")),
        ObsAction::Connect
    );
    assert!(!remote.has_client);
    assert_eq!(
        task.on_event(&mut remote, failed("refused")),
        ObsAction::Fail
    );
    assert_eq!(task.stage, ObsStage::Finished);
    assert_eq!(remote.status.last_error.as_deref(), Some("refused"));
}

#[test]
fn disconnecting_is_not_tried_again() {
    assert!(!ObsCommand::Disconnect.should_retry_after_reconnect());
    let mut remote = connected();
    let mut task = ObsTask::apply(ObsCommand::Disconnect, &mut remote).unwrap();
    assert_eq!(task.action(), ObsAction::Disconnect);
    assert_eq!(
        task.on_event(&mut remote, ObsEvent::Done),
        ObsAction::Succeed
    );
    assert!(!remote.status.connected);
}

#[test]
fn a_poll_that_fails_gives_up_the_connection() {
    let mut remote = connected();
    let mut task = ObsTask::poll(&remote);
    assert_eq!(
        task.on_event(&mut remote, failed("timeout")),
        ObsAction::Fail
    );
    assert!(!remote.has_client);
    assert!(!remote.status.connected);
    assert_eq!(remote.status.last_error.as_deref(), Some("timeout"));
}

#[test]
fn a_bitrate_of_zero_is_refused() {
    let mut remote = connected();
    assert!(ObsTask::apply(ObsCommand::SetRecordingBitrate { kbps: 0 }, &mut remote).is_none());
    assert_eq!(
        remote.status.last_error.as_deref(),
        Some("recording bitrate must be greater than zero")
    );
    let task = ObsTask::apply(ObsCommand::SetRecordingBitrate { kbps: 9 }, &mut connected());
    assert_eq!(
        task.unwrap().action(),
        ObsAction::SetBitrate { kbps: 9 }
    );
}

#[test]
fn each_parameter_is_tried_once() {
    let names = |remote: &ObsRemote| {
        remote
            .recording_bitrate_params()
            .iter()
            .map(|parameter| format!("{}/{}", parameter.category, parameter.name))
            .collect::<Vec<_>>()
    };
    assert_eq!(
        names(&remote()),
        vec!["AdvOut/RecBitrate", "AdvOut/FFVBitrate", "SimpleOutput/VBitrate"]
    );
    let mut same = remote();
    same.config.recording_bitrate_name = "FFVBitrate".to_string();
    assert_eq!(
        names(&same),
        vec!["AdvOut/FFVBitrate", "SimpleOutput/VBitrate"]
    );
}

#[test]
fn one_parameter_that_was_set_is_enough() {
    let result = |name: &str, error: Option<&str>| ParameterResult {
        parameter: ObsParameter {
            category: "AdvOut".to_string(),
            name: name.to_string(),
        },
        error: error.map(|text| text.to_string()),
    };
    assert_eq!(
        bitrate_outcome(&[result("a", Some("no")), result("b", None)]),
        Ok(())
    );
    assert_eq!(
        bitrate_outcome(&[result("a", Some("no")), result("b", Some("never"))]),
        Err(
            "failed to set OBS recording bitrate; tried AdvOut/a: no, AdvOut/b: never"
                .to_string()
        )
    );
}

#[test]
fn the_first_bitrate_counts() {
    assert_eq!(first_bitrate(&[]), None);
    assert_eq!(
        first_bitrate(&[
            None,
            Some("fast".to_string()),
            Some("2500".to_string()),
            Some("6000".to_string()),
        ]),
        Some(2_500)
    );
    assert_eq!(first_bitrate(&[None, Some("4294967296".to_string())]), None);
}
