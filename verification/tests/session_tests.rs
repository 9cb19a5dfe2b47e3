//! End-to-end session tests: the retry state machine driven by scripted
//! frame events over real databases.
use yahallo::config::{Config, FDetMode};
use yahallo::data::{FRcgMode, FaceEnc};
use yahallo::error::{DbusResult, Error};
use yahallo::session::{AuthSession, FrameEvent, SessionOutcome};
use yahallo::FaceRecognizer;

fn test_config(threshold: u64) -> Config {
    Config::new(
        String::from("/dev/video2"),
        String::from("data"),
        String::from("data/faces.json"),
        threshold,
        30,
        FDetMode::Dlib,
        FRcgMode::Dlib,
    )
    .unwrap()
}

#[test]
fn empty_store_fails_with_no_data_before_capture() {
    let config = test_config(600000);
    let fr = FaceRecognizer::new(&config, None).unwrap();
    assert!(!fr.has_faces());
    // the session refuses to start, so the camera is never acquired
    let r = AuthSession::start(2000, fr.has_faces());
    assert_eq!(r.unwrap_err(), Error::NoData);
}

#[test]
fn matching_frame_succeeds_on_first_processed_frame() {
    let config = test_config(600000);
    let store = "[{\"time\": 0, \"label\": \"alice\", \"id\": 1, \"data\": [0.25, -0.5]}]";
    let fr = FaceRecognizer::new(&config, Some(store)).unwrap();
    let mut session = AuthSession::start(2000, fr.has_faces()).unwrap();
    assert_eq!(session.poll_deadline(0), None);
    // the captured frame yields the enrolled embedding unchanged
    let query = FaceEnc::new(FRcgMode::Dlib, vec![250000, -500000]);
    let hit = fr.get_enc_info(&query).unwrap();
    let label = String::from(fr.known_faces.get(hit).label());
    let out = session.on_frame(FrameEvent::Matched(label));
    assert_eq!(out, Some(SessionOutcome::Matched(String::from("alice"))));
    assert_eq!(
        SessionOutcome::Matched(String::from("alice")).to_dbus(),
        DbusResult::Success
    );
}

#[test]
fn two_faces_end_the_session_after_one_frame() {
    let config = test_config(100000);
    let store = "[{\"time\": 0, \"label\": \"alice\", \"id\": 1, \"data\": [0.25]}]";
    let fr = FaceRecognizer::new(&config, Some(store)).unwrap();
    // a frame with two detections is fatal on the first processed frame
    let mut session = AuthSession::start(2000, fr.has_faces()).unwrap();
    let out = session.on_frame(FrameEvent::MultipleFaces);
    assert_eq!(out, Some(SessionOutcome::Failed(Error::MultipleFaces)));
    // while under the same store a frame with no face retries instead
    let mut retrying = AuthSession::start(2000, fr.has_faces()).unwrap();
    assert_eq!(retrying.on_frame(FrameEvent::NoFace), None);
    assert_eq!(retrying.on_frame(FrameEvent::TooDark), None);
    assert_eq!(retrying.on_frame(FrameEvent::NoMatch), None);
}

#[test]
fn deadline_reached_times_out() {
    let config = test_config(600000);
    let store = "[{\"time\": 0, \"label\": \"alice\", \"id\": 1, \"data\": [0.25]}]";
    let fr = FaceRecognizer::new(&config, Some(store)).unwrap();
    let mut session = AuthSession::start(2000, fr.has_faces()).unwrap();
    assert_eq!(session.poll_deadline(1999), None);
    let mut session2 = AuthSession::start(2000, fr.has_faces()).unwrap();
    assert_eq!(
        session2.poll_deadline(2000),
        Some(SessionOutcome::Failed(Error::Timeout))
    );
}

#[test]
fn capture_failures_surface_their_cause() {
    let config = test_config(600000);
    let store = "[{\"time\": 0, \"label\": \"alice\", \"id\": 1, \"data\": [0.25]}]";
    let fr = FaceRecognizer::new(&config, Some(store)).unwrap();
    let mut session = AuthSession::start(2000, fr.has_faces()).unwrap();
    let out = session.on_frame(FrameEvent::CaptureFailed(String::from("read failed")));
    assert_eq!(
        out,
        Some(SessionOutcome::Failed(Error::Other(String::from("read failed"))))
    );
    assert_eq!(
        SessionOutcome::Failed(Error::Other(String::from("read failed"))).to_dbus(),
        DbusResult::Error(Error::Other(String::from("read failed")))
    );
}
