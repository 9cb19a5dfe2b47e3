//! The authentication session: a deadline-bounded retry state machine that
//! turns a stream of per-frame events into a single outcome.
//!
//! The caller owns the camera loop: it checks the deadline through
//! `poll_deadline` before each capture, and reports what the frame produced
//! through `on_frame`. Transient conditions (dark frame, no face, no match)
//! retry; multiple faces and lower-level failures end the session; a match
//! succeeds. With no enrollments the session refuses to start, before any
//! capture.
use vstd::prelude::*;
use crate::error::{DbusResult, Error};

verus! {

/// What one captured frame produced.
#[derive(Debug, Clone, PartialEq, Eq)]
pub enum FrameEvent {
    /// Capture or frame conversion failed with this cause.
    CaptureFailed(String),
    /// The quality gate rejected the frame as too dark.
    TooDark,
    /// No face was found in the frame.
    NoFace,
    /// More than one face was found in the frame.
    MultipleFaces,
    /// The detector or encoder failed with this cause.
    DetectFailed(String),
    /// A face matched the enrolled record with this label.
    Matched(String),
    /// A face was found but matched no enrolled record.
    NoMatch,
}

/// The single outcome of a finished session.
#[derive(Debug, Clone, PartialEq, Eq)]
pub enum SessionOutcome {
    Matched(String),
    Failed(Error),
}

impl SessionOutcome {
    /// The bus result for this outcome: a match grants, everything else
    /// carries its error.
    pub fn to_dbus(self) -> (r: DbusResult)
        ensures
            match self {
                SessionOutcome::Matched(_) => r == DbusResult::Success,
                SessionOutcome::Failed(e) => r == DbusResult::Error(e),
            },
    {
        match self {
            SessionOutcome::Matched(_) => DbusResult::Success,
            SessionOutcome::Failed(e) => DbusResult::Error(e),
        }
    }
}

/// One authentication attempt, bounded by a deadline.
#[derive(Debug)]
pub struct AuthSession {
    pub timeout_ms: u64,
    pub finished: bool,
}

impl AuthSession {
    /// Entry precondition of a session: with no enrollments it fails with
    /// `NoData` immediately, before the caller may acquire the camera;
    /// otherwise it starts capturing.
    pub fn start(timeout_ms: u64, has_enrollments: bool) -> (r: Result<AuthSession, Error>)
        ensures
            !has_enrollments ==> r == Err::<AuthSession, Error>(Error::NoData),
            has_enrollments ==> (r matches Ok(s) && s.timeout_ms == timeout_ms && !s.finished),
    {
        if !has_enrollments {
            return Err(Error::NoData);
        }
        Ok(AuthSession { timeout_ms, finished: false })
    }

    /// Deadline check between iterations: at or past the deadline the
    /// session ends with `Timeout`; otherwise it continues unchanged.
    pub fn poll_deadline(&mut self, elapsed_ms: u64) -> (r: Option<SessionOutcome>)
        requires
            !old(self).finished,
        ensures
            final(self).timeout_ms == old(self).timeout_ms,
            elapsed_ms >= old(self).timeout_ms ==> (r == Some(
                SessionOutcome::Failed(Error::Timeout),
            ) && final(self).finished),
            elapsed_ms < old(self).timeout_ms ==> r is None && !final(self).finished,
    {
        if elapsed_ms >= self.timeout_ms {
            self.finished = true;
            return Some(SessionOutcome::Failed(Error::Timeout));
        }
        None
    }

    /// One captured frame's worth of progress. A dark frame, an absent
    /// face and an unmatched face all retry; multiple faces are fatal to
    /// the session (not retried); capture and inference failures surface
    /// their cause; a match ends the session successfully.
    pub fn on_frame(&mut self, ev: FrameEvent) -> (r: Option<SessionOutcome>)
        requires
            !old(self).finished,
        ensures
            final(self).timeout_ms == old(self).timeout_ms,
            match ev {
                FrameEvent::TooDark => r is None && !final(self).finished,
                FrameEvent::NoFace => r is None && !final(self).finished,
                FrameEvent::NoMatch => r is None && !final(self).finished,
                FrameEvent::MultipleFaces => r == Some(
                    SessionOutcome::Failed(Error::MultipleFaces),
                ) && final(self).finished,
                FrameEvent::CaptureFailed(m) => (r matches Some(
                    SessionOutcome::Failed(Error::Other(m2)),
                ) && m2@ == m@) && final(self).finished,
                FrameEvent::DetectFailed(m) => (r matches Some(
                    SessionOutcome::Failed(Error::Other(m2)),
                ) && m2@ == m@) && final(self).finished,
                FrameEvent::Matched(l) => (r matches Some(SessionOutcome::Matched(l2)) && l2@
                    == l@) && final(self).finished,
            },
    {
        match ev {
            FrameEvent::TooDark => None,
            FrameEvent::NoFace => None,
            FrameEvent::NoMatch => None,
            FrameEvent::MultipleFaces => {
                self.finished = true;
                Some(SessionOutcome::Failed(Error::MultipleFaces))
            },
            FrameEvent::CaptureFailed(m) => {
                self.finished = true;
                Some(SessionOutcome::Failed(Error::Other(m)))
            },
            FrameEvent::DetectFailed(m) => {
                self.finished = true;
                Some(SessionOutcome::Failed(Error::Other(m)))
            },
            FrameEvent::Matched(l) => {
                self.finished = true;
                Some(SessionOutcome::Matched(l))
            },
        }
    }
}

} // verus!
