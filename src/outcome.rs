use vstd::prelude::*;

verus! {

/// How a probe came out, without the cause of an error.
#[derive(Clone, Copy, Debug, PartialEq, Eq, Structural)]
pub enum StatusKind {
    Open,
    Closed,
    Error,
}

/// How a probe came out: a connection was made, the port refused or did not
/// answer in time, or the attempt could not be evaluated (with its cause).
#[derive(Debug)]
pub enum Status {
    Open,
    Closed,
    Error(String),
}

/// What a connect attempt gave, as handed in by the code that made it.
#[derive(Debug)]
pub enum ConnectResult {
    /// The connection was established (and has been closed again).
    Connected,
    /// The peer refused the connection.
    Refused,
    /// No answer came within the timeout.
    TimedOut,
    /// The attempt failed for another reason: resolution, local resources, I/O.
    Failed(String),
}

/// The abstract value of one outcome: port, kind, and the error's cause
/// (empty unless the kind is `Error`).
pub type OutcomeView = (u16, StatusKind, Seq<char>);

impl Status {
    pub open spec fn spec_kind(&self) -> StatusKind {
        match self {
            Status::Open => StatusKind::Open,
            Status::Closed => StatusKind::Closed,
            Status::Error(_) => StatusKind::Error,
        }
    }

    pub open spec fn spec_reason(&self) -> Seq<char> {
        match self {
            Status::Error(r) => r@,
            _ => Seq::empty(),
        }
    }

    pub fn kind(&self) -> (r: StatusKind)
        ensures
            r == self.spec_kind(),
    {
        match self {
            Status::Open => StatusKind::Open,
            Status::Closed => StatusKind::Closed,
            Status::Error(_) => StatusKind::Error,
        }
    }

    /// A copy of the status, cause included.
    pub fn duplicate(&self) -> (r: Status)
        ensures
            r.spec_kind() == self.spec_kind(),
            r.spec_reason() == self.spec_reason(),
    {
        match self {
            Status::Open => Status::Open,
            Status::Closed => Status::Closed,
            Status::Error(s) => Status::Error(s.clone()),
        }
    }
}

impl StatusKind {
    /// The label under which the kind is reported.
    pub fn label(&self) -> (r: &'static str)
        ensures
            *self == StatusKind::Open ==> r@ == "OPEN"@,
            *self == StatusKind::Closed ==> r@ == "CLOSED"@,
            *self == StatusKind::Error ==> r@ == "ERROR"@,
    {
        match self {
            StatusKind::Open => "OPEN",
            StatusKind::Closed => "CLOSED",
            StatusKind::Error => "ERROR",
        }
    }
}

/// The outcome of probing one port.
#[derive(Debug)]
pub struct ProbeOutcome {
    pub port: u16,
    pub status: Status,
}

impl ProbeOutcome {
    pub open spec fn view(&self) -> OutcomeView {
        (self.port, self.status.spec_kind(), self.status.spec_reason())
    }

    /// A copy of the outcome, cause included.
    pub fn duplicate(&self) -> (r: ProbeOutcome)
        ensures
            r.view() == self.view(),
    {
        ProbeOutcome { port: self.port, status: self.status.duplicate() }
    }
}

/// Classifies a connect attempt on `port`: a connection is open, a refusal or
/// a timeout is closed, any other failure is an error that keeps its cause.
pub fn classify(port: u16, result: ConnectResult) -> (r: ProbeOutcome)
    ensures
        r.port == port,
        result is Connected ==> r.status.spec_kind() == StatusKind::Open,
        result is Refused ==> r.status.spec_kind() == StatusKind::Closed,
        result is TimedOut ==> r.status.spec_kind() == StatusKind::Closed,
        result matches ConnectResult::Failed(cause) ==> r.status.spec_kind() == StatusKind::Error
            && r.status.spec_reason() == cause@,
{
    let status = match result {
        ConnectResult::Connected => Status::Open,
        ConnectResult::Refused => Status::Closed,
        ConnectResult::TimedOut => Status::Closed,
        ConnectResult::Failed(cause) => Status::Error(cause),
    };
    ProbeOutcome { port, status }
}

} // verus!
