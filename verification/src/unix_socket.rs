//! Safe start of servers on Unix sockets.
//!
//! A server takes a lock beside its socket, so that one starts at a time, and
//! binds the socket. Where the path is occupied it connects first: only a
//! refused connection shows that the path is stale and may be removed.

use vstd::prelude::*;
use vstd::string::*;

verus! {

/// How a call of the operating system failed.
#[derive(Clone, Copy, Debug, PartialEq, Eq, Structural)]
pub enum IoErrorKind {
    AddrInUse,
    ConnectionRefused,
    NotFound,
    Other,
}

/// What follows the first attempt to bind a socket.
#[derive(Clone, Copy, Debug, PartialEq, Eq, Structural)]
pub enum BindStep {
    /// The socket is bound.
    Listen,
    /// The path is occupied: connect to find out by whom.
    Connect,
    /// Report the failure of the attempt.
    Fail,
}

/// What follows an attempt to connect to an occupied path.
#[derive(Clone, Debug, PartialEq, Eq)]
pub enum RecoveryStep {
    /// Remove the stale path, then bind.
    RemoveAndBind,
    /// The path is gone: bind.
    Bind,
    /// Leave the path alone and report a failure of this kind.
    Refuse(IoErrorKind, String),
}

/// What a [`RecoveryStep`] says.
pub enum RecoveryModel {
    RemoveAndBind,
    Bind,
    Refuse(IoErrorKind, Seq<char>),
}

impl View for RecoveryStep {
    type V = RecoveryModel;

    open spec fn view(&self) -> RecoveryModel {
        match *self {
            RecoveryStep::RemoveAndBind => RecoveryModel::RemoveAndBind,
            RecoveryStep::Bind => RecoveryModel::Bind,
            RecoveryStep::Refuse(kind, message) => RecoveryModel::Refuse(kind, message@),
        }
    }
}

/// The path of the lock beside a socket.
pub fn lock_path(socket_path: &str) -> (path: String)
    ensures
        path@ == socket_path@ + ".lock"@,
{
    let mut path = socket_path.to_owned();
    path.append(".lock");
    path
}

/// Decides what follows the first attempt to bind a socket; `None` stands for
/// success.
pub fn bind_unix_listener(failure: Option<IoErrorKind>) -> (step: BindStep)
    ensures
        step == match failure {
            None => BindStep::Listen,
            Some(IoErrorKind::AddrInUse) => BindStep::Connect,
            Some(_) => BindStep::Fail,
        },
{
    match failure {
        None => BindStep::Listen,
        Some(IoErrorKind::AddrInUse) => BindStep::Connect,
        Some(_) => BindStep::Fail,
    }
}

/// What follows an attempt to connect to an occupied path. A peer that accepts
/// is active and is left alone; a refusal shows that the path is stale; without
/// a path there is nothing to remove. Any other failure decides nothing, so the
/// path is left alone too.
pub open spec fn recovery(
    socket_path: Seq<char>,
    failure: Option<(IoErrorKind, Seq<char>)>,
) -> RecoveryModel {
    match failure {
        None => RecoveryModel::Refuse(
            IoErrorKind::AddrInUse,
            "refusing to replace an active Unix socket at "@ + socket_path,
        ),
        Some((IoErrorKind::ConnectionRefused, _)) => RecoveryModel::RemoveAndBind,
        Some((IoErrorKind::NotFound, _)) => RecoveryModel::Bind,
        Some((kind, error)) => RecoveryModel::Refuse(
            kind,
            "cannot determine whether Unix socket at "@ + socket_path + " is stale: "@ + error,
        ),
    }
}

/// Decides what follows an attempt to connect to an occupied path; `None` stands
/// for success, and a failure comes with its text.
pub fn recover_or_refuse_active_socket(
    socket_path: &str,
    failure: Option<(IoErrorKind, String)>,
) -> (step: RecoveryStep)
    ensures
        step@ == recovery(
            socket_path@,
            match failure {
                None => None,
                Some((kind, error)) => Some((kind, error@)),
            },
        ),
{
    match failure {
        None => {
            let mut message = "refusing to replace an active Unix socket at ".to_owned();
            message.append(socket_path);
            RecoveryStep::Refuse(IoErrorKind::AddrInUse, message)
        },
        Some((IoErrorKind::ConnectionRefused, _)) => RecoveryStep::RemoveAndBind,
        Some((IoErrorKind::NotFound, _)) => RecoveryStep::Bind,
        Some((kind, error)) => {
            let mut message = "cannot determine whether Unix socket at ".to_owned();
            message.append(socket_path);
            message.append(" is stale: ");
            message.append(error.as_str());
            RecoveryStep::Refuse(kind, message)
        },
    }
}

/// A path is removed only after a connection to it was refused; in particular
/// never while a peer accepts connections on it.
pub proof fn law_active_sockets_are_kept(
    socket_path: Seq<char>,
    failure: Option<(IoErrorKind, Seq<char>)>,
)
    ensures
        recovery(socket_path, failure) is RemoveAndBind <==> match failure {
            Some((kind, _)) => kind == IoErrorKind::ConnectionRefused,
            None => false,
        },
        failure is None ==> match recovery(socket_path, failure) {
            RecoveryModel::Refuse(kind, _) => kind == IoErrorKind::AddrInUse,
            _ => false,
        },
{
}

} // verus!
