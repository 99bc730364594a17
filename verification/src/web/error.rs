//! What a request can fail with, and the status each failure answers with.

use vstd::prelude::*;

use crate::text::{append, text_of};

verus! {

/// Why the daemon did not serve a request.
#[derive(Debug, PartialEq, Eq)]
pub struct DaemonError {
    /// Whether the chain rejected a write.
    pub rejected: bool,
    /// Whether the daemon could not be reached at all.
    pub unreachable: bool,
    /// What went wrong, and what each of that came from in turn.
    pub causes: Vec<String>,
}

/// Why a request could not be served.
#[derive(Debug, PartialEq, Eq)]
pub enum Error {
    /// The URL names no ledger location: a malformed namespace or path.
    BadRequest(String),
    /// The request was understood and its content refused: text that is not
    /// a value, or a write the chain rejected.
    Invalid(String),
    /// The daemon could not be reached, or broke serving the request.
    Daemon(DaemonError),
}

/// Causes joined into one line.
pub open spec fn joined(causes: Seq<String>) -> Seq<char>
    decreases causes.len(),
{
    if causes.len() == 0 {
        Seq::empty()
    } else if causes.len() == 1 {
        causes[0]@
    } else {
        joined(causes.drop_last()) + ": "@ + causes.last()@
    }
}

/// Joins an error and its sources into one line.
fn join(causes: &Vec<String>) -> (line: String)
    ensures
        line@ == joined(causes@),
{
    let mut line: Vec<char> = Vec::new();
    let mut i: usize = 0;
    assert(causes@.take(0).len() == 0);
    while i < causes.len()
        invariant
            i <= causes@.len(),
            line@ == joined(causes@.take(i as int)),
        decreases causes@.len() - i,
    {
        let ghost before = line@;
        if i > 0 {
            append(&mut line, ": ");
        }
        append(&mut line, causes[i].as_str());
        i += 1;
        proof {
            let now = causes@.take(i as int);
            assert(now.drop_last() =~= causes@.take(i - 1));
            assert(now.last() == causes@[i - 1]);
            if i == 1 {
                assert(before.len() == 0);
                assert(now[0] == causes@[0]);
            }
            assert(line@ =~= joined(now));
        }
    }
    assert(causes@.take(i as int) =~= causes@);
    text_of(&line)
}

/// The status a failure is answered with.
pub open spec fn status_of(error: Error) -> u16 {
    match error {
        Error::BadRequest(_) => 400,
        Error::Invalid(_) => 422,
        Error::Daemon(error) => if error.unreachable {
            502
        } else {
            500
        },
    }
}

/// What is the request's fault is answered with a status of the four
/// hundreds, whether it could not be understood or was refused; what is the
/// daemon's with one of the five hundreds, and as a bad gateway exactly where
/// the daemon could not be reached.
pub proof fn a_status_tells_whose_fault_it_is(error: Error)
    ensures
        400 <= status_of(error) < 500 <==> !(error is Daemon),
        500 <= status_of(error) < 600 <==> error is Daemon,
        status_of(error) == 502 <==> error is Daemon && error->Daemon_0.unreachable,
        status_of(error) == 400 <==> error is BadRequest,
        status_of(error) == 422 <==> error is Invalid,
        error is Daemon && !error->Daemon_0.unreachable ==> status_of(error) == 500,
{
}

impl Error {
    /// A failure of the daemon's. A refusal by the chain is the request's
    /// fault, not the daemon's.
    pub fn from_daemon(error: DaemonError) -> (failure: Self)
        ensures
            match failure {
                Error::Invalid(text) => error.rejected && text@ == joined(error.causes@),
                Error::Daemon(kept) => !error.rejected && kept == error,
                Error::BadRequest(_) => false,
            },
    {
        if error.rejected {
            Error::Invalid(join(&error.causes))
        } else {
            Error::Daemon(error)
        }
    }

    /// The status this failure is answered with.
    pub fn status(&self) -> (status: u16)
        ensures
            status == status_of(*self),
    {
        match self {
            Error::BadRequest(_) => 400,
            Error::Invalid(_) => 422,
            Error::Daemon(error) => if error.unreachable {
                502
            } else {
                500
            },
        }
    }

    /// The failure as a person reads it: all it came from, since the top of
    /// it alone says nothing actionable.
    pub fn describe(&self) -> (text: String)
        ensures
            text@ == match self {
                Error::BadRequest(text) => text@,
                Error::Invalid(text) => text@,
                Error::Daemon(error) => joined(error.causes@),
            },
    {
        match self {
            Error::BadRequest(text) => text.clone(),
            Error::Invalid(text) => text.clone(),
            Error::Daemon(error) => join(&error.causes),
        }
    }
}

} // verus!
