//! Whether the software of a host runs.
use crate::error::{Cause, Error, ErrorKind};
use vstd::prelude::*;

verus! {

/// What a runtime runs.
#[derive(Clone, Copy, Debug, PartialEq, Eq, Structural)]
pub enum Role {
    /// A test.
    Client,
    /// The software of a host, which can be started again.
    Host,
    /// Nothing. The network uses such a runtime for its time.
    NoSoftware,
}

/// How software ended.
#[derive(Clone, Copy, Debug, PartialEq, Eq, Structural)]
pub enum TaskEnd {
    /// As it should.
    Finished,
    /// The host crashed.
    Cancelled,
    /// With an error.
    Failed,
}

/// A runtime, and whether its software runs.
#[derive(Clone, Copy, Debug, PartialEq, Eq, Structural)]
pub struct Rt {
    /// What it runs.
    pub role: Role,
    /// Whether its software runs.
    pub running: bool,
}

impl Rt {
    /// A runtime that runs a test.
    pub fn client() -> (r: Rt)
        ensures
            r == (Rt { role: Role::Client, running: true }),
    {
        Rt { role: Role::Client, running: true }
    }

    /// A runtime that runs the software of a host.
    pub fn host() -> (r: Rt)
        ensures
            r == (Rt { role: Role::Host, running: true }),
    {
        Rt { role: Role::Host, running: true }
    }

    /// A runtime that runs nothing.
    pub fn no_software() -> (r: Rt)
        ensures
            r == (Rt { role: Role::NoSoftware, running: false }),
    {
        Rt { role: Role::NoSoftware, running: false }
    }

    /// Whether it runs a test.
    pub fn is_client(&self) -> (r: bool)
        ensures
            r == (self.role is Client),
    {
        self.role == Role::Client
    }

    /// Whether it runs the software of a host.
    pub fn is_host(&self) -> (r: bool)
        ensures
            r == (self.role is Host),
    {
        self.role == Role::Host
    }

    /// Whether its software runs.
    pub fn is_software_running(&self) -> (r: bool)
        ensures
            r == self.running,
    {
        self.running
    }

    /// Notes how the software is after a step, where it has ended. Returns whether it has
    /// finished. The error of software that failed is returned once.
    pub fn tick(&mut self, end: Option<TaskEnd>) -> (r: Result<bool, Error>)
        ensures
            r == ticked(*old(self), end),
            *final(self) == (Rt { running: old(self).running && end is None, ..*old(self) }),
    {
        if !self.running {
            return Ok(true);
        }
        match end {
            None => Ok(false),
            Some(how) => {
                self.running = false;
                match how {
                    TaskEnd::Failed => Err(Error::new(ErrorKind::Other, Cause::SoftwareFailed)),
                    _ => Ok(true),
                }
            },
        }
    }

    /// Stops the software of a host. Returns whether it was running, and its tasks are to be
    /// cancelled.
    pub fn crash(&mut self) -> (r: bool)
        requires
            old(self).role is Host,
        ensures
            r == old(self).running,
            *final(self) == (Rt { running: false, ..*old(self) }),
    {
        let was: bool = self.running;
        self.running = false;
        was
    }

    /// Starts the software of a host again. The tasks that are running are to be cancelled.
    pub fn bounce(&mut self)
        requires
            old(self).role is Host,
        ensures
            *final(self) == (Rt { running: true, ..*old(self) }),
    {
        self.running = true;
    }
}

/// Whether the software has finished after a step, or its error.
pub open spec fn ticked(rt: Rt, end: Option<TaskEnd>) -> Result<bool, Error> {
    if !rt.running {
        Ok(true)
    } else {
        match end {
            None => Ok(false),
            Some(TaskEnd::Failed) => Err(
                Error { kind: ErrorKind::Other, cause: Cause::SoftwareFailed },
            ),
            Some(_) => Ok(true),
        }
    }
}

/// A crash that cancels software does not fail the simulation, and software that is started
/// again after a crash runs.
pub proof fn law_crash_and_bounce(rt: Rt)
    ensures
        ticked(Rt { running: false, ..rt }, None) == Ok::<bool, Error>(true),
        ticked(rt, Some(TaskEnd::Cancelled)) == Ok::<bool, Error>(true),
        ticked(Rt { running: true, ..rt }, None) == Ok::<bool, Error>(false),
{
}

} // verus!
