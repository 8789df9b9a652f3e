//! What the policy asks of the system, and what the system answers.

use crate::cgroup::DmemValue;
use crate::path::{CgroupPath, PathModel};
use vstd::prelude::*;

verus! {

/// An extended attribute of a cgroup.
#[derive(Clone, Copy, Debug, Eq, PartialEq, Structural)]
pub enum Xattr {
    /// Written by the compositor: since when the application is inactive.
    Focus,
    /// Written by the policy: the recovery record.
    State,
}

impl Xattr {
    /// The attribute's name. The name of the recovery record is an older one, so
    /// that records of earlier releases are found.
    pub open spec fn spec_name(self) -> Seq<char> {
        match self {
            Xattr::Focus => "user.xdg.inactive-since"@,
            Xattr::State => "user.dmemcg-booster.dmem-low-state"@,
        }
    }

    /// The attribute's name.
    pub fn name(&self) -> (name: &'static str)
        ensures
            name@ == self.spec_name(),
    {
        match self {
            Xattr::Focus => "user.xdg.inactive-since",
            Xattr::State => "user.dmemcg-booster.dmem-low-state",
        }
    }
}

/// Why the system refused a request.
#[derive(Clone, Copy, Debug, Eq, PartialEq, Structural)]
pub enum IoFailure {
    /// The file or directory does not exist.
    NotFound,
    /// Anything else.
    Other,
}

/// A request to the system.
pub enum Request {
    /// Read a file as text.
    Read(CgroupPath),
    /// Write a region's limit to a `dmem` file.
    WriteDmem { file: CgroupPath, region: String, value: DmemValue },
    /// Read an extended attribute, which may be absent.
    GetXattr { path: CgroupPath, name: Xattr },
    /// Set an extended attribute.
    SetXattr { path: CgroupPath, name: Xattr, bytes: Vec<u8> },
    /// Remove an extended attribute.
    RemoveXattr { path: CgroupPath, name: Xattr },
    /// Find out whether extended attributes can be listed.
    XattrsSupported(CgroupPath),
    /// Find out whether a file can be opened for writing.
    Writable(CgroupPath),
    /// Watch a directory for changes of its attributes and for its deletion.
    AddWatch(CgroupPath),
    /// Stop watching.
    RemoveWatch(i32),
    /// Start over with a fresh set of watches.
    ResetWatches,
}

/// The system's answer to a request.
pub enum Reply {
    /// What `Read` found.
    Text(Result<String, IoFailure>),
    /// What `GetXattr` found.
    Attribute(Result<Option<Vec<u8>>, IoFailure>),
    /// The watch that `AddWatch` made.
    Watch(Result<i32, IoFailure>),
    /// How every other request ended.
    Done(Result<(), IoFailure>),
}

/// A request, over mathematical values.
pub enum Call {
    Read(PathModel),
    WriteDmem(PathModel, Seq<char>, DmemValue),
    GetXattr(PathModel, Xattr),
    SetXattr(PathModel, Xattr, Seq<u8>),
    RemoveXattr(PathModel, Xattr),
    XattrsSupported(PathModel),
    Writable(PathModel),
    AddWatch(PathModel),
    RemoveWatch(i32),
    ResetWatches,
}

/// An answer, over mathematical values.
pub enum Answer {
    Text(Result<Seq<char>, IoFailure>),
    Attribute(Result<Option<Seq<u8>>, IoFailure>),
    Watch(Result<i32, IoFailure>),
    Done(Result<(), IoFailure>),
}

impl View for Request {
    type V = Call;

    open spec fn view(&self) -> Call {
        match self {
            Request::Read(file) => Call::Read(file@),
            Request::WriteDmem { file, region, value } => Call::WriteDmem(file@, region@, *value),
            Request::GetXattr { path, name } => Call::GetXattr(path@, *name),
            Request::SetXattr { path, name, bytes } => Call::SetXattr(path@, *name, bytes@),
            Request::RemoveXattr { path, name } => Call::RemoveXattr(path@, *name),
            Request::XattrsSupported(path) => Call::XattrsSupported(path@),
            Request::Writable(file) => Call::Writable(file@),
            Request::AddWatch(path) => Call::AddWatch(path@),
            Request::RemoveWatch(watch) => Call::RemoveWatch(*watch),
            Request::ResetWatches => Call::ResetWatches,
        }
    }
}

impl View for Reply {
    type V = Answer;

    open spec fn view(&self) -> Answer {
        match self {
            Reply::Text(Ok(text)) => Answer::Text(Ok(text@)),
            Reply::Text(Err(failure)) => Answer::Text(Err(*failure)),
            Reply::Attribute(Ok(Some(value))) => Answer::Attribute(Ok(Some(value@))),
            Reply::Attribute(Ok(None)) => Answer::Attribute(Ok(None)),
            Reply::Attribute(Err(failure)) => Answer::Attribute(Err(*failure)),
            Reply::Watch(result) => Answer::Watch(*result),
            Reply::Done(result) => Answer::Done(*result),
        }
    }
}

/// Whether a request without a result of its own was carried out.
pub open spec fn succeeded(answer: Answer) -> bool {
    answer matches Answer::Done(Ok(_))
}

impl Reply {
    /// Whether a request without a result of its own was carried out.
    pub fn succeeded(&self) -> (ok: bool)
        ensures
            ok == succeeded(self@),
    {
        match self {
            Reply::Done(Ok(_)) => true,
            _ => false,
        }
    }
}

}
