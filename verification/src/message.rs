//! Requests and responses of the daemon's wire protocol.
use vstd::prelude::*;

use crate::clip::{Entry, EntryV, Preview, PreviewV};

verus! {

/// A group argument: absent means the resolved default group.
pub type Grp = Option<String>;

/// An index argument: absent means the latest record.
pub type Idx = Option<usize>;

/// Mathematical value of a wipe request.
#[verifier::ext_equal]
pub enum WipeV {
    All,
    Single { index: nat },
}

/// What a delete request removes: everything, or one record by index.
#[derive(Debug, Clone)]
pub enum Wipe {
    All,
    Single { index: usize },
}

impl View for Wipe {
    type V = WipeV;

    open spec fn view(&self) -> WipeV {
        match self {
            Wipe::All => WipeV::All,
            Wipe::Single { index } => WipeV::Single { index: *index as nat },
        }
    }
}

/// Mathematical value of a request.
#[verifier::ext_equal]
pub enum RequestV {
    Ping,
    Stop,
    Clear,
    Groups,
    Copy { entry: EntryV, primary: bool, group: Option<Seq<char>>, index: Option<nat> },
    Select { index: nat, primary: bool, group: Option<Seq<char>> },
    List { length: nat, group: Option<Seq<char>> },
    Delete { index: nat, group: Option<Seq<char>> },
    Find { index: Option<nat>, group: Option<Seq<char>> },
    Wipe { wipe: WipeV, group: Option<Seq<char>> },
}

/// Every request a client can send to the daemon.
#[derive(Debug, Clone)]
pub enum Request {
    /// Check that the daemon is alive.
    Ping,
    /// Ask the daemon to shut down.
    Stop,
    /// Clear the live clipboard selections.
    Clear,
    /// List the names of all known groups.
    Groups,
    /// Store a new entry and place it on the clipboard.
    Copy { entry: Entry, primary: bool, group: Grp, index: Idx },
    /// Re-copy a stored entry by index.
    Select { index: usize, primary: bool, group: Grp },
    /// List previews of a group's records.
    List { length: usize, group: Grp },
    /// Delete one record by index.
    Delete { index: usize, group: Grp },
    /// Fetch a stored entry by index, or the latest one.
    Find { index: Idx, group: Grp },
    /// Delete one record or every record of a group.
    Wipe { wipe: Wipe, group: Grp },
}

/// The group name carried by an optional group argument.
pub open spec fn grp_view(g: &Grp) -> Option<Seq<char>> {
    match g {
        Some(s) => Some(s@),
        None => None,
    }
}

/// The index carried by an optional index argument.
pub open spec fn idx_view(i: &Idx) -> Option<nat> {
    match i {
        Some(v) => Some(*v as nat),
        None => None,
    }
}

impl View for Request {
    type V = RequestV;

    open spec fn view(&self) -> RequestV {
        match self {
            Request::Ping => RequestV::Ping,
            Request::Stop => RequestV::Stop,
            Request::Clear => RequestV::Clear,
            Request::Groups => RequestV::Groups,
            Request::Copy { entry, primary, group, index } => RequestV::Copy {
                entry: entry@,
                primary: *primary,
                group: grp_view(group),
                index: idx_view(index),
            },
            Request::Select { index, primary, group } => RequestV::Select {
                index: *index as nat,
                primary: *primary,
                group: grp_view(group),
            },
            Request::List { length, group } => RequestV::List {
                length: *length as nat,
                group: grp_view(group),
            },
            Request::Delete { index, group } => RequestV::Delete {
                index: *index as nat,
                group: grp_view(group),
            },
            Request::Find { index, group } => RequestV::Find {
                index: idx_view(index),
                group: grp_view(group),
            },
            Request::Wipe { wipe, group } => RequestV::Wipe {
                wipe: wipe@,
                group: grp_view(group),
            },
        }
    }
}

/// Mathematical value of a response.
#[verifier::ext_equal]
pub enum ResponseV {
    Okay,
    Error { error: Seq<char> },
    Groups { groups: Seq<Seq<char>> },
    Entry { entry: EntryV, index: nat },
    Previews { previews: Seq<PreviewV> },
}

/// Every response the daemon can send back.
#[derive(Debug, Clone)]
pub enum Response {
    /// Plain acknowledgement.
    Okay,
    /// A structured failure, carrying its description.
    Error { error: String },
    /// The names of all known groups.
    Groups { groups: Vec<String> },
    /// One stored entry and the index it resolved to.
    Entry { entry: Entry, index: usize },
    /// Rendered previews of a group's records.
    Previews { previews: Vec<Preview> },
}

impl View for Response {
    type V = ResponseV;

    open spec fn view(&self) -> ResponseV {
        match self {
            Response::Okay => ResponseV::Okay,
            Response::Error { error } => ResponseV::Error { error: error@ },
            Response::Groups { groups } => ResponseV::Groups { groups: groups.deep_view() },
            Response::Entry { entry, index } => ResponseV::Entry {
                entry: entry@,
                index: *index as nat,
            },
            Response::Previews { previews } => ResponseV::Previews {
                previews: previews@.map_values(|p: Preview| p@),
            },
        }
    }
}

impl Response {
    /// Wrap a failure description in a response.
    pub fn error(error: String) -> (r: Response)
        ensures
            r@ == (ResponseV::Error { error: error@ }),
    {
        Response::Error { error }
    }
}

} // verus!
