//! Plain data the application keeps about a session: command-line startup
//! overrides, what a new agent token is confined to, and where a template's
//! master card lives.

use vstd::prelude::*;
use crate::text::{chars_of, concat_chars, string_of};

verus! {

/// Where a template's master card lives, so deleting or re-snapshotting a
/// template can find it again.
#[derive(Clone, Copy, PartialEq, Eq, Structural)]
pub struct MasterRef {
    pub node: u64,
    pub card: u64,
}

/// What a new agent token is scoped to.
#[derive(Clone, Copy, PartialEq, Eq, Structural)]
pub enum TokenTarget {
    /// Make a root basket named after the agent and confine it there.
    NewBasket,
    /// Confine it to a basket that already exists.
    Existing(u64),
    /// No confinement.
    WholeDocument,
}

/// Command-line startup overrides. Each field falls back to the saved
/// setting when `None`, so a bare start behaves exactly as before.
pub struct Startup {
    /// Document to open instead of the one from the last session.
    pub doc: Option<String>,
    /// Agent-API port for this run, overriding the saved one.
    pub port: Option<u16>,
    /// This instance's private settings/autosave directory.
    pub data_dir: Option<String>,
}

impl Default for Startup {
    fn default() -> (r: Self)
        ensures
            r.doc is None,
            r.port is None,
            r.data_dir is None,
    {
        Startup { doc: None, port: None, data_dir: None }
    }
}

/// What opening the document named on the command line gave.
pub enum OpenOutcome {
    /// Nothing is at that path yet.
    Missing,
    /// It was read.
    Loaded,
    /// It is there but could not be read, for the reason given.
    Failed(String),
}

/// Which document startup shows.
#[derive(Clone, Copy, PartialEq, Eq, Structural, Debug)]
pub enum StartupSource {
    /// A new document that will be saved at the named path.
    NewAt,
    /// The document named on the command line.
    Named,
    /// The document of the last session.
    LastSession,
    /// The autosave slot.
    Autosave,
    /// A fresh welcome document.
    Welcome,
}

/// The document startup shows, the path it saves to, and the status line.
pub struct StartupDocument {
    pub source: StartupSource,
    pub path: Option<String>,
    pub status: String,
}

/// The autosave slot when it loaded, else a fresh document.
pub open spec fn fallback_source(autosave_loaded: bool) -> StartupSource {
    if autosave_loaded {
        StartupSource::Autosave
    } else {
        StartupSource::Welcome
    }
}

/// `r` holds the path `p`.
pub open spec fn has_path(r: Option<String>, p: Seq<char>) -> bool {
    r matches Some(x) && x@ == p
}

/// Which document startup opens. A path named on the command line wins: a
/// path with nothing there yet starts a new document saved there; one that
/// loads is opened; one that is there but will not load is reported, and
/// no path is kept, so that an autosave can never write over whatever is
/// really in that file. Without a named path the last session's document
/// is opened if it loads. Otherwise the autosave slot is shown if it loaded,
/// else a fresh document. `opened` is read only with a named path, and
/// `last` only without one.
pub fn startup_document(
    named: Option<String>,
    opened: OpenOutcome,
    last: Option<String>,
    last_loaded: bool,
    autosave_loaded: bool,
) -> (r: StartupDocument)
    ensures
        match named {
            Some(p) => match opened {
                OpenOutcome::Missing => r.source == StartupSource::NewAt && has_path(r.path, p@)
                    && r.status@ == "New document \u{2014} saves to "@ + p@,
                OpenOutcome::Loaded => r.source == StartupSource::Named && has_path(r.path, p@)
                    && r.status@ == "Ready"@,
                OpenOutcome::Failed(e) => r.source == fallback_source(autosave_loaded)
                    && r.path is None && r.status@ == "Could not open "@ + p@ + ": "@ + e@,
            },
            None => match last {
                Some(q) => if last_loaded {
                    r.source == StartupSource::LastSession && has_path(r.path, q@) && r.status@
                        == "Ready"@
                } else {
                    r.source == fallback_source(autosave_loaded) && r.path is None && r.status@
                        == "Ready"@
                },
                None => r.source == fallback_source(autosave_loaded) && r.path is None
                    && r.status@ == "Ready"@,
            },
        },
{
    let fallback = if autosave_loaded {
        StartupSource::Autosave
    } else {
        StartupSource::Welcome
    };
    match named {
        Some(p) => match opened {
            OpenOutcome::Missing => {
                let msg = concat_chars(&chars_of("New document \u{2014} saves to "), &chars_of(p.as_str()));
                StartupDocument { source: StartupSource::NewAt, path: Some(p), status: string_of(&msg) }
            },
            OpenOutcome::Loaded => StartupDocument {
                source: StartupSource::Named,
                path: Some(p),
                status: "Ready".to_owned(),
            },
            OpenOutcome::Failed(e) => {
                let a = concat_chars(&chars_of("Could not open "), &chars_of(p.as_str()));
                let b = concat_chars(&concat_chars(&a, &chars_of(": ")), &chars_of(e.as_str()));
                StartupDocument { source: fallback, path: None, status: string_of(&b) }
            },
        },
        None => match last {
            Some(q) => if last_loaded {
                StartupDocument { source: StartupSource::LastSession, path: Some(q), status: "Ready".to_owned() }
            } else {
                StartupDocument { source: fallback, path: None, status: "Ready".to_owned() }
            },
            None => StartupDocument { source: fallback, path: None, status: "Ready".to_owned() },
        },
    }
}

} // verus!
