//! What can go wrong with an inventory.

use vstd::prelude::*;
use crate::text::{debug_str, debug_text};

verus! {

/// An error.
#[derive(Debug)]
pub enum Error {
    /// A source could not be read; `msg` says why.
    Io { path: String, msg: String },
    /// A source could not be understood.
    Parse { path: String, msg: String },
    /// A source whose extension stands for no known format.
    UnsupportedSource { path: String, ext: String },
    /// Something that was asked for does not exist.
    NotFound(String),
}

/// What an error is.
pub enum ErrorView {
    Io { path: Seq<char>, msg: Seq<char> },
    Parse { path: Seq<char>, msg: Seq<char> },
    UnsupportedSource { path: Seq<char>, ext: Seq<char> },
    NotFound(Seq<char>),
}

impl View for Error {
    type V = ErrorView;

    open spec fn view(&self) -> ErrorView {
        match self {
            Error::Io { path, msg } => ErrorView::Io { path: path@, msg: msg@ },
            Error::Parse { path, msg } => ErrorView::Parse { path: path@, msg: msg@ },
            Error::UnsupportedSource { path, ext } => ErrorView::UnsupportedSource {
                path: path@,
                ext: ext@,
            },
            Error::NotFound(what) => ErrorView::NotFound(what@),
        }
    }
}

impl ErrorView {
    /// The error in words.
    pub open spec fn message(self) -> Seq<char> {
        match self {
            ErrorView::Io { path, msg } => "reading "@ + path + ": "@ + msg,
            ErrorView::Parse { path, msg } => "parsing "@ + path + ": "@ + msg,
            ErrorView::UnsupportedSource { path, ext } => "unsupported inventory source "@ + path
                + " (extension "@ + debug_text(ext) + ")"@,
            ErrorView::NotFound(what) => what,
        }
    }
}

impl Error {
    /// The error in words.
    pub fn message(&self) -> (r: String)
        ensures
            r@ == self@.message(),
    {
        let mut out = String::new();
        match self {
            Error::Io { path, msg } => {
                out.append("reading ");
                out.append(path.as_str());
                out.append(": ");
                out.append(msg.as_str());
            },
            Error::Parse { path, msg } => {
                out.append("parsing ");
                out.append(path.as_str());
                out.append(": ");
                out.append(msg.as_str());
            },
            Error::UnsupportedSource { path, ext } => {
                out.append("unsupported inventory source ");
                out.append(path.as_str());
                out.append(" (extension ");
                out.append(debug_str(ext.as_str()).as_str());
                out.append(")");
            },
            Error::NotFound(what) => {
                out.append(what.as_str());
            },
        }
        assert(out@ =~= self@.message());
        out
    }
}

/// Two outcomes with the same meaning: what `view` says of the success, and the error.
pub open spec fn outcome<T, V>(r: Result<T, Error>, view: spec_fn(T) -> V) -> Result<V, ErrorView> {
    match r {
        Ok(x) => Ok(view(x)),
        Err(e) => Err(e@),
    }
}

} // verus!
