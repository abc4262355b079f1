//! The single error type of the crate: a message, an optional location line,
//! an optional help line and the process exit code that goes with it.
use vstd::prelude::*;
use vstd::string::*;
use crate::text::{concat2, concat3};

verus! {

/// An error reported to the user.
#[derive(Debug, Clone)]
pub struct AppError {
    message: String,
    where_line: Option<String>,
    help: Option<String>,
    exit_code: i32,
}

/// The mathematical content of an [`AppError`].
pub struct ErrorView {
    pub message: Seq<char>,
    pub where_line: Option<Seq<char>>,
    pub help: Option<Seq<char>>,
    pub exit_code: i32,
}

pub open spec fn opt_view(o: Option<String>) -> Option<Seq<char>> {
    match o {
        Some(s) => Some(s@),
        None => None,
    }
}

impl View for AppError {
    type V = ErrorView;

    closed spec fn view(&self) -> ErrorView {
        ErrorView {
            message: self.message@,
            where_line: opt_view(self.where_line),
            help: opt_view(self.help),
            exit_code: self.exit_code,
        }
    }
}

/// An error with a message, no location, no help and exit code 2.
pub open spec fn plain_err(message: Seq<char>) -> ErrorView {
    ErrorView { message, where_line: None, help: None, exit_code: 2 }
}

/// An error with a message and a help line, exit code 2.
pub open spec fn help_err(message: Seq<char>, help: Seq<char>) -> ErrorView {
    ErrorView { message, where_line: None, help: Some(help), exit_code: 2 }
}

/// An error with a message, a location line and a help line, exit code 2.
pub open spec fn full_err(message: Seq<char>, where_line: Seq<char>, help: Seq<char>) -> ErrorView {
    ErrorView { message, where_line: Some(where_line), help: Some(help), exit_code: 2 }
}

pub open spec fn no_domain_err() -> ErrorView {
    help_err("no domain provided"@, "pass a single domain label like 'abc'"@)
}

pub open spec fn limit_err() -> ErrorView {
    help_err("--limit must be at least 1"@, "use a positive integer such as '--limit 10'"@)
}

pub open spec fn invalid_tld_len_err(input: Seq<char>) -> ErrorView {
    help_err(
        "invalid --tld-len range '"@ + input + "'"@,
        "use '2', '2..5', '..3', or '4..'"@,
    )
}

pub open spec fn cache_dir_unavailable_err() -> ErrorView {
    help_err(
        "unable to determine cache directory"@,
        "set DOMAINGREP_CACHE_DIR or use a platform with a standard cache directory"@,
    )
}

pub open spec fn cache_download_failed_err() -> ErrorView {
    help_err(
        "failed to download domain cache from GitHub Releases"@,
        "check your network connection and try again"@,
    )
}

pub open spec fn cache_integrity_err() -> ErrorView {
    help_err(
        "cache integrity check failed (SHA-256 mismatch)"@,
        "delete the local cache and retry the command"@,
    )
}

pub open spec fn network_request_err(err: Seq<char>) -> ErrorView {
    help_err(
        "network request failed: "@ + err,
        "check your network connection and try again"@,
    )
}

pub open spec fn io_err(context: Seq<char>, err: Seq<char>) -> ErrorView {
    plain_err(context + ": "@ + err)
}

/// The text shown to the user for an error.
pub open spec fn render_error(e: ErrorView) -> Seq<char> {
    "error: "@ + e.message + "\n"@ + match e.where_line {
        Some(w) => "  --> "@ + w + "\n"@,
        None => Seq::<char>::empty(),
    } + match e.help {
        Some(h) => "  = help: "@ + h + "\n"@,
        None => Seq::<char>::empty(),
    }
}

impl AppError {
    /// An error with exit code 2 and the given message.
    pub fn new(message: &str) -> (e: Self)
        ensures
            e@ == plain_err(message@),
    {
        AppError { message: String::from_str(message), where_line: None, help: None, exit_code: 2 }
    }

    /// An error with the given message and exit code.
    pub fn raw(message: &str, exit_code: i32) -> (e: Self)
        ensures
            e@ == (ErrorView { message: message@, where_line: None, help: None, exit_code }),
    {
        AppError { message: String::from_str(message), where_line: None, help: None, exit_code }
    }

    /// An error whose message is an already built string.
    pub(crate) fn from_message(message: String) -> (e: Self)
        ensures
            e@ == plain_err(message@),
    {
        AppError { message, where_line: None, help: None, exit_code: 2 }
    }

    /// Replaces the location line.
    pub fn with_where(self, where_line: &str) -> (e: Self)
        ensures
            e@ == (ErrorView { where_line: Some(where_line@), ..self@ }),
    {
        AppError { where_line: Some(String::from_str(where_line)), ..self }
    }

    /// Replaces the help line.
    pub fn with_help(self, help: &str) -> (e: Self)
        ensures
            e@ == (ErrorView { help: Some(help@), ..self@ }),
    {
        AppError { help: Some(String::from_str(help)), ..self }
    }

    /// Replaces the exit code.
    pub fn with_exit_code(self, exit_code: i32) -> (e: Self)
        ensures
            e@ == (ErrorView { exit_code, ..self@ }),
    {
        AppError { exit_code, ..self }
    }

    /// The process exit code that goes with this error.
    pub fn exit_code(&self) -> (c: i32)
        ensures
            c == self@.exit_code,
    {
        self.exit_code
    }

    pub fn no_domain() -> (e: Self)
        ensures
            e@ == no_domain_err(),
    {
        Self::new("no domain provided").with_help("pass a single domain label like 'abc'")
    }

    pub fn limit_must_be_at_least_one() -> (e: Self)
        ensures
            e@ == limit_err(),
    {
        Self::new("--limit must be at least 1").with_help("use a positive integer such as '--limit 10'")
    }

    pub fn invalid_tld_len(input: &str) -> (e: Self)
        ensures
            e@ == invalid_tld_len_err(input@),
    {
        let m = concat3("invalid --tld-len range '", input, "'");
        Self::from_message(m).with_help("use '2', '2..5', '..3', or '4..'")
    }

    pub fn cache_dir_unavailable() -> (e: Self)
        ensures
            e@ == cache_dir_unavailable_err(),
    {
        Self::new("unable to determine cache directory").with_help(
            "set DOMAINGREP_CACHE_DIR or use a platform with a standard cache directory",
        )
    }

    pub fn cache_download_failed() -> (e: Self)
        ensures
            e@ == cache_download_failed_err(),
    {
        Self::new("failed to download domain cache from GitHub Releases").with_help(
            "check your network connection and try again",
        )
    }

    pub fn cache_integrity_failed() -> (e: Self)
        ensures
            e@ == cache_integrity_err(),
    {
        Self::new("cache integrity check failed (SHA-256 mismatch)").with_help(
            "delete the local cache and retry the command",
        )
    }

    /// A failed network request; `err` is the underlying error's text.
    pub fn network_request(err: &str) -> (e: Self)
        ensures
            e@ == network_request_err(err@),
    {
        let m = concat2("network request failed: ", err);
        Self::from_message(m).with_help("check your network connection and try again")
    }

    /// An I/O failure: `context` says what was attempted, `err` the underlying error's text.
    pub fn io(context: &str, err: &str) -> (e: Self)
        ensures
            e@ == io_err(context@, err@),
    {
        Self::from_message(concat3(context, ": ", err))
    }

    /// The text shown to the user: an `error:` line, then the optional
    /// `-->` and `= help:` lines.
    pub fn render(&self) -> (s: String)
        ensures
            s@ == render_error(self@),
    {
        let mut s = concat3("error: ", self.message.as_str(), "\n");
        match &self.where_line {
            Some(w) => {
                s.append("  --> ");
                s.append(w.as_str());
                s.append("\n");
            },
            None => {},
        }
        match &self.help {
            Some(h) => {
                s.append("  = help: ");
                s.append(h.as_str());
                s.append("\n");
            },
            None => {},
        }
        s
    }
}

} // verus!
