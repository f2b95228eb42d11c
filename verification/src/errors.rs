//! The library's own errors, each with the message the tool prints for it.
use vstd::prelude::*;

use crate::text::{append_str, from_chars};

verus! {

/// Errors of the mesh guard.
#[derive(Debug)]
pub enum GarcError {
    MissingCampConfig { path: String },
    ProjectMismatch { config_path: String, config_project: String, repo_project: String },
    MissingTxtField { fullname: String, field: &'static str },
    InvalidTxtFieldEncoding { fullname: String, field: &'static str },
}

/// The message printed for an error.
pub open spec fn error_message(e: GarcError) -> Seq<char> {
    match e {
        GarcError::MissingCampConfig { path } => "CAMP config `"@ + path@
            + "` is missing; run `camp init --force` in this repository first"@,
        GarcError::ProjectMismatch { config_path, config_project, repo_project } => "CAMP project `"@
            + config_project@ + "` from `"@ + config_path@
            + "` does not match repository project `"@ + repo_project@
            + "`; update `.camp.toml` or re-run `camp init` for this repo"@,
        GarcError::MissingTxtField { fullname, field } => "resolved mesh service `"@ + fullname@
            + "` is missing required TXT field `"@ + field@ + "`"@,
        GarcError::InvalidTxtFieldEncoding { fullname, field } => "resolved mesh service `"@
            + fullname@ + "` contains invalid UTF-8 in `"@ + field@ + "`"@,
    }
}

impl GarcError {
    /// The message printed for this error.
    pub fn message(&self) -> (res: String)
        ensures
            res@ == error_message(*self),
    {
        let mut out: Vec<char> = Vec::new();
        match self {
            GarcError::MissingCampConfig { path } => {
                append_str(&mut out, "CAMP config `");
                append_str(&mut out, path.as_str());
                append_str(&mut out, "` is missing; run `camp init --force` in this repository first");
            },
            GarcError::ProjectMismatch { config_path, config_project, repo_project } => {
                append_str(&mut out, "CAMP project `");
                append_str(&mut out, config_project.as_str());
                append_str(&mut out, "` from `");
                append_str(&mut out, config_path.as_str());
                append_str(&mut out, "` does not match repository project `");
                append_str(&mut out, repo_project.as_str());
                append_str(&mut out, "`; update `.camp.toml` or re-run `camp init` for this repo");
            },
            GarcError::MissingTxtField { fullname, field } => {
                append_str(&mut out, "resolved mesh service `");
                append_str(&mut out, fullname.as_str());
                append_str(&mut out, "` is missing required TXT field `");
                append_str(&mut out, field);
                append_str(&mut out, "`");
            },
            GarcError::InvalidTxtFieldEncoding { fullname, field } => {
                append_str(&mut out, "resolved mesh service `");
                append_str(&mut out, fullname.as_str());
                append_str(&mut out, "` contains invalid UTF-8 in `");
                append_str(&mut out, field);
                append_str(&mut out, "`");
            },
        }
        assert(out@ =~= error_message(*self));
        from_chars(&out)
    }
}

} // verus!
