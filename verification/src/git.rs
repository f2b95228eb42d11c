//! The repository decisions: which project a working tree belongs to, which
//! reference names a branch goes by, and where a missing local branch starts.
use vstd::prelude::*;

use crate::text::{append_str, from_chars, is_ws, is_ws_char, to_chars};

verus! {

/// `s` holds only whitespace (or nothing).
pub open spec fn is_blank(s: Seq<char>) -> bool {
    forall|i: int| 0 <= i < s.len() ==> is_ws(#[trigger] s[i])
}

/// The project a repository belongs to is the name of its root directory,
/// unless that name is missing or blank.
pub fn project_name_from_root(root_name: Option<&str>) -> (res: Option<String>)
    ensures
        match root_name {
            Some(n) => if is_blank(n@) {
                res is None
            } else {
                res matches Some(p) && p@ == n@
            },
            None => res is None,
        },
{
    match root_name {
        None => None,
        Some(n) => {
            let chars = to_chars(n);
            let mut i: usize = 0;
            while i < chars.len()
                invariant
                    i <= chars@.len(),
                    chars@ == n@,
                    root_name == Some(n),
                    forall|j: int| 0 <= j < i ==> is_ws(#[trigger] chars@[j]),
                decreases chars@.len() - i,
            {
                if !is_ws_char(chars[i]) {
                    assert(!is_ws(n@[i as int]));
                    return Some(from_chars(&chars));
                }
                i += 1;
            }
            None
        },
    }
}

/// The remote-tracking name of `branch` on `origin`.
pub fn remote_branch_name(branch: &str) -> (res: String)
    ensures
        res@ == "origin/"@ + branch@,
{
    let mut out = to_chars("origin/");
    append_str(&mut out, branch);
    from_chars(&out)
}

/// The full reference name of local branch `branch`.
pub fn head_reference_name(branch: &str) -> (res: String)
    ensures
        res@ == "refs/heads/"@ + branch@,
{
    let mut out = to_chars("refs/heads/");
    append_str(&mut out, branch);
    from_chars(&out)
}

/// Where a local branch that does not exist yet is created from.
#[derive(Debug, Clone, Copy, PartialEq, Eq, Structural)]
pub enum BranchStart {
    /// The commit the local branch already points at.
    Local,
    /// The commit `origin/<branch>` points at.
    Remote,
    /// The current `HEAD` commit.
    Head,
    /// Nowhere: the branch is unknown locally and on `origin`.
    NotFound,
}

/// The start point of a branch: its local commit, else its commit on
/// `origin`, else `HEAD` where falling back to it is allowed.
pub open spec fn branch_start_spec(
    local_target: bool,
    remote_target: bool,
    allow_head_fallback: bool,
) -> BranchStart {
    if local_target {
        BranchStart::Local
    } else if remote_target {
        BranchStart::Remote
    } else if allow_head_fallback {
        BranchStart::Head
    } else {
        BranchStart::NotFound
    }
}

/// Chooses the start point of a branch from what the repository holds:
/// whether the local branch and `origin/<branch>` exist with a target.
pub fn branch_start(local_target: bool, remote_target: bool, allow_head_fallback: bool) -> (res:
    BranchStart)
    ensures
        res == branch_start_spec(local_target, remote_target, allow_head_fallback),
{
    if local_target {
        BranchStart::Local
    } else if remote_target {
        BranchStart::Remote
    } else if allow_head_fallback {
        BranchStart::Head
    } else {
        BranchStart::NotFound
    }
}

/// The start point prefers the branch's own commit: its local commit
/// whenever it has one, whatever the fallback; otherwise its commit on
/// `origin`; `HEAD` only when neither exists and falling back is allowed.
pub proof fn start_point_prefers_the_branch_itself(local_target: bool, remote_target: bool, allow_head_fallback: bool)
    ensures
        local_target ==> branch_start_spec(local_target, remote_target, allow_head_fallback)
            == BranchStart::Local,
        !local_target && remote_target ==> branch_start_spec(
            local_target,
            remote_target,
            allow_head_fallback,
        ) == BranchStart::Remote,
        branch_start_spec(local_target, remote_target, allow_head_fallback) == BranchStart::Head
            <==> (!local_target && !remote_target && allow_head_fallback),
        branch_start_spec(local_target, remote_target, allow_head_fallback)
            == BranchStart::NotFound <==> (!local_target && !remote_target && !allow_head_fallback),
{
}

/// A diverted branch is always created somewhere: with the fallback to
/// `HEAD` allowed, no branch is ever reported missing.
pub proof fn diverted_branches_always_have_a_start(local_target: bool, remote_target: bool)
    ensures
        branch_start_spec(local_target, remote_target, true) != BranchStart::NotFound,
{
}

} // verus!
