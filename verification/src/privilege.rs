//! Unix privilege drop (`user`) and file-descriptor limit (`worker_rlimit_nofile`).
//!
//! Nginx-style deployments bind privileged ports (`:80` / `:443`) which
//! requires root or `CAP_NET_BIND_SERVICE`, but every operations team will
//! refuse to leave the runtime as `uid 0`. The standard pattern is "bind
//! first, then drop": what to drop to, and in which order. The system calls
//! are made by the caller.

use crate::text::{decimal, has_char, push_decimal, result_view};
use vstd::prelude::*;
use vstd::string::*;

verus! {

/// A resolved (uid, gid) pair, and the name it belongs to.
#[derive(Debug)]
pub struct UserIds {
    pub uid: u32,
    pub gid: u32,
    /// The username — needed by `initgroups(3)` to look up supplementary
    /// groups via the `/etc/group` database.
    pub user: String,
}

/// Model of a [`UserIds`].
pub struct UserIdsV {
    pub uid: u32,
    pub gid: u32,
    pub user: Seq<char>,
}

impl View for UserIds {
    type V = UserIdsV;

    open spec fn view(&self) -> UserIdsV {
        UserIdsV { uid: self.uid, gid: self.gid, user: self.user@ }
    }
}

/// The identity that `user` and an optional `group` stand for, given the ids of
/// the user and of the group in the system's databases, as far as they are
/// there.
pub open spec fn ids_for(
    user: Seq<char>,
    group: Option<Seq<char>>,
    passwd: Option<(u32, u32)>,
    group_id: Option<u32>,
) -> Result<UserIdsV, Seq<char>> {
    if user.contains('\0') {
        Err("user name '"@ + user + "' contains an internal NUL byte"@)
    } else {
        match passwd {
            None => Err("user '"@ + user + "' not found in /etc/passwd"@),
            Some((uid, primary)) => match group {
                None => Ok(UserIdsV { uid, gid: primary, user }),
                Some(g) => if g.contains('\0') {
                    Err("group name '"@ + g + "' contains an internal NUL byte"@)
                } else {
                    match group_id {
                        None => Err("group '"@ + g + "' not found in /etc/group"@),
                        Some(gid) => Ok(UserIdsV { uid, gid, user }),
                    }
                },
            },
        }
    }
}

fn quoted(a: &str, name: &str, b: &str) -> (m: String)
    ensures
        m@ == a@ + name@ + b@,
{
    let mut m = a.to_owned();
    m.append(name);
    m.append(b);
    m
}

/// Resolve `user` (and optional `group`). `passwd` is the uid and primary gid
/// of the user in /etc/passwd, `group_id` the gid of the group in /etc/group.
/// If `group` is `None`, the user's primary group is used.
pub fn resolve(
    user: &str,
    group: Option<&str>,
    passwd: Option<(u32, u32)>,
    group_id: Option<u32>,
) -> (r: Result<UserIds, String>)
    ensures
        result_view(r) == ids_for(
            user@,
            match group {
                Some(g) => Some(g@),
                None => None,
            },
            passwd,
            group_id,
        ),
{
    if has_char(user, '\0') {
        return Err(quoted("user name '", user, "' contains an internal NUL byte"));
    }
    let (uid, primary) = match passwd {
        Some(p) => p,
        None => {
            return Err(quoted("user '", user, "' not found in /etc/passwd"));
        },
    };
    let gid: u32 = match group {
        None => primary,
        Some(g) => {
            if has_char(g, '\0') {
                return Err(quoted("group name '", g, "' contains an internal NUL byte"));
            }
            match group_id {
                Some(id) => id,
                None => {
                    return Err(quoted("group '", g, "' not found in /etc/group"));
                },
            }
        },
    };
    Ok(UserIds { uid, gid, user: user.to_owned() })
}

/// One step of dropping privileges.
#[derive(Debug, Clone, Copy, PartialEq, Eq, Structural)]
pub enum DropStep {
    InitGroups,
    SetGid,
    SetUid,
}

/// The step behind `done`; `None` when nothing is left. The order —
/// `initgroups` → `setgid` → `setuid` — matters: once `setuid` runs we lose the
/// privilege to change group membership.
pub fn next_step(done: Option<DropStep>) -> (r: Option<DropStep>)
    ensures
        r == (match done {
            None => Some(DropStep::InitGroups),
            Some(DropStep::InitGroups) => Some(DropStep::SetGid),
            Some(DropStep::SetGid) => Some(DropStep::SetUid),
            Some(DropStep::SetUid) => None,
        }),
{
    match done {
        None => Some(DropStep::InitGroups),
        Some(DropStep::InitGroups) => Some(DropStep::SetGid),
        Some(DropStep::SetGid) => Some(DropStep::SetUid),
        Some(DropStep::SetUid) => None,
    }
}

/// What is reported when a step fails.
pub open spec fn step_error(step: DropStep, ids: UserIdsV, error: Seq<char>) -> Seq<char> {
    match step {
        DropStep::InitGroups => "initgroups(gid="@ + decimal(ids.gid as nat) + "): "@ + error,
        DropStep::SetGid => "setgid("@ + decimal(ids.gid as nat) + "): "@ + error,
        DropStep::SetUid => "setuid("@ + decimal(ids.uid as nat) + "): "@ + error,
    }
}

/// What is reported when a step fails. Callers should treat any failure here
/// as fatal — staying as root despite an explicit `user` directive would be a
/// silent security regression.
pub fn step_failed(step: DropStep, ids: &UserIds, error: &str) -> (r: String)
    ensures
        r@ == step_error(step, ids@, error@),
{
    let mut m = (match step {
        DropStep::InitGroups => "initgroups(gid=",
        DropStep::SetGid => "setgid(",
        DropStep::SetUid => "setuid(",
    }).to_owned();
    let id: u32 = match step {
        DropStep::SetUid => ids.uid,
        _ => ids.gid,
    };
    push_decimal(&mut m, id as u64);
    m.append("): ");
    m.append(error);
    m
}

/// The soft limit to set, given the current soft and hard limits.
pub open spec fn soft_limit(target: u64, soft: u64, hard: u64) -> u64 {
    let want = if target < hard {
        target
    } else {
        hard
    };
    if soft >= want {
        soft
    } else {
        want
    }
}

/// Raise the *soft* `RLIMIT_NOFILE` to `target`, clamped to the current *hard*
/// limit (only root can raise the hard cap, and we don't try). Returns
/// `(old_soft, new_soft)`; when both are the same there is nothing to set.
pub fn raise_nofile(target: u64, soft: u64, hard: u64) -> (r: (u64, u64))
    ensures
        r == (soft, soft_limit(target, soft, hard)),
{
    let want: u64 = if target < hard { target } else { hard };
    if soft >= want {
        (soft, soft)
    } else {
        (soft, want)
    }
}

/// The soft limit is never lowered, and never raised above the hard limit or
/// above what was asked for.
pub proof fn law_soft_limit_only_rises(target: u64, soft: u64, hard: u64)
    ensures
        soft_limit(target, soft, hard) >= soft,
        soft_limit(target, soft, hard) > soft ==> soft_limit(target, soft, hard) <= hard
            && soft_limit(target, soft, hard) <= target,
        soft <= hard && target >= hard ==> soft_limit(target, soft, hard) == hard,
{
}

} // verus!
