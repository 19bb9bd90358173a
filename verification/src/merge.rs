use vstd::prelude::*;

use crate::login::{content_eq, LocalLogin, LocalLoginView, Login, LoginView};
use crate::util;

verus! {

/// One field of a three-way merge: an unchanged side yields to the other;
/// when both sides changed, the later writer wins and ties go upstream.
pub open spec fn merge_field<T>(local: T, mirror: T, upstream: T, local_later: bool) -> T {
    if local == mirror {
        upstream
    } else if upstream == mirror {
        local
    } else if local_later {
        local
    } else {
        upstream
    }
}

/// `upstream.times_used` plus the local increment since the mirror copy,
/// floored at zero and saturated at the top of the signed 64-bit range.
pub open spec fn spec_merged_times_used(local: int, mirror: int, upstream: int) -> int {
    let delta = if local > mirror {
        local - mirror
    } else {
        0
    };
    if upstream + delta > i64::MAX as int {
        i64::MAX as int
    } else {
        upstream + delta
    }
}

/// `time_password_changed` of a merge: the timestamp of whichever side
/// actually changed the password against the mirror; the later one when both
/// did (or neither did).
pub open spec fn spec_merged_time_pw(
    local: LoginView,
    mirror: LoginView,
    upstream: LoginView,
) -> int {
    let local_changed = local.password != mirror.password;
    let upstream_changed = upstream.password != mirror.password;
    if local_changed && !upstream_changed {
        local.time_password_changed
    } else if upstream_changed && !local_changed {
        upstream.time_password_changed
    } else if local.time_password_changed >= upstream.time_password_changed {
        local.time_password_changed
    } else {
        upstream.time_password_changed
    }
}

/// Three-way merge of a record, mirror as the common ancestor. Each edited
/// field is merged on its own; the result keeps the upstream GUID and
/// creation time.
pub open spec fn spec_three_way_merge(
    local: LocalLoginView,
    mirror: LoginView,
    upstream: LoginView,
    upstream_time: int,
) -> LoginView {
    let later = local.local_modified > upstream_time;
    let l = local.login;
    LoginView {
        id: upstream.id,
        hostname: merge_field(l.hostname, mirror.hostname, upstream.hostname, later),
        http_realm: merge_field(l.http_realm, mirror.http_realm, upstream.http_realm, later),
        form_submit_url: merge_field(
            l.form_submit_url,
            mirror.form_submit_url,
            upstream.form_submit_url,
            later,
        ),
        username: merge_field(l.username, mirror.username, upstream.username, later),
        password: merge_field(l.password, mirror.password, upstream.password, later),
        username_field: merge_field(
            l.username_field,
            mirror.username_field,
            upstream.username_field,
            later,
        ),
        password_field: merge_field(
            l.password_field,
            mirror.password_field,
            upstream.password_field,
            later,
        ),
        time_created: upstream.time_created,
        time_last_used: if l.time_last_used >= upstream.time_last_used {
            l.time_last_used
        } else {
            upstream.time_last_used
        },
        time_password_changed: spec_merged_time_pw(l, mirror, upstream),
        times_used: spec_merged_times_used(l.times_used, mirror.times_used, upstream.times_used),
    }
}

/// In a merge with no shared parent every field counts as changed on both
/// sides, so the per-field rule collapses to one comparison: the overlay
/// row's modification time against the record's upstream time, ties to
/// upstream.
pub open spec fn two_way_local_wins(local: LocalLoginView, upstream_time: int) -> bool {
    local.local_modified > upstream_time
}

/// Two-way merge: the per-field three-way rule without the mirror arm. The
/// later writer's content, under the upstream GUID; the usage numbers and
/// the password-change time take the larger side, both sides counting as
/// having changed them.
pub open spec fn spec_two_way_merge(
    local: LocalLoginView,
    upstream: LoginView,
    upstream_time: int,
) -> LoginView {
    let w = if two_way_local_wins(local, upstream_time) {
        local.login
    } else {
        upstream
    };
    let l = local.login;
    LoginView {
        id: upstream.id,
        hostname: w.hostname,
        http_realm: w.http_realm,
        form_submit_url: w.form_submit_url,
        username: w.username,
        password: w.password,
        username_field: w.username_field,
        password_field: w.password_field,
        time_created: w.time_created,
        time_last_used: if l.time_last_used >= upstream.time_last_used {
            l.time_last_used
        } else {
            upstream.time_last_used
        },
        time_password_changed: if l.time_password_changed >= upstream.time_password_changed {
            l.time_password_changed
        } else {
            upstream.time_password_changed
        },
        times_used: if l.times_used >= upstream.times_used {
            l.times_used
        } else {
            upstream.times_used
        },
    }
}

/// One merged string field.
fn merge_string_field(local: &String, mirror: &String, upstream: &String, local_later: bool) -> (r:
    String)
    ensures
        r@ == merge_field(local@, mirror@, upstream@, local_later),
{
    if *local == *mirror {
        upstream.clone()
    } else if *upstream == *mirror {
        local.clone()
    } else if local_later {
        local.clone()
    } else {
        upstream.clone()
    }
}

/// One merged optional string field.
fn merge_opt_field(
    local: &Option<String>,
    mirror: &Option<String>,
    upstream: &Option<String>,
    local_later: bool,
) -> (r: Option<String>)
    ensures
        util::opt_seq(r) == merge_field(
            util::opt_seq(*local),
            util::opt_seq(*mirror),
            util::opt_seq(*upstream),
            local_later,
        ),
{
    if util::opt_string_eq(local, mirror) {
        util::clone_opt_string(upstream)
    } else if util::opt_string_eq(upstream, mirror) {
        util::clone_opt_string(local)
    } else if local_later {
        util::clone_opt_string(local)
    } else {
        util::clone_opt_string(upstream)
    }
}

/// Three-way merge of `local` against `upstream` with `mirror` as ancestor.
pub fn three_way_merge(
    local: &LocalLogin,
    mirror: &Login,
    upstream: &Login,
    upstream_time: i64,
) -> (r: Login)
    ensures
        r@ == spec_three_way_merge(local@, mirror@, upstream@, upstream_time as int),
{
    let later = local.local_modified > upstream_time;
    let l = &local.login;

    let local_changed = !(l.password == mirror.password);
    let upstream_changed = !(upstream.password == mirror.password);
    let time_pw: i64 = if local_changed && !upstream_changed {
        l.time_password_changed
    } else if upstream_changed && !local_changed {
        upstream.time_password_changed
    } else {
        util::max_i64(l.time_password_changed, upstream.time_password_changed)
    };

    let lu: i128 = l.times_used as i128;
    let mu: i128 = mirror.times_used as i128;
    let uu: i128 = upstream.times_used as i128;
    let delta: i128 = if lu > mu {
        lu - mu
    } else {
        0
    };
    let sum: i128 = uu + delta;
    let times_used: i64 = if sum > i64::MAX as i128 {
        i64::MAX
    } else {
        sum as i64
    };

    Login {
        id: upstream.id.clone(),
        hostname: merge_string_field(&l.hostname, &mirror.hostname, &upstream.hostname, later),
        http_realm: merge_opt_field(&l.http_realm, &mirror.http_realm, &upstream.http_realm, later),
        form_submit_url: merge_opt_field(
            &l.form_submit_url,
            &mirror.form_submit_url,
            &upstream.form_submit_url,
            later,
        ),
        username: merge_string_field(&l.username, &mirror.username, &upstream.username, later),
        password: merge_string_field(&l.password, &mirror.password, &upstream.password, later),
        username_field: merge_string_field(
            &l.username_field,
            &mirror.username_field,
            &upstream.username_field,
            later,
        ),
        password_field: merge_string_field(
            &l.password_field,
            &mirror.password_field,
            &upstream.password_field,
            later,
        ),
        time_created: upstream.time_created,
        time_last_used: util::max_i64(l.time_last_used, upstream.time_last_used),
        time_password_changed: time_pw,
        times_used,
    }
}

/// Two-way merge of `local` against `upstream`, no shared parent.
pub fn two_way_merge(local: &LocalLogin, upstream: &Login, upstream_time: i64) -> (r: Login)
    ensures
        r@ == spec_two_way_merge(local@, upstream@, upstream_time as int),
{
    let local_wins = local.local_modified > upstream_time;
    let w = if local_wins {
        &local.login
    } else {
        upstream
    };
    let l = &local.login;
    Login {
        id: upstream.id.clone(),
        hostname: w.hostname.clone(),
        http_realm: util::clone_opt_string(&w.http_realm),
        form_submit_url: util::clone_opt_string(&w.form_submit_url),
        username: w.username.clone(),
        password: w.password.clone(),
        username_field: w.username_field.clone(),
        password_field: w.password_field.clone(),
        time_created: w.time_created,
        time_last_used: util::max_i64(l.time_last_used, upstream.time_last_used),
        time_password_changed: util::max_i64(
            l.time_password_changed,
            upstream.time_password_changed,
        ),
        times_used: util::max_i64(l.times_used, upstream.times_used),
    }
}

/// Whether two records agree on every user-edited field.
pub fn logins_content_eq(a: &Login, b: &Login) -> (r: bool)
    ensures
        r == content_eq(a@, b@),
{
    a.hostname == b.hostname && util::opt_string_eq(&a.http_realm, &b.http_realm)
        && util::opt_string_eq(&a.form_submit_url, &b.form_submit_url) && a.username == b.username
        && a.password == b.password && a.username_field == b.username_field
        && a.password_field == b.password_field
}

} // verus!
