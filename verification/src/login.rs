use vstd::prelude::*;

use crate::error::{InvalidLogin, LoginsError};
use crate::util;

verus! {

/// Sync state of an overlay row.
///
/// `Synced` marks a row identical to its mirror (clean), `Changed` a row the
/// server must still receive, `New` a row the server has never seen.
#[derive(Clone, Copy, PartialEq, Eq, Structural, Debug)]
pub enum SyncStatus {
    Synced,
    Changed,
    New,
}

/// How far a status is from clean; used to promote a row's status monotonically.
pub open spec fn status_rank(s: SyncStatus) -> int {
    match s {
        SyncStatus::Synced => 0,
        SyncStatus::Changed => 1,
        SyncStatus::New => 2,
    }
}

/// The dirtier of two statuses.
pub open spec fn spec_status_max(a: SyncStatus, b: SyncStatus) -> SyncStatus {
    if status_rank(a) >= status_rank(b) {
        a
    } else {
        b
    }
}

/// The dirtier of two statuses.
pub fn status_max(a: SyncStatus, b: SyncStatus) -> (r: SyncStatus)
    ensures
        r == spec_status_max(a, b),
{
    match (a, b) {
        (SyncStatus::New, _) => SyncStatus::New,
        (_, SyncStatus::New) => SyncStatus::New,
        (SyncStatus::Changed, _) => SyncStatus::Changed,
        (_, SyncStatus::Changed) => SyncStatus::Changed,
        _ => SyncStatus::Synced,
    }
}

/// A login record, as users see it.
pub struct Login {
    pub id: String,
    pub hostname: String,
    pub http_realm: Option<String>,
    pub form_submit_url: Option<String>,
    pub username: String,
    pub password: String,
    pub username_field: String,
    pub password_field: String,
    pub time_created: i64,
    pub time_last_used: i64,
    pub time_password_changed: i64,
    pub times_used: i64,
}

/// Mathematical image of a `Login`: strings as character sequences,
/// counters and timestamps as unbounded integers.
#[verifier::ext_equal]
pub struct LoginView {
    pub id: Seq<char>,
    pub hostname: Seq<char>,
    pub http_realm: Option<Seq<char>>,
    pub form_submit_url: Option<Seq<char>>,
    pub username: Seq<char>,
    pub password: Seq<char>,
    pub username_field: Seq<char>,
    pub password_field: Seq<char>,
    pub time_created: int,
    pub time_last_used: int,
    pub time_password_changed: int,
    pub times_used: int,
}

impl View for Login {
    type V = LoginView;

    open spec fn view(&self) -> LoginView {
        LoginView {
            id: self.id@,
            hostname: self.hostname@,
            http_realm: util::opt_seq(self.http_realm),
            form_submit_url: util::opt_seq(self.form_submit_url),
            username: self.username@,
            password: self.password@,
            username_field: self.username_field@,
            password_field: self.password_field@,
            time_created: self.time_created as int,
            time_last_used: self.time_last_used as int,
            time_password_changed: self.time_password_changed as int,
            times_used: self.times_used as int,
        }
    }
}

/// The seven fields a user edits; what two records must share to be "the
/// same record" for merge purposes. This reads "user-visible fields
/// excluding the usage counters" as exactly these seven: the creation and
/// password-change times are treated as metadata with merge rules of their
/// own, like the counters.
pub open spec fn content_eq(a: LoginView, b: LoginView) -> bool {
    &&& a.hostname == b.hostname
    &&& a.http_realm == b.http_realm
    &&& a.form_submit_url == b.form_submit_url
    &&& a.username == b.username
    &&& a.password == b.password
    &&& a.username_field == b.username_field
    &&& a.password_field == b.password_field
}

/// A record is valid when its hostname is an absolute URL, its password is
/// non-empty, and exactly one of `http_realm` and `form_submit_url` is present.
pub open spec fn valid_login(l: LoginView) -> bool {
    &&& util::url_ok(l.hostname)
    &&& l.password.len() > 0
    &&& (l.http_realm is Some <==> l.form_submit_url is None)
}

/// The first validity rule `l` breaks; meaningful only when `!valid_login(l)`.
pub open spec fn invalid_reason(l: LoginView) -> InvalidLogin {
    if !util::url_ok(l.hostname) {
        InvalidLogin::BadHostname
    } else if l.password.len() == 0 {
        InvalidLogin::EmptyPassword
    } else if l.http_realm is Some && l.form_submit_url is Some {
        InvalidLogin::BothTargets
    } else {
        InvalidLogin::NeitherTarget
    }
}

impl Login {
    /// Enforce the validity rules that precede every `add` and `update`.
    pub fn check_valid(&self) -> (r: Result<(), LoginsError>)
        ensures
            r is Ok <==> valid_login(self@),
            r is Err ==> r->Err_0 == LoginsError::InvalidLogin(invalid_reason(self@)),
    {
        if !util::url_parseable(self.hostname.as_str()) {
            Err(LoginsError::InvalidLogin(InvalidLogin::BadHostname))
        } else if self.password.as_str().is_empty() {
            Err(LoginsError::InvalidLogin(InvalidLogin::EmptyPassword))
        } else {
            match (&self.http_realm, &self.form_submit_url) {
                (Some(_), Some(_)) => Err(LoginsError::InvalidLogin(InvalidLogin::BothTargets)),
                (None, None) => Err(LoginsError::InvalidLogin(InvalidLogin::NeitherTarget)),
                _ => Ok(()),
            }
        }
    }

    /// A deep copy whose view equals this record's.
    pub fn clone_record(&self) -> (r: Login)
        ensures
            r@ == self@,
    {
        Login {
            id: self.id.clone(),
            hostname: self.hostname.clone(),
            http_realm: util::clone_opt_string(&self.http_realm),
            form_submit_url: util::clone_opt_string(&self.form_submit_url),
            username: self.username.clone(),
            password: self.password.clone(),
            username_field: self.username_field.clone(),
            password_field: self.password_field.clone(),
            time_created: self.time_created,
            time_last_used: self.time_last_used,
            time_password_changed: self.time_password_changed,
            times_used: self.times_used,
        }
    }
}

/// An overlay (local) row: a record with unsynced changes, or a tombstone.
pub struct LocalLogin {
    pub login: Login,
    pub local_modified: i64,
    pub is_deleted: bool,
    pub sync_status: SyncStatus,
}

/// Mathematical image of an overlay row.
#[verifier::ext_equal]
pub struct LocalLoginView {
    pub login: LoginView,
    pub local_modified: int,
    pub is_deleted: bool,
    pub sync_status: SyncStatus,
}

impl View for LocalLogin {
    type V = LocalLoginView;

    open spec fn view(&self) -> LocalLoginView {
        LocalLoginView {
            login: self.login@,
            local_modified: self.local_modified as int,
            is_deleted: self.is_deleted,
            sync_status: self.sync_status,
        }
    }
}

impl LocalLogin {
    /// A deep copy whose view equals this row's.
    pub fn clone_row(&self) -> (r: LocalLogin)
        ensures
            r@ == self@,
    {
        LocalLogin {
            login: self.login.clone_record(),
            local_modified: self.local_modified,
            is_deleted: self.is_deleted,
            sync_status: self.sync_status,
        }
    }
}

/// A mirror row: the copy of a record the server is known to hold.
pub struct MirrorLogin {
    pub login: Login,
    pub server_modified: i64,
    pub is_overridden: bool,
}

/// Mathematical image of a mirror row.
#[verifier::ext_equal]
pub struct MirrorLoginView {
    pub login: LoginView,
    pub server_modified: int,
    pub is_overridden: bool,
}

impl View for MirrorLogin {
    type V = MirrorLoginView;

    open spec fn view(&self) -> MirrorLoginView {
        MirrorLoginView {
            login: self.login@,
            server_modified: self.server_modified as int,
            is_overridden: self.is_overridden,
        }
    }
}

impl MirrorLogin {
    /// A deep copy whose view equals this row's.
    pub fn clone_row(&self) -> (r: MirrorLogin)
        ensures
            r@ == self@,
    {
        MirrorLogin {
            login: self.login.clone_record(),
            server_modified: self.server_modified,
            is_overridden: self.is_overridden,
        }
    }
}

/// A wire record: either a full login or a tombstone carrying only the GUID.
pub enum Payload {
    Record(Login),
    Tombstone(String),
}

/// Mathematical image of a `Payload`.
#[verifier::ext_equal]
pub enum PayloadView {
    Record(LoginView),
    Tombstone(Seq<char>),
}

impl View for Payload {
    type V = PayloadView;

    open spec fn view(&self) -> PayloadView {
        match self {
            Payload::Record(l) => PayloadView::Record(l@),
            Payload::Tombstone(id) => PayloadView::Tombstone(id@),
        }
    }
}

/// The GUID a payload speaks of.
pub open spec fn payload_guid(p: PayloadView) -> Seq<char> {
    match p {
        PayloadView::Record(l) => l.id,
        PayloadView::Tombstone(id) => id,
    }
}

impl Payload {
    /// The GUID this payload speaks of.
    pub fn guid(&self) -> (r: &String)
        ensures
            r@ == payload_guid(self@),
    {
        match self {
            Payload::Record(l) => &l.id,
            Payload::Tombstone(id) => id,
        }
    }

    /// A deep copy whose view equals this payload's.
    pub fn clone_payload(&self) -> (r: Payload)
        ensures
            r@ == self@,
    {
        match self {
            Payload::Record(l) => Payload::Record(l.clone_record()),
            Payload::Tombstone(id) => Payload::Tombstone(id.clone()),
        }
    }
}

/// One incoming record joined with whatever the store already holds for its
/// GUID: up to one mirror row and up to one overlay row.
pub struct SyncLoginData {
    pub guid: String,
    pub local: Option<LocalLogin>,
    pub mirror: Option<MirrorLogin>,
    /// `None` stands for an inbound tombstone.
    pub inbound: Option<Login>,
    pub inbound_ts: i64,
}

/// Mathematical image of a `SyncLoginData`.
#[verifier::ext_equal]
pub struct SyncDataView {
    pub guid: Seq<char>,
    pub local: Option<LocalLoginView>,
    pub mirror: Option<MirrorLoginView>,
    pub inbound: Option<LoginView>,
    pub inbound_ts: int,
}

impl View for SyncLoginData {
    type V = SyncDataView;

    open spec fn view(&self) -> SyncDataView {
        SyncDataView {
            guid: self.guid@,
            local: match self.local {
                Some(l) => Some(l@),
                None => None,
            },
            mirror: match self.mirror {
                Some(m) => Some(m@),
                None => None,
            },
            inbound: match self.inbound {
                Some(l) => Some(l@),
                None => None,
            },
            inbound_ts: self.inbound_ts as int,
        }
    }
}

impl SyncLoginData {
    /// Seed a slot from an inbound payload; the join fields start empty.
    pub fn from_payload(payload: Payload, ts: i64) -> (r: SyncLoginData)
        ensures
            r@.guid == payload_guid(payload@),
            r@.local is None,
            r@.mirror is None,
            r@.inbound == match payload@ {
                PayloadView::Record(l) => Some(l),
                PayloadView::Tombstone(_) => None::<LoginView>,
            },
            r@.inbound_ts == ts as int,
    {
        match payload {
            Payload::Record(l) => {
                let guid = l.id.clone();
                SyncLoginData { guid, local: None, mirror: None, inbound: Some(l), inbound_ts: ts }
            },
            Payload::Tombstone(id) => SyncLoginData {
                guid: id,
                local: None,
                mirror: None,
                inbound: None,
                inbound_ts: ts,
            },
        }
    }
}

} // verus!
