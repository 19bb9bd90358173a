use vstd::prelude::*;

use crate::error::LoginsError;
use crate::login::{
    content_eq, invalid_reason, valid_login, payload_guid, Payload, PayloadView, SyncDataView,
    SyncLoginData, LocalLogin, LocalLoginView, Login, LoginView, MirrorLogin,
    MirrorLoginView, SyncStatus,
};
use crate::update_plan::{
    spec_plan_three_way, spec_plan_two_way, ActionView, PlanAction, UpdatePlan,
};
use crate::util;

verus! {

/// The store: the overlay table (`local`), the mirror table, and the two
/// sync-meta values. Rows are keyed by GUID; each table holds at most one
/// row per GUID.
pub struct LoginDb {
    local: Vec<LocalLogin>,
    mirror: Vec<MirrorLogin>,
    last_sync_ms: Option<i64>,
    global_state: Option<String>,
}

/// Mathematical image of the store.
#[verifier::ext_equal]
pub struct DbView {
    pub local: Seq<LocalLoginView>,
    pub mirror: Seq<MirrorLoginView>,
    pub last_sync_ms: Option<int>,
    pub global_state: Option<Seq<char>>,
}

impl View for LoginDb {
    type V = DbView;

    closed spec fn view(&self) -> DbView {
        DbView {
            local: self.local@.map_values(|r: LocalLogin| r@),
            mirror: self.mirror@.map_values(|r: MirrorLogin| r@),
            last_sync_ms: match self.last_sync_ms {
                Some(t) => Some(t as int),
                None => None,
            },
            global_state: util::opt_seq(self.global_state),
        }
    }
}

/// Some overlay row carries this GUID.
pub open spec fn has_local(s: Seq<LocalLoginView>, g: Seq<char>) -> bool {
    exists|i: int| 0 <= i < s.len() && (#[trigger] s[i]).login.id == g
}

/// The index of the overlay row with this GUID; meaningful under `has_local`.
pub open spec fn local_index(s: Seq<LocalLoginView>, g: Seq<char>) -> int {
    choose|i: int| 0 <= i < s.len() && (#[trigger] s[i]).login.id == g
}

/// The overlay row with this GUID; meaningful under `has_local`.
pub open spec fn local_at(s: Seq<LocalLoginView>, g: Seq<char>) -> LocalLoginView {
    s[local_index(s, g)]
}

/// Some mirror row carries this GUID.
pub open spec fn has_mirror(s: Seq<MirrorLoginView>, g: Seq<char>) -> bool {
    exists|i: int| 0 <= i < s.len() && (#[trigger] s[i]).login.id == g
}

/// The index of the mirror row with this GUID; meaningful under `has_mirror`.
pub open spec fn mirror_index(s: Seq<MirrorLoginView>, g: Seq<char>) -> int {
    choose|i: int| 0 <= i < s.len() && (#[trigger] s[i]).login.id == g
}

/// The mirror row with this GUID; meaningful under `has_mirror`.
pub open spec fn mirror_at(s: Seq<MirrorLoginView>, g: Seq<char>) -> MirrorLoginView {
    s[mirror_index(s, g)]
}

/// No two overlay rows share a GUID.
pub open spec fn unique_local(s: Seq<LocalLoginView>) -> bool {
    forall|i: int, j: int|
        0 <= i < j < s.len() ==> (#[trigger] s[i]).login.id != (#[trigger] s[j]).login.id
}

/// No two mirror rows share a GUID.
pub open spec fn unique_mirror(s: Seq<MirrorLoginView>) -> bool {
    forall|i: int, j: int|
        0 <= i < j < s.len() ==> (#[trigger] s[i]).login.id != (#[trigger] s[j]).login.id
}

/// The store invariants that hold after every committed call: at most one
/// row per GUID in either table; a mirror row that shares its GUID with an
/// overlay row is overridden; a `New` overlay row has no mirror row.
pub open spec fn db_wf(db: DbView) -> bool {
    &&& unique_local(db.local)
    &&& unique_mirror(db.mirror)
    &&& forall|i: int|
        0 <= i < db.local.len() && has_mirror(db.mirror, (#[trigger] db.local[i]).login.id)
            ==> mirror_at(db.mirror, db.local[i].login.id).is_overridden
    &&& forall|i: int|
        0 <= i < db.local.len() && (#[trigger] db.local[i]).sync_status == SyncStatus::New
            ==> !has_mirror(db.mirror, db.local[i].login.id)
}

/// A GUID is visible when its overlay row is live, or, with no overlay row
/// at all, when its mirror row is not overridden.
pub open spec fn spec_visible(db: DbView, g: Seq<char>) -> bool {
    if has_local(db.local, g) {
        !local_at(db.local, g).is_deleted
    } else {
        has_mirror(db.mirror, g) && !mirror_at(db.mirror, g).is_overridden
    }
}

/// The record a read of `g` yields: the live overlay row first, else the
/// non-overridden mirror row.
pub open spec fn spec_get_by_id(db: DbView, g: Seq<char>) -> Option<LoginView> {
    if has_local(db.local, g) {
        if !local_at(db.local, g).is_deleted {
            Some(local_at(db.local, g).login)
        } else {
            None
        }
    } else if has_mirror(db.mirror, g) && !mirror_at(db.mirror, g).is_overridden {
        Some(mirror_at(db.mirror, g).login)
    } else {
        None
    }
}

/// The live overlay records, in table order.
pub open spec fn visible_locals(s: Seq<LocalLoginView>) -> Seq<LoginView>
    decreases s.len(),
{
    if s.len() == 0 {
        Seq::empty()
    } else {
        let rest = visible_locals(s.drop_last());
        if !s.last().is_deleted {
            rest.push(s.last().login)
        } else {
            rest
        }
    }
}

/// The non-overridden mirror records, in table order.
pub open spec fn visible_mirrors(s: Seq<MirrorLoginView>) -> Seq<LoginView>
    decreases s.len(),
{
    if s.len() == 0 {
        Seq::empty()
    } else {
        let rest = visible_mirrors(s.drop_last());
        if !s.last().is_overridden {
            rest.push(s.last().login)
        } else {
            rest
        }
    }
}

/// Everything a full read yields: live overlay records, then non-overridden
/// mirror records.
pub open spec fn spec_get_all(db: DbView) -> Seq<LoginView> {
    visible_locals(db.local) + visible_mirrors(db.mirror)
}

/// The views of a sequence of records.
pub open spec fn logins_view(s: Seq<Login>) -> Seq<LoginView> {
    s.map_values(|l: Login| l@)
}

impl LoginDb {
    /// The store invariants, over this store's view.
    pub open spec fn wf(&self) -> bool {
        db_wf(self@)
    }

    /// An empty store.
    pub fn new() -> (r: LoginDb)
        ensures
            r.wf(),
            r@.local == Seq::<LocalLoginView>::empty(),
            r@.mirror == Seq::<MirrorLoginView>::empty(),
            r@.last_sync_ms is None,
            r@.global_state is None,
    {
        let r = LoginDb { local: Vec::new(), mirror: Vec::new(), last_sync_ms: None, global_state: None };
        proof {
            assert(r@.local =~= Seq::<LocalLoginView>::empty());
            assert(r@.mirror =~= Seq::<MirrorLoginView>::empty());
        }
        r
    }

    /// Index of the overlay row for `id`, if one exists.
    fn find_local_idx(&self, id: &str) -> (r: Option<usize>)
        ensures
            match r {
                Some(i) => i < self@.local.len() && self@.local[i as int].login.id == id@ && (
                forall|j: int| 0 <= j < i ==> (#[trigger] self@.local[j]).login.id != id@),
                None => !has_local(self@.local, id@),
            },
    {
        let n = self.local.len();
        for i in 0..n
            invariant
                n == self.local.len(),
                forall|j: int| 0 <= j < i ==> (#[trigger] self@.local[j]).login.id != id@,
        {
            if util::str_eq(self.local[i].login.id.as_str(), id) {
                return Some(i);
            }
        }
        None
    }

    /// Index of the mirror row for `id`, if one exists.
    fn find_mirror_idx(&self, id: &str) -> (r: Option<usize>)
        ensures
            match r {
                Some(i) => i < self@.mirror.len() && self@.mirror[i as int].login.id == id@ && (
                forall|j: int| 0 <= j < i ==> (#[trigger] self@.mirror[j]).login.id != id@),
                None => !has_mirror(self@.mirror, id@),
            },
    {
        let n = self.mirror.len();
        for i in 0..n
            invariant
                n == self.mirror.len(),
                forall|j: int| 0 <= j < i ==> (#[trigger] self@.mirror[j]).login.id != id@,
        {
            if util::str_eq(self.mirror[i].login.id.as_str(), id) {
                return Some(i);
            }
        }
        None
    }

    /// Whether any row, overlay or mirror, is visible for `id`.
    pub fn record_exists(&self, id: &str) -> (r: Result<bool, LoginsError>)
        requires
            self.wf(),
        ensures
            r is Ok,
            r->Ok_0 == spec_visible(self@, id@),
    {
        proof {
            lemma_local_index_agrees(self@.local, id@);
            lemma_mirror_index_agrees(self@.mirror, id@);
        }
        match self.find_local_idx(id) {
            Some(i) => Ok(!self.local[i].is_deleted),
            None => match self.find_mirror_idx(id) {
                Some(i) => Ok(!self.mirror[i].is_overridden),
                None => Ok(false),
            },
        }
    }

    /// Read one record: the live overlay row, else the non-overridden mirror
    /// row, else nothing.
    pub fn get_by_id(&self, id: &str) -> (r: Result<Option<Login>, LoginsError>)
        requires
            self.wf(),
        ensures
            r is Ok,
            match r->Ok_0 {
                Some(l) => spec_get_by_id(self@, id@) == Some(l@),
                None => spec_get_by_id(self@, id@) is None,
            },
    {
        proof {
            lemma_local_index_agrees(self@.local, id@);
            lemma_mirror_index_agrees(self@.mirror, id@);
        }
        match self.find_local_idx(id) {
            Some(i) => {
                if self.local[i].is_deleted {
                    Ok(None)
                } else {
                    Ok(Some(self.local[i].login.clone_record()))
                }
            },
            None => match self.find_mirror_idx(id) {
                Some(i) => {
                    if self.mirror[i].is_overridden {
                        Ok(None)
                    } else {
                        Ok(Some(self.mirror[i].login.clone_record()))
                    }
                },
                None => Ok(None),
            },
        }
    }

    /// Read every visible record: live overlay rows, then non-overridden
    /// mirror rows.
    pub fn get_all(&self) -> (r: Result<Vec<Login>, LoginsError>)
        ensures
            r is Ok,
            logins_view(r->Ok_0@) == spec_get_all(self@),
    {
        let mut out: Vec<Login> = Vec::new();
        let n = self.local.len();
        proof {
            assert(logins_view(out@) =~= visible_locals(self@.local.subrange(0, 0)));
        }
        for i in 0..n
            invariant
                n == self.local.len(),
                logins_view(out@) == visible_locals(self@.local.subrange(0, i as int)),
        {
            let ghost pre = out@;
            if !self.local[i].is_deleted {
                out.push(self.local[i].login.clone_record());
            }
            proof {
                assert(self@.local.subrange(0, i + 1).drop_last() =~= self@.local.subrange(
                    0,
                    i as int,
                ));
                assert(self@.local.subrange(0, i + 1).last() == self@.local[i as int]);
                if !self@.local[i as int].is_deleted {
                    assert(logins_view(out@) =~= logins_view(pre).push(
                        self@.local[i as int].login,
                    ));
                } else {
                    assert(logins_view(out@) =~= logins_view(pre));
                }
            }
        }
        proof {
            assert(self@.local.subrange(0, n as int) =~= self@.local);
        }
        let ghost lpart = logins_view(out@);
        let m = self.mirror.len();
        proof {
            assert(logins_view(out@) =~= lpart + visible_mirrors(self@.mirror.subrange(0, 0)));
        }
        for i in 0..m
            invariant
                m == self.mirror.len(),
                logins_view(out@) == lpart + visible_mirrors(self@.mirror.subrange(0, i as int)),
        {
            let ghost pre = out@;
            if !self.mirror[i].is_overridden {
                out.push(self.mirror[i].login.clone_record());
            }
            proof {
                assert(self@.mirror.subrange(0, i + 1).drop_last() =~= self@.mirror.subrange(
                    0,
                    i as int,
                ));
                assert(self@.mirror.subrange(0, i + 1).last() == self@.mirror[i as int]);
                if !self@.mirror[i as int].is_overridden {
                    assert(logins_view(out@) =~= logins_view(pre).push(
                        self@.mirror[i as int].login,
                    ));
                } else {
                    assert(logins_view(out@) =~= logins_view(pre));
                }
            }
        }
        proof {
            assert(self@.mirror.subrange(0, m as int) =~= self@.mirror);
        }
        Ok(out)
    }
}

/// Under uniqueness, an overlay row found at `i` is the row `local_index`
/// picks.
pub proof fn lemma_local_index_agrees(s: Seq<LocalLoginView>, g: Seq<char>)
    ensures
        forall|i: int|
            0 <= i < s.len() && unique_local(s) && (#[trigger] s[i]).login.id == g ==> local_index(
                s,
                g,
            ) == i,
{
    assert forall|i: int|
        0 <= i < s.len() && unique_local(s) && (#[trigger] s[i]).login.id == g implies local_index(
        s,
        g,
    ) == i by {
        assert(has_local(s, g));
        let k = local_index(s, g);
        assert(0 <= k < s.len() && s[k].login.id == g);
        if k != i {
            if k < i {
                assert(s[k].login.id != s[i].login.id);
            } else {
                assert(s[i].login.id != s[k].login.id);
            }
        }
    }
}

/// Under uniqueness, a mirror row found at `i` is the row `mirror_index`
/// picks.
pub proof fn lemma_mirror_index_agrees(s: Seq<MirrorLoginView>, g: Seq<char>)
    ensures
        forall|i: int|
            0 <= i < s.len() && unique_mirror(s) && (#[trigger] s[i]).login.id == g
                ==> mirror_index(s, g) == i,
{
    assert forall|i: int|
        0 <= i < s.len() && unique_mirror(s) && (#[trigger] s[i]).login.id == g
        implies mirror_index(s, g) == i by {
        assert(has_mirror(s, g));
        let k = mirror_index(s, g);
        assert(0 <= k < s.len() && s[k].login.id == g);
        if k != i {
            if k < i {
                assert(s[k].login.id != s[i].login.id);
            } else {
                assert(s[i].login.id != s[k].login.id);
            }
        }
    }
}

/// The metadata `add` stamps on a record: creation, last-use and
/// password-change times all `now`, one use.
pub open spec fn added_login(l: LoginView, now: int) -> LoginView {
    LoginView {
        time_created: now,
        time_last_used: now,
        time_password_changed: now,
        times_used: 1,
        ..l
    }
}

/// The overlay row `add` inserts: a live `New` row modified `now`.
pub open spec fn added_row(l: LoginView, now: int) -> LocalLoginView {
    LocalLoginView {
        login: added_login(l, now),
        local_modified: now,
        is_deleted: false,
        sync_status: SyncStatus::New,
    }
}

/// `add` succeeds exactly on a valid record whose GUID no row carries yet.
pub open spec fn add_ok(db: DbView, l: LoginView) -> bool {
    &&& valid_login(l)
    &&& !has_local(db.local, l.id)
    &&& !has_mirror(db.mirror, l.id)
}

/// The store after a successful `add`.
pub open spec fn spec_add(db: DbView, l: LoginView, now: int) -> DbView {
    DbView { local: db.local.push(added_row(l, now)), ..db }
}

/// A record with its GUID replaced.
pub open spec fn login_with_id(l: LoginView, id: Seq<char>) -> LoginView {
    LoginView { id, ..l }
}

/// The overlay row a mirror row is cloned to when a local edit needs one:
/// same record, clean status, no local modification time yet.
pub open spec fn mirror_clone_row(m: MirrorLoginView) -> LocalLoginView {
    LocalLoginView {
        login: m.login,
        local_modified: 0,
        is_deleted: false,
        sync_status: SyncStatus::Synced,
    }
}

/// The overlay table once a row for `g` is guaranteed: unchanged if one
/// exists, else the mirror row cloned in. Meaningful when either table has
/// `g`.
pub open spec fn ensured_local(db: DbView, g: Seq<char>) -> Seq<LocalLoginView> {
    if has_local(db.local, g) {
        db.local
    } else {
        db.local.push(mirror_clone_row(mirror_at(db.mirror, g)))
    }
}

/// The mirror table with the row for `g`, if any, marked overridden.
pub open spec fn overridden_mirror(s: Seq<MirrorLoginView>, g: Seq<char>) -> Seq<MirrorLoginView> {
    if has_mirror(s, g) {
        s.update(
            mirror_index(s, g),
            MirrorLoginView { is_overridden: true, ..mirror_at(s, g) },
        )
    } else {
        s
    }
}

/// An overlay row after `update` writes `l` over it: edited fields from `l`,
/// usage bumped, password-change time kept unless the password moved, status
/// promoted to at least `Changed`.
pub open spec fn updated_row(row: LocalLoginView, l: LoginView, now: int) -> LocalLoginView {
    LocalLoginView {
        login: LoginView {
            id: row.login.id,
            hostname: l.hostname,
            http_realm: l.http_realm,
            form_submit_url: l.form_submit_url,
            username: l.username,
            password: l.password,
            username_field: l.username_field,
            password_field: l.password_field,
            time_created: row.login.time_created,
            time_last_used: now,
            time_password_changed: if row.login.password == l.password {
                row.login.time_password_changed
            } else {
                now
            },
            times_used: util::spec_saturating_inc(row.login.times_used),
        },
        local_modified: now,
        is_deleted: row.is_deleted,
        sync_status: crate::login::spec_status_max(row.sync_status, SyncStatus::Changed),
    }
}

/// `update` and `touch` succeed exactly when some row carries the GUID
/// (`update` also asks for a valid record).
pub open spec fn update_ok(db: DbView, l: LoginView) -> bool {
    valid_login(l) && (has_local(db.local, l.id) || has_mirror(db.mirror, l.id))
}

/// The store after a successful `update`.
pub open spec fn spec_update(db: DbView, l: LoginView, now: int) -> DbView {
    let local0 = ensured_local(db, l.id);
    let i = local_index(local0, l.id);
    DbView {
        local: local0.update(i, updated_row(local0[i], l, now)),
        mirror: overridden_mirror(db.mirror, l.id),
        ..db
    }
}

/// An overlay row after `touch`: a live row gets a new last-use and local
/// modification time and one more use; a tombstone is left alone. The sync
/// status never moves.
pub open spec fn touched_row(row: LocalLoginView, now: int) -> LocalLoginView {
    if row.is_deleted {
        row
    } else {
        LocalLoginView {
            login: LoginView {
                time_last_used: now,
                times_used: util::spec_saturating_inc(row.login.times_used),
                ..row.login
            },
            local_modified: now,
            ..row
        }
    }
}

/// The store after a successful `touch`.
pub open spec fn spec_touch(db: DbView, g: Seq<char>, now: int) -> DbView {
    let local0 = ensured_local(db, g);
    let i = local_index(local0, g);
    DbView {
        local: local0.update(i, touched_row(local0[i], now)),
        mirror: overridden_mirror(db.mirror, g),
        ..db
    }
}

impl LoginDb {
    /// Insert a new record at clock `now_ms`: validity checked, metadata
    /// stamped, stored as a `New` overlay row. Fails with `DuplicateGuid`
    /// when any row already carries the GUID, and the store is unchanged.
    pub fn add_at(&mut self, login: Login, now_ms: i64) -> (r: Result<Login, LoginsError>)
        requires
            old(self).wf(),
            now_ms >= 0,
        ensures
            final(self).wf(),
            r is Ok <==> add_ok(old(self)@, login@),
            r is Ok ==> final(self)@ == spec_add(old(self)@, login@, now_ms as int) && r->Ok_0@
                == added_login(login@, now_ms as int),
            r is Err ==> final(self)@ == old(self)@,
            !valid_login(login@) ==> r == Err::<Login, LoginsError>(
                LoginsError::InvalidLogin(invalid_reason(login@)),
            ),
            valid_login(login@) && !add_ok(old(self)@, login@) ==> (r matches Err(
                LoginsError::DuplicateGuid(g),
            ) && g@ == login@.id),
    {
        if let Err(e) = login.check_valid() {
            return Err(e);
        }
        let dup = match self.find_local_idx(login.id.as_str()) {
            Some(_) => true,
            None => match self.find_mirror_idx(login.id.as_str()) {
                Some(_) => true,
                None => false,
            },
        };
        if dup {
            return Err(LoginsError::DuplicateGuid(login.id));
        }
        let ghost lv = login@;
        let ghost pre = self@;
        let mut stored = login;
        stored.time_created = now_ms;
        stored.time_last_used = now_ms;
        stored.time_password_changed = now_ms;
        stored.times_used = 1;
        proof {
            assert(stored@ =~= added_login(lv, now_ms as int));
        }
        let row = LocalLogin {
            login: stored.clone_record(),
            local_modified: now_ms,
            is_deleted: false,
            sync_status: SyncStatus::New,
        };
        proof {
            assert(row@ =~= added_row(lv, now_ms as int));
        }
        let ghost rowv = row@;
        self.local.push(row);
        proof {
            assert(self@.local =~= pre.local.push(rowv));
            assert(self@ =~= spec_add(pre, lv, now_ms as int));
            let s2 = self@.local;
            assert forall|i: int, j: int| 0 <= i < j < s2.len() implies (#[trigger] s2[i]).login.id
                != (#[trigger] s2[j]).login.id by {
                if j < pre.local.len() {
                    assert(pre.local[i].login.id != pre.local[j].login.id);
                } else {
                    assert(s2[j].login.id == lv.id);
                    assert(s2[i] == pre.local[i]);
                }
            }
            assert forall|i: int|
                0 <= i < s2.len() && has_mirror(self@.mirror, (#[trigger] s2[i]).login.id)
                implies mirror_at(self@.mirror, s2[i].login.id).is_overridden by {
                if i < pre.local.len() {
                    assert(pre.local[i] == s2[i]);
                } else {
                    assert(s2[i].login.id == lv.id);
                    assert(!has_mirror(pre.mirror, lv.id));
                }
            }
            assert forall|i: int|
                0 <= i < s2.len() && (#[trigger] s2[i]).sync_status == SyncStatus::New
                implies !has_mirror(self@.mirror, s2[i].login.id) by {
                if i < pre.local.len() {
                    assert(pre.local[i] == s2[i]);
                }
            }
        }
        Ok(stored)
    }

    /// Insert a new record at the system clock; an empty GUID is replaced by
    /// a fresh twelve-character random one first.
    pub fn add(&mut self, login: Login) -> (r: Result<Login, LoginsError>)
        requires
            old(self).wf(),
        ensures
            final(self).wf(),
            !valid_login(login@) ==> r == Err::<Login, LoginsError>(
                LoginsError::InvalidLogin(invalid_reason(login@)),
            ) && final(self)@ == old(self)@,
            r is Err ==> final(self)@ == old(self)@,
            r is Ok ==> {
                let stored = r->Ok_0@;
                &&& content_eq(stored, login@)
                &&& (login@.id.len() > 0 ==> stored.id == login@.id)
                &&& (login@.id.len() == 0 ==> stored.id.len() == 12)
                &&& exists|now: int|
                    0 <= now && stored == added_login(login_with_id(login@, stored.id), now)
                        && final(self)@ == spec_add(
                        old(self)@,
                        login_with_id(login@, stored.id),
                        now,
                    )
            },
            valid_login(login@) && login@.id.len() > 0 && !add_ok(old(self)@, login@) ==> (
            r matches Err(LoginsError::DuplicateGuid(g)) && g@ == login@.id),
            valid_login(login@) && login@.id.len() > 0 && add_ok(old(self)@, login@) ==> r is Ok,
            valid_login(login@) && login@.id.len() == 0 && r is Err ==> (r matches Err(
                LoginsError::DuplicateGuid(g),
            ) && (has_local(old(self)@.local, g@) || has_mirror(old(self)@.mirror, g@))),
    {
        let now = util::now_ms();
        let ghost lv = login@;
        let mut login = login;
        if login.id.as_str().is_empty() {
            let bytes = util::random_bytes_9();
            login.id = util::b64url_no_pad(&bytes);
        }
        proof {
            assert(login@ =~= login_with_id(lv, login@.id));
            if lv.id.len() > 0 {
                assert(login@ =~= lv);
            }
        }
        let r = self.add_at(login, now);
        proof {
            if r is Ok {
                assert(content_eq(r->Ok_0@, lv));
            }
        }
        r
    }
}

/// Facts about marking the mirror row for `g` overridden: length and GUIDs
/// are untouched, only that row's flag moves.
pub proof fn lemma_mirror_override_at(s: Seq<MirrorLoginView>, g: Seq<char>)
    requires
        unique_mirror(s),
    ensures
        overridden_mirror(s, g).len() == s.len(),
        forall|i: int|
            0 <= i < s.len() ==> (#[trigger] overridden_mirror(s, g)[i]).login.id == s[i].login.id,
        unique_mirror(overridden_mirror(s, g)),
        forall|h: Seq<char>| #[trigger] has_mirror(overridden_mirror(s, g), h) <==> has_mirror(s, h),
        has_mirror(s, g) ==> mirror_at(overridden_mirror(s, g), g) == (MirrorLoginView {
            is_overridden: true,
            ..mirror_at(s, g)
        }),
        forall|h: Seq<char>|
            h != g && #[trigger] has_mirror(s, h) ==> mirror_at(overridden_mirror(s, g), h)
                == mirror_at(s, h),
{
    let s2 = overridden_mirror(s, g);
    if has_mirror(s, g) {
        let k = mirror_index(s, g);
        assert(0 <= k < s.len() && s[k].login.id == g);
        assert(s2 == s.update(k, MirrorLoginView { is_overridden: true, ..mirror_at(s, g) }));
        assert forall|i: int| 0 <= i < s.len() implies (#[trigger] s2[i]).login.id
            == s[i].login.id by {
            if i == k {
            }
        }
        assert forall|i: int, j: int| 0 <= i < j < s2.len() implies (#[trigger] s2[i]).login.id
            != (#[trigger] s2[j]).login.id by {
            assert(s[i].login.id != s[j].login.id);
        }
        assert forall|h: Seq<char>| #[trigger] has_mirror(s2, h) <==> has_mirror(s, h) by {
            if has_mirror(s2, h) {
                let i = mirror_index(s2, h);
                assert(s[i].login.id == h);
            }
            if has_mirror(s, h) {
                let i = mirror_index(s, h);
                assert(s2[i].login.id == h);
            }
        }
        lemma_mirror_index_agrees(s2, g);
        assert(s2[k].login.id == g);
        assert(mirror_at(s2, g) == s2[k]);
        assert forall|h: Seq<char>| h != g && #[trigger] has_mirror(s, h) implies mirror_at(
            s2,
            h,
        ) == mirror_at(s, h) by {
            let i = mirror_index(s, h);
            assert(0 <= i < s.len() && s[i].login.id == h);
            assert(i != k);
            assert(s2[i] == s[i]);
            lemma_mirror_index_agrees(s2, h);
            assert(mirror_index(s2, h) == i);
        }
    } else {
        assert(s2 == s);
    }
}

/// Rewriting one overlay row in place keeps the invariants, provided the
/// GUID stays and the row only claims `New` when it already was.
pub proof fn lemma_wf_row_rewrite(db: DbView, i: int, row: LocalLoginView)
    requires
        db_wf(db),
        0 <= i < db.local.len(),
        row.login.id == db.local[i].login.id,
        row.sync_status == SyncStatus::New ==> db.local[i].sync_status == SyncStatus::New,
    ensures
        db_wf(DbView { local: db.local.update(i, row), ..db }),
{
    let s2 = db.local.update(i, row);
    assert forall|a: int, b: int| 0 <= a < b < s2.len() implies (#[trigger] s2[a]).login.id
        != (#[trigger] s2[b]).login.id by {
        assert(db.local[a].login.id != db.local[b].login.id);
    }
    assert forall|a: int|
        0 <= a < s2.len() && has_mirror(db.mirror, (#[trigger] s2[a]).login.id) implies mirror_at(
        db.mirror,
        s2[a].login.id,
    ).is_overridden by {
        assert(s2[a].login.id == db.local[a].login.id);
    }
    assert forall|a: int|
        0 <= a < s2.len() && (#[trigger] s2[a]).sync_status == SyncStatus::New implies !has_mirror(
        db.mirror,
        s2[a].login.id,
    ) by {
        assert(s2[a].login.id == db.local[a].login.id);
        assert(db.local[a].sync_status == SyncStatus::New);
    }
}

impl LoginDb {
    /// Guarantee an overlay row for `id` (cloning the mirror row when only it
    /// exists) and mark the mirror row overridden. Yields the overlay index.
    fn ensure_overlay_and_override(&mut self, id: &str) -> (r: Result<usize, LoginsError>)
        requires
            old(self).wf(),
        ensures
            final(self).wf(),
            final(self)@.last_sync_ms == old(self)@.last_sync_ms,
            final(self)@.global_state == old(self)@.global_state,
            r is Err ==> final(self)@ == old(self)@ && !has_local(old(self)@.local, id@)
                && !has_mirror(old(self)@.mirror, id@) && (r matches Err(
                LoginsError::NoSuchRecord(g),
            ) && g@ == id@),
            r is Ok ==> {
                let local0 = ensured_local(old(self)@, id@);
                &&& has_local(old(self)@.local, id@) || has_mirror(old(self)@.mirror, id@)
                &&& final(self)@.local == local0
                &&& final(self)@.mirror == overridden_mirror(old(self)@.mirror, id@)
                &&& r->Ok_0 == local_index(local0, id@)
                &&& r->Ok_0 < local0.len()
                &&& local0[r->Ok_0 as int].login.id == id@
            },
    {
        let ghost pre = self@;
        let li: usize = match self.find_local_idx(id) {
            Some(i) => {
                proof {
                    lemma_local_index_agrees(pre.local, id@);
                }
                i
            },
            None => {
                match self.find_mirror_idx(id) {
                    Some(mi) => {
                        proof {
                            lemma_mirror_index_agrees(pre.mirror, id@);
                        }
                        let clone_row = LocalLogin {
                            login: self.mirror[mi].login.clone_record(),
                            local_modified: 0,
                            is_deleted: false,
                            sync_status: SyncStatus::Synced,
                        };
                        proof {
                            assert(clone_row@ =~= mirror_clone_row(mirror_at(pre.mirror, id@)));
                        }
                        let ghost rowv = clone_row@;
                        let n = self.local.len();
                        self.local.push(clone_row);
                        proof {
                            assert(self@.local =~= pre.local.push(rowv));
                            lemma_local_index_agrees(self@.local, id@);
                            assert(self@.local[n as int].login.id == id@);
                        }
                        n
                    },
                    None => {
                        return Err(LoginsError::NoSuchRecord(id.to_owned()));
                    },
                }
            },
        };
        let ghost local0 = self@.local;
        proof {
            assert(local0 == ensured_local(pre, id@));
            assert forall|a: int, b: int| 0 <= a < b < local0.len() implies (
            #[trigger] local0[a]).login.id != (#[trigger] local0[b]).login.id by {
                if b < pre.local.len() {
                    assert(pre.local[a].login.id != pre.local[b].login.id);
                } else {
                    assert(local0[b].login.id == id@);
                    assert(!has_local(pre.local, id@));
                    assert(local0[a] == pre.local[a]);
                }
            }
            lemma_local_index_agrees(local0, id@);
        }
        // mark the mirror row overridden
        match self.find_mirror_idx(id) {
            Some(mi) => {
                proof {
                    lemma_mirror_index_agrees(pre.mirror, id@);
                }
                let mut m = self.mirror.remove(mi);
                m.is_overridden = true;
                let ghost mv = m@;
                self.mirror.insert(mi, m);
                proof {
                    assert(self@.mirror =~= pre.mirror.update(mi as int, mv));
                    assert(mv =~= (MirrorLoginView { is_overridden: true, ..mirror_at(pre.mirror, id@) }));
                    assert(self@.mirror =~= overridden_mirror(pre.mirror, id@));
                }
            },
            None => {
                proof {
                    assert(self@.mirror =~= overridden_mirror(pre.mirror, id@));
                }
            },
        }
        proof {
            lemma_mirror_override_at(pre.mirror, id@);
            let mirror1 = self@.mirror;
            assert forall|a: int|
                0 <= a < local0.len() && has_mirror(mirror1, (#[trigger] local0[a]).login.id)
                implies mirror_at(mirror1, local0[a].login.id).is_overridden by {
                let g = local0[a].login.id;
                assert(has_mirror(pre.mirror, g));
                if g == id@ {
                } else {
                    assert(a < pre.local.len() && local0[a] == pre.local[a]);
                    assert(mirror_at(mirror1, g) == mirror_at(pre.mirror, g));
                }
            }
            assert forall|a: int|
                0 <= a < local0.len() && (#[trigger] local0[a]).sync_status == SyncStatus::New
                implies !has_mirror(mirror1, local0[a].login.id) by {
                assert(a < pre.local.len() && local0[a] == pre.local[a]);
                assert(!has_mirror(pre.mirror, local0[a].login.id));
            }
        }
        Ok(li)
    }

    /// Write `login` over its overlay row at clock `now_ms`: the overlay is
    /// created from the mirror if need be, the mirror is shadowed, the edited
    /// fields land, usage is bumped, the password-change time moves only if
    /// the password did, and the row is at least `Changed`.
    pub fn update_at(&mut self, login: Login, now_ms: i64) -> (r: Result<(), LoginsError>)
        requires
            old(self).wf(),
            now_ms >= 0,
        ensures
            final(self).wf(),
            r is Ok <==> update_ok(old(self)@, login@),
            r is Ok ==> final(self)@ == spec_update(old(self)@, login@, now_ms as int),
            r is Err ==> final(self)@ == old(self)@,
            !valid_login(login@) ==> r == Err::<(), LoginsError>(
                LoginsError::InvalidLogin(invalid_reason(login@)),
            ),
            valid_login(login@) && !update_ok(old(self)@, login@) ==> (r matches Err(
                LoginsError::NoSuchRecord(g),
            ) && g@ == login@.id),
    {
        if let Err(e) = login.check_valid() {
            return Err(e);
        }
        let ghost pre = self@;
        let li = match self.ensure_overlay_and_override(login.id.as_str()) {
            Ok(i) => i,
            Err(e) => {
                return Err(e);
            },
        };
        let ghost mid = self@;
        let ghost local0 = ensured_local(pre, login@.id);
        let mut row = self.local.remove(li);
        let ghost oldrow = row@;
        let pw_same = row.login.password == login.password;
        row.login.hostname = login.hostname.clone();
        row.login.http_realm = util::clone_opt_string(&login.http_realm);
        row.login.form_submit_url = util::clone_opt_string(&login.form_submit_url);
        row.login.username = login.username.clone();
        row.login.password = login.password.clone();
        row.login.username_field = login.username_field.clone();
        row.login.password_field = login.password_field.clone();
        row.login.time_last_used = now_ms;
        if !pw_same {
            row.login.time_password_changed = now_ms;
        }
        row.login.times_used = util::saturating_inc(row.login.times_used);
        row.local_modified = now_ms;
        row.sync_status = crate::login::status_max(row.sync_status, SyncStatus::Changed);
        proof {
            assert(row@ =~= updated_row(oldrow, login@, now_ms as int));
        }
        let ghost rowv = row@;
        self.local.insert(li, row);
        proof {
            assert(self@.local =~= mid.local.update(li as int, rowv));
            assert(self@ =~= spec_update(pre, login@, now_ms as int));
            lemma_wf_row_rewrite(mid, li as int, rowv);
        }
        Ok(())
    }

    /// Write `login` over its overlay row at the system clock.
    pub fn update(&mut self, login: Login) -> (r: Result<(), LoginsError>)
        requires
            old(self).wf(),
        ensures
            final(self).wf(),
            r is Ok <==> update_ok(old(self)@, login@),
            r is Ok ==> exists|now: int|
                0 <= now && final(self)@ == #[trigger] spec_update(old(self)@, login@, now),
            r is Err ==> final(self)@ == old(self)@,
            !valid_login(login@) ==> r == Err::<(), LoginsError>(
                LoginsError::InvalidLogin(invalid_reason(login@)),
            ),
            valid_login(login@) && !update_ok(old(self)@, login@) ==> (r matches Err(
                LoginsError::NoSuchRecord(g),
            ) && g@ == login@.id),
    {
        let now = util::now_ms();
        self.update_at(login, now)
    }

    /// Record a use of `id` at clock `now_ms`: the overlay is created from
    /// the mirror if need be, the mirror is shadowed, and a live row gets one
    /// more use and fresh times. The sync status never moves.
    pub fn touch_at(&mut self, id: &str, now_ms: i64) -> (r: Result<(), LoginsError>)
        requires
            old(self).wf(),
            now_ms >= 0,
        ensures
            final(self).wf(),
            r is Ok <==> has_local(old(self)@.local, id@) || has_mirror(old(self)@.mirror, id@),
            r is Ok ==> final(self)@ == spec_touch(old(self)@, id@, now_ms as int),
            r is Err ==> final(self)@ == old(self)@ && (r matches Err(LoginsError::NoSuchRecord(g))
                && g@ == id@),
    {
        let ghost pre = self@;
        let li = match self.ensure_overlay_and_override(id) {
            Ok(i) => i,
            Err(e) => {
                return Err(e);
            },
        };
        let ghost mid = self@;
        let mut row = self.local.remove(li);
        let ghost oldrow = row@;
        if !row.is_deleted {
            row.login.time_last_used = now_ms;
            row.login.times_used = util::saturating_inc(row.login.times_used);
            row.local_modified = now_ms;
        }
        proof {
            assert(row@ =~= touched_row(oldrow, now_ms as int));
        }
        let ghost rowv = row@;
        self.local.insert(li, row);
        proof {
            assert(self@.local =~= mid.local.update(li as int, rowv));
            assert(self@ =~= spec_touch(pre, id@, now_ms as int));
            lemma_wf_row_rewrite(mid, li as int, rowv);
        }
        Ok(())
    }

    /// Record a use of `id` at the system clock.
    pub fn touch(&mut self, id: &str) -> (r: Result<(), LoginsError>)
        requires
            old(self).wf(),
        ensures
            final(self).wf(),
            r is Ok <==> has_local(old(self)@.local, id@) || has_mirror(old(self)@.mirror, id@),
            r is Ok ==> exists|now: int|
                0 <= now && final(self)@ == #[trigger] spec_touch(old(self)@, id@, now),
            r is Err ==> final(self)@ == old(self)@ && (r matches Err(LoginsError::NoSuchRecord(g))
                && g@ == id@),
    {
        let now = util::now_ms();
        self.touch_at(id, now)
    }
}

/// An overlay row turned into a tombstone in place: secrets cleared, marked
/// deleted and `Changed`, freshly modified, with the password-change time
/// equal to the modification time, as a tombstone has it. Other fields are
/// kept.
pub open spec fn tombstoned_row(row: LocalLoginView, now: int) -> LocalLoginView {
    LocalLoginView {
        login: LoginView {
            hostname: Seq::empty(),
            username: Seq::empty(),
            password: Seq::empty(),
            time_password_changed: now,
            ..row.login
        },
        local_modified: now,
        is_deleted: true,
        sync_status: SyncStatus::Changed,
    }
}

/// The tombstone row inserted when only a mirror row exists: empty user
/// fields, the mirror's creation time kept, password-change time set to now.
pub open spec fn fresh_tombstone(g: Seq<char>, time_created: int, now: int) -> LocalLoginView {
    LocalLoginView {
        login: LoginView {
            id: g,
            hostname: Seq::empty(),
            http_realm: None,
            form_submit_url: None,
            username: Seq::empty(),
            password: Seq::empty(),
            username_field: Seq::empty(),
            password_field: Seq::empty(),
            time_created,
            time_last_used: 0,
            time_password_changed: now,
            times_used: 0,
        },
        local_modified: now,
        is_deleted: true,
        sync_status: SyncStatus::Changed,
    }
}

/// The overlay table after `delete`: a never-synced row goes away outright, a
/// synced one becomes a tombstone, and a mirror-only record gets a fresh
/// tombstone.
pub open spec fn spec_delete_locals(db: DbView, g: Seq<char>, now: int) -> Seq<LocalLoginView> {
    if has_local(db.local, g) {
        let i = local_index(db.local, g);
        if db.local[i].sync_status == SyncStatus::New {
            db.local.remove(i)
        } else {
            db.local.update(i, tombstoned_row(db.local[i], now))
        }
    } else if has_mirror(db.mirror, g) {
        db.local.push(fresh_tombstone(g, mirror_at(db.mirror, g).login.time_created, now))
    } else {
        db.local
    }
}

/// The store after `delete`.
pub open spec fn spec_delete(db: DbView, g: Seq<char>, now: int) -> DbView {
    DbView {
        local: spec_delete_locals(db, g, now),
        mirror: overridden_mirror(db.mirror, g),
        ..db
    }
}

impl LoginDb {
    /// Delete the record with `id` at clock `now_ms`. Reports whether the
    /// record was visible when the call started; deleting twice reports
    /// `false` the second time.
    pub fn delete_at(&mut self, id: &str, now_ms: i64) -> (r: Result<bool, LoginsError>)
        requires
            old(self).wf(),
            now_ms >= 0,
        ensures
            final(self).wf(),
            r is Ok,
            r->Ok_0 == spec_visible(old(self)@, id@),
            final(self)@ == spec_delete(old(self)@, id@, now_ms as int),
    {
        let ghost pre = self@;
        let existed = match self.record_exists(id) {
            Ok(b) => b,
            Err(e) => {
                return Err(e);
            },
        };
        match self.find_local_idx(id) {
            Some(i) => {
                proof {
                    lemma_local_index_agrees(pre.local, id@);
                }
                if matches!(self.local[i].sync_status, SyncStatus::New) {
                    self.local.remove(i);
                    proof {
                        assert(self@.local =~= pre.local.remove(i as int));
                    }
                } else {
                    let mut row = self.local.remove(i);
                    let ghost oldrow = row@;
                    row.login.hostname = String::new();
                    row.login.username = String::new();
                    row.login.password = String::new();
                    row.login.time_password_changed = now_ms;
                    row.local_modified = now_ms;
                    row.is_deleted = true;
                    row.sync_status = SyncStatus::Changed;
                    proof {
                        assert(row@ =~= tombstoned_row(oldrow, now_ms as int));
                    }
                    let ghost rowv = row@;
                    self.local.insert(i, row);
                    proof {
                        assert(self@.local =~= pre.local.update(i as int, rowv));
                    }
                }
            },
            None => {
                match self.find_mirror_idx(id) {
                    Some(mi) => {
                        proof {
                            lemma_mirror_index_agrees(pre.mirror, id@);
                        }
                        let stone = LocalLogin {
                            login: Login {
                                id: id.to_owned(),
                                hostname: String::new(),
                                http_realm: None,
                                form_submit_url: None,
                                username: String::new(),
                                password: String::new(),
                                username_field: String::new(),
                                password_field: String::new(),
                                time_created: self.mirror[mi].login.time_created,
                                time_last_used: 0,
                                time_password_changed: now_ms,
                                times_used: 0,
                            },
                            local_modified: now_ms,
                            is_deleted: true,
                            sync_status: SyncStatus::Changed,
                        };
                        proof {
                            assert(stone@ =~= fresh_tombstone(
                                id@,
                                mirror_at(pre.mirror, id@).login.time_created,
                                now_ms as int,
                            ));
                        }
                        let ghost stonev = stone@;
                        self.local.push(stone);
                        proof {
                            assert(self@.local =~= pre.local.push(stonev));
                        }
                    },
                    None => {},
                }
            },
        }
        let ghost local1 = self@.local;
        proof {
            assert(local1 == spec_delete_locals(pre, id@, now_ms as int));
        }
        // mark the mirror row overridden
        match self.find_mirror_idx(id) {
            Some(mi) => {
                proof {
                    lemma_mirror_index_agrees(pre.mirror, id@);
                }
                let mut m = self.mirror.remove(mi);
                m.is_overridden = true;
                let ghost mv = m@;
                self.mirror.insert(mi, m);
                proof {
                    assert(self@.mirror =~= pre.mirror.update(mi as int, mv));
                    assert(mv =~= (MirrorLoginView {
                        is_overridden: true,
                        ..mirror_at(pre.mirror, id@)
                    }));
                    assert(self@.mirror =~= overridden_mirror(pre.mirror, id@));
                }
            },
            None => {
                proof {
                    assert(self@.mirror =~= overridden_mirror(pre.mirror, id@));
                }
            },
        }
        proof {
            assert(self@ =~= spec_delete(pre, id@, now_ms as int));
            lemma_mirror_override_at(pre.mirror, id@);
            let mirror1 = self@.mirror;
            if has_local(pre.local, id@) {
                let i = local_index(pre.local, id@);
                if pre.local[i].sync_status == SyncStatus::New {
                    assert forall|a: int, b: int| 0 <= a < b < local1.len() implies (
                    #[trigger] local1[a]).login.id != (#[trigger] local1[b]).login.id by {
                        let a0 = if a < i { a } else { a + 1 };
                        let b0 = if b < i { b } else { b + 1 };
                        assert(local1[a] == pre.local[a0]);
                        assert(local1[b] == pre.local[b0]);
                    }
                    assert forall|a: int|
                        0 <= a < local1.len() && has_mirror(
                            mirror1,
                            (#[trigger] local1[a]).login.id,
                        ) implies mirror_at(mirror1, local1[a].login.id).is_overridden by {
                        let a0 = if a < i { a } else { a + 1 };
                        assert(local1[a] == pre.local[a0]);
                        let g = local1[a].login.id;
                        assert(has_mirror(pre.mirror, g));
                        if g != id@ {
                            assert(mirror_at(mirror1, g) == mirror_at(pre.mirror, g));
                        }
                    }
                    assert forall|a: int|
                        0 <= a < local1.len() && (#[trigger] local1[a]).sync_status
                            == SyncStatus::New implies !has_mirror(mirror1, local1[a].login.id) by {
                        let a0 = if a < i { a } else { a + 1 };
                        assert(local1[a] == pre.local[a0]);
                        assert(!has_mirror(pre.mirror, local1[a].login.id));
                    }
                } else {
                    let mid = DbView { local: pre.local, mirror: mirror1, ..pre };
                    assert forall|a: int|
                        0 <= a < pre.local.len() && has_mirror(
                            mirror1,
                            (#[trigger] pre.local[a]).login.id,
                        ) implies mirror_at(mirror1, pre.local[a].login.id).is_overridden by {
                        let g = pre.local[a].login.id;
                        assert(has_mirror(pre.mirror, g));
                        if g != id@ {
                            assert(mirror_at(mirror1, g) == mirror_at(pre.mirror, g));
                        }
                    }
                    assert forall|a: int|
                        0 <= a < pre.local.len() && (#[trigger] pre.local[a]).sync_status
                            == SyncStatus::New implies !has_mirror(
                        mirror1,
                        pre.local[a].login.id,
                    ) by {
                        assert(!has_mirror(pre.mirror, pre.local[a].login.id));
                    }
                    assert(db_wf(mid));
                    lemma_wf_row_rewrite(
                        mid,
                        i,
                        tombstoned_row(pre.local[i], now_ms as int),
                    );
                }
            } else if has_mirror(pre.mirror, id@) {
                let stone = fresh_tombstone(
                    id@,
                    mirror_at(pre.mirror, id@).login.time_created,
                    now_ms as int,
                );
                assert forall|a: int, b: int| 0 <= a < b < local1.len() implies (
                #[trigger] local1[a]).login.id != (#[trigger] local1[b]).login.id by {
                    if b < pre.local.len() {
                        assert(pre.local[a].login.id != pre.local[b].login.id);
                    } else {
                        assert(local1[b].login.id == id@);
                        assert(local1[a] == pre.local[a]);
                    }
                }
                assert forall|a: int|
                    0 <= a < local1.len() && has_mirror(mirror1, (#[trigger] local1[a]).login.id)
                    implies mirror_at(mirror1, local1[a].login.id).is_overridden by {
                    let g = local1[a].login.id;
                    assert(has_mirror(pre.mirror, g));
                    if g == id@ {
                    } else {
                        assert(a < pre.local.len() && local1[a] == pre.local[a]);
                        assert(mirror_at(mirror1, g) == mirror_at(pre.mirror, g));
                    }
                }
                assert forall|a: int|
                    0 <= a < local1.len() && (#[trigger] local1[a]).sync_status == SyncStatus::New
                    implies !has_mirror(mirror1, local1[a].login.id) by {
                    assert(a < pre.local.len() && local1[a] == pre.local[a]);
                    assert(!has_mirror(pre.mirror, local1[a].login.id));
                }
            } else {
                assert forall|a: int|
                    0 <= a < local1.len() && has_mirror(mirror1, (#[trigger] local1[a]).login.id)
                    implies mirror_at(mirror1, local1[a].login.id).is_overridden by {
                    let g = local1[a].login.id;
                    assert(has_mirror(pre.mirror, g));
                    if g != id@ {
                        assert(mirror_at(mirror1, g) == mirror_at(pre.mirror, g));
                    }
                }
                assert forall|a: int|
                    0 <= a < local1.len() && (#[trigger] local1[a]).sync_status == SyncStatus::New
                    implies !has_mirror(mirror1, local1[a].login.id) by {
                    assert(!has_mirror(pre.mirror, local1[a].login.id));
                }
            }
        }
        Ok(existed)
    }

    /// Delete the record with `id` at the system clock; reports whether it
    /// was visible.
    pub fn delete(&mut self, id: &str) -> (r: Result<bool, LoginsError>)
        requires
            old(self).wf(),
        ensures
            final(self).wf(),
            r is Ok,
            r->Ok_0 == spec_visible(old(self)@, id@),
            exists|now: int| 0 <= now && final(self)@ == #[trigger] spec_delete(old(self)@, id@, now),
    {
        let now = util::now_ms();
        self.delete_at(id, now)
    }

    /// Store the moment the last sync finished, in milliseconds.
    pub fn set_last_sync(&mut self, last_sync_ms: i64) -> (r: Result<(), LoginsError>)
        ensures
            r is Ok,
            final(self)@ == (DbView { last_sync_ms: Some(last_sync_ms as int), ..old(self)@ }),
            old(self).wf() ==> final(self).wf(),
    {
        self.last_sync_ms = Some(last_sync_ms);
        proof {
            assert(self@ =~= (DbView { last_sync_ms: Some(last_sync_ms as int), ..old(self)@ }));
        }
        Ok(())
    }

    /// The moment the last sync finished, if any, in milliseconds.
    pub fn get_last_sync(&self) -> (r: Result<Option<i64>, LoginsError>)
        ensures
            r is Ok,
            self@.last_sync_ms == match r->Ok_0 {
                Some(t) => Some(t as int),
                None => None::<int>,
            },
    {
        Ok(self.last_sync_ms)
    }

    /// Store the sync client's opaque global state.
    pub fn set_global_state(&mut self, state: &str) -> (r: Result<(), LoginsError>)
        ensures
            r is Ok,
            final(self)@ == (DbView { global_state: Some(state@), ..old(self)@ }),
            old(self).wf() ==> final(self).wf(),
    {
        self.global_state = Some(state.to_owned());
        proof {
            assert(self@ =~= (DbView { global_state: Some(state@), ..old(self)@ }));
        }
        Ok(())
    }

    /// The sync client's opaque global state, if any.
    pub fn get_global_state(&self) -> (r: Result<Option<String>, LoginsError>)
        ensures
            r is Ok,
            self@.global_state == util::opt_seq(r->Ok_0),
    {
        Ok(util::clone_opt_string(&self.global_state))
    }
}

/// What `wipe` keeps of the overlay: never-synced rows go away, tombstones
/// stay as they are, live rows become tombstones.
pub open spec fn wipe_kept(s: Seq<LocalLoginView>, now: int) -> Seq<LocalLoginView>
    decreases s.len(),
{
    if s.len() == 0 {
        Seq::empty()
    } else {
        let rest = wipe_kept(s.drop_last(), now);
        if s.last().sync_status == SyncStatus::New {
            rest
        } else if s.last().is_deleted {
            rest.push(s.last())
        } else {
            rest.push(tombstoned_row(s.last(), now))
        }
    }
}

/// A fresh tombstone for each mirror row whose GUID `local` lacks, in mirror
/// order.
pub open spec fn wipe_stones(
    m: Seq<MirrorLoginView>,
    local: Seq<LocalLoginView>,
    now: int,
) -> Seq<LocalLoginView>
    decreases m.len(),
{
    if m.len() == 0 {
        Seq::empty()
    } else {
        let rest = wipe_stones(m.drop_last(), local, now);
        if has_local(local, m.last().login.id) {
            rest
        } else {
            rest.push(fresh_tombstone(m.last().login.id, m.last().login.time_created, now))
        }
    }
}

/// A clean overlay clone of each mirror row whose GUID `local` lacks, in
/// mirror order.
pub open spec fn reset_clones(
    m: Seq<MirrorLoginView>,
    local: Seq<LocalLoginView>,
) -> Seq<LocalLoginView>
    decreases m.len(),
{
    if m.len() == 0 {
        Seq::empty()
    } else {
        let rest = reset_clones(m.drop_last(), local);
        if has_local(local, m.last().login.id) {
            rest
        } else {
            rest.push(mirror_clone_row(m.last()))
        }
    }
}

/// Every mirror row, marked overridden.
pub open spec fn all_overridden(s: Seq<MirrorLoginView>) -> Seq<MirrorLoginView> {
    s.map_values(|m: MirrorLoginView| MirrorLoginView { is_overridden: true, ..m })
}

/// Every overlay row, marked `New`.
pub open spec fn all_new(s: Seq<LocalLoginView>) -> Seq<LocalLoginView> {
    s.map_values(|r: LocalLoginView| LocalLoginView { sync_status: SyncStatus::New, ..r })
}

/// The store after `wipe`: every visible record is a local tombstone, every
/// mirror row is shadowed, and sync lineage (the mirror itself) is kept.
pub open spec fn spec_wipe(db: DbView, now: int) -> DbView {
    let kept = wipe_kept(db.local, now);
    DbView {
        local: kept + wipe_stones(db.mirror, kept, now),
        mirror: all_overridden(db.mirror),
        ..db
    }
}

/// The store after `reset`: the mirror is cloned into missing overlay rows,
/// everything is `New` again, the mirror empties and the last sync time
/// drops to zero. The store forgets it ever synced.
pub open spec fn spec_reset(db: DbView) -> DbView {
    DbView {
        local: all_new(db.local + reset_clones(db.mirror, db.local)),
        mirror: Seq::empty(),
        last_sync_ms: Some(0),
        global_state: db.global_state,
    }
}

/// Rows kept by `wipe` come from the overlay, keep their GUIDs unique, and
/// are all dead and synced-before (never `New`).
pub proof fn lemma_wipe_kept_props(s: Seq<LocalLoginView>, now: int)
    requires
        unique_local(s),
    ensures
        unique_local(wipe_kept(s, now)),
        forall|a: int|
            0 <= a < wipe_kept(s, now).len() ==> has_local(
                s,
                (#[trigger] wipe_kept(s, now)[a]).login.id,
            ),
        forall|a: int|
            0 <= a < wipe_kept(s, now).len() ==> (#[trigger] wipe_kept(s, now)[a]).is_deleted
                && wipe_kept(s, now)[a].sync_status != SyncStatus::New,
    decreases s.len(),
{
    if s.len() > 0 {
        let pre = s.drop_last();
        assert(unique_local(pre));
        lemma_wipe_kept_props(pre, now);
        let rest = wipe_kept(pre, now);
        let whole = wipe_kept(s, now);
        assert forall|a: int| 0 <= a < rest.len() implies has_local(
            s,
            (#[trigger] rest[a]).login.id,
        ) by {
            assert(has_local(pre, rest[a].login.id));
            let k = local_index(pre, rest[a].login.id);
            assert(s[k] == pre[k]);
        }
        if s.last().sync_status == SyncStatus::New {
        } else {
            let added = if s.last().is_deleted {
                s.last()
            } else {
                tombstoned_row(s.last(), now)
            };
            assert(whole == rest.push(added));
            assert(added.login.id == s.last().login.id);
            assert forall|a: int, b: int| 0 <= a < b < whole.len() implies (
            #[trigger] whole[a]).login.id != (#[trigger] whole[b]).login.id by {
                if b < rest.len() {
                    assert(whole[a] == rest[a] && whole[b] == rest[b]);
                } else {
                    assert(whole[b] == added);
                    assert(whole[a] == rest[a]);
                    assert(has_local(pre, rest[a].login.id));
                    let k = local_index(pre, rest[a].login.id);
                    assert(0 <= k < pre.len() && pre[k].login.id == rest[a].login.id);
                    assert(s[k].login.id != s[s.len() - 1].login.id);
                }
            }
            assert forall|a: int| 0 <= a < whole.len() implies has_local(
                s,
                (#[trigger] whole[a]).login.id,
            ) by {
                if a < rest.len() {
                    assert(has_local(s, rest[a].login.id));
                } else {
                    assert(whole[a].login.id == s[s.len() - 1].login.id);
                }
            }
        }
    }
}

/// The tombstones `wipe` adds take their GUIDs from distinct mirror rows
/// that the kept overlay lacks.
pub proof fn lemma_wipe_stones_props(
    m: Seq<MirrorLoginView>,
    local: Seq<LocalLoginView>,
    now: int,
)
    requires
        unique_mirror(m),
    ensures
        unique_local(wipe_stones(m, local, now)),
        forall|a: int|
            0 <= a < wipe_stones(m, local, now).len() ==> exists|k: int|
                0 <= k < m.len() && (#[trigger] wipe_stones(m, local, now)[a]) == fresh_tombstone(
                    m[k].login.id,
                    m[k].login.time_created,
                    now,
                ) && !has_local(local, m[k].login.id),
    decreases m.len(),
{
    if m.len() > 0 {
        let pre = m.drop_last();
        assert(unique_mirror(pre));
        lemma_wipe_stones_props(pre, local, now);
        let rest = wipe_stones(pre, local, now);
        let whole = wipe_stones(m, local, now);
        assert forall|a: int| 0 <= a < rest.len() implies exists|k: int|
            0 <= k < m.len() && (#[trigger] rest[a]) == fresh_tombstone(
                m[k].login.id,
                m[k].login.time_created,
                now,
            ) && !has_local(local, m[k].login.id) by {
            let k = choose|k: int|
                0 <= k < pre.len() && (#[trigger] rest[a]) == fresh_tombstone(
                    pre[k].login.id,
                    pre[k].login.time_created,
                    now,
                ) && !has_local(local, pre[k].login.id);
            assert(m[k] == pre[k]);
        }
        if !has_local(local, m.last().login.id) {
            let added = fresh_tombstone(
                m.last().login.id,
                m.last().login.time_created,
                now,
            );
            assert(whole == rest.push(added));
            assert forall|a: int, b: int| 0 <= a < b < whole.len() implies (
            #[trigger] whole[a]).login.id != (#[trigger] whole[b]).login.id by {
                if b < rest.len() {
                    assert(whole[a] == rest[a] && whole[b] == rest[b]);
                } else {
                    assert(whole[b] == added);
                    assert(whole[a] == rest[a]);
                    let k = choose|k: int|
                        0 <= k < m.len() && rest[a] == fresh_tombstone(
                            m[k].login.id,
                            m[k].login.time_created,
                            now,
                        ) && !has_local(local, m[k].login.id);
                    assert(whole[a].login.id == m[k].login.id);
                    assert(m[k].login.id != m[m.len() - 1].login.id);
                }
            }
            assert forall|a: int| 0 <= a < whole.len() implies exists|k: int|
                0 <= k < m.len() && (#[trigger] whole[a]) == fresh_tombstone(
                    m[k].login.id,
                    m[k].login.time_created,
                    now,
                ) && !has_local(local, m[k].login.id) by {
                if a < rest.len() {
                    assert(whole[a] == rest[a]);
                } else {
                    assert(whole[a] == fresh_tombstone(
                        m[m.len() - 1].login.id,
                        m[m.len() - 1].login.time_created,
                        now,
                    ));
                }
            }
        }
    }
}

/// The clones `reset` adds take their GUIDs from distinct mirror rows that
/// the overlay lacks.
pub proof fn lemma_reset_clones_props(m: Seq<MirrorLoginView>, local: Seq<LocalLoginView>)
    requires
        unique_mirror(m),
    ensures
        unique_local(reset_clones(m, local)),
        forall|a: int|
            0 <= a < reset_clones(m, local).len() ==> exists|k: int|
                0 <= k < m.len() && (#[trigger] reset_clones(m, local)[a]) == mirror_clone_row(
                    m[k],
                ) && !has_local(local, m[k].login.id),
    decreases m.len(),
{
    if m.len() > 0 {
        let pre = m.drop_last();
        assert(unique_mirror(pre));
        lemma_reset_clones_props(pre, local);
        let rest = reset_clones(pre, local);
        let whole = reset_clones(m, local);
        assert forall|a: int| 0 <= a < rest.len() implies exists|k: int|
            0 <= k < m.len() && (#[trigger] rest[a]) == mirror_clone_row(m[k]) && !has_local(
                local,
                m[k].login.id,
            ) by {
            let k = choose|k: int|
                0 <= k < pre.len() && (#[trigger] rest[a]) == mirror_clone_row(pre[k])
                    && !has_local(local, pre[k].login.id);
            assert(m[k] == pre[k]);
        }
        if !has_local(local, m.last().login.id) {
            let added = mirror_clone_row(m.last());
            assert(whole == rest.push(added));
            assert forall|a: int, b: int| 0 <= a < b < whole.len() implies (
            #[trigger] whole[a]).login.id != (#[trigger] whole[b]).login.id by {
                if b < rest.len() {
                    assert(whole[a] == rest[a] && whole[b] == rest[b]);
                } else {
                    assert(whole[b] == added);
                    assert(whole[a] == rest[a]);
                    let k = choose|k: int|
                        0 <= k < m.len() && rest[a] == mirror_clone_row(m[k]) && !has_local(
                            local,
                            m[k].login.id,
                        );
                    assert(whole[a].login.id == m[k].login.id);
                    assert(m[k].login.id != m[m.len() - 1].login.id);
                }
            }
            assert forall|a: int| 0 <= a < whole.len() implies exists|k: int|
                0 <= k < m.len() && (#[trigger] whole[a]) == mirror_clone_row(m[k]) && !has_local(
                    local,
                    m[k].login.id,
                ) by {
                if a < rest.len() {
                    assert(whole[a] == rest[a]);
                } else {
                    assert(whole[a] == mirror_clone_row(m[m.len() - 1]));
                }
            }
        }
    }
}

/// The views of a vector of overlay rows.
pub open spec fn local_rows_view(s: Seq<LocalLogin>) -> Seq<LocalLoginView> {
    s.map_values(|r: LocalLogin| r@)
}

/// The views of a vector of mirror rows.
pub open spec fn mirror_rows_view(s: Seq<MirrorLogin>) -> Seq<MirrorLoginView> {
    s.map_values(|r: MirrorLogin| r@)
}

/// Whether a row vector holds an overlay row for `id`.
fn vec_has_local(v: &Vec<LocalLogin>, id: &str) -> (r: bool)
    ensures
        r == has_local(local_rows_view(v@), id@),
{
    let n = v.len();
    for i in 0..n
        invariant
            n == v.len(),
            forall|j: int| 0 <= j < i ==> (#[trigger] local_rows_view(v@)[j]).login.id != id@,
    {
        if util::str_eq(v[i].login.id.as_str(), id) {
            proof {
                assert(local_rows_view(v@)[i as int].login.id == id@);
            }
            return true;
        }
    }
    false
}

impl LoginDb {
    /// Tombstone every visible record at clock `now_ms`: never-synced rows
    /// vanish, every other overlay row becomes or stays a tombstone, every
    /// mirror row is shadowed, and the mirror itself is kept as lineage.
    pub fn wipe_at(&mut self, now_ms: i64) -> (r: Result<(), LoginsError>)
        requires
            old(self).wf(),
            now_ms >= 0,
        ensures
            final(self).wf(),
            r is Ok,
            final(self)@ == spec_wipe(old(self)@, now_ms as int),
    {
        let ghost pre = self@;
        let mut kept: Vec<LocalLogin> = Vec::new();
        let n = self.local.len();
        proof {
            assert(local_rows_view(kept@) =~= wipe_kept(pre.local.subrange(0, 0), now_ms as int));
        }
        for i in 0..n
            invariant
                self@ == pre,
                n == pre.local.len(),
                now_ms >= 0,
                local_rows_view(kept@) == wipe_kept(pre.local.subrange(0, i as int), now_ms as int),
        {
            proof {
                assert(pre.local[i as int] == self.local@[i as int]@);
            }
            let row = &self.local[i];
            if matches!(row.sync_status, SyncStatus::New) {
            } else if row.is_deleted {
                kept.push(row.clone_row());
            } else {
                let mut t = row.clone_row();
                t.login.hostname = String::new();
                t.login.username = String::new();
                t.login.password = String::new();
                t.login.time_password_changed = now_ms;
                t.local_modified = now_ms;
                t.is_deleted = true;
                t.sync_status = SyncStatus::Changed;
                proof {
                    assert(t@ =~= tombstoned_row(pre.local[i as int], now_ms as int));
                }
                kept.push(t);
            }
            proof {
                assert(pre.local.subrange(0, i + 1).drop_last() =~= pre.local.subrange(
                    0,
                    i as int,
                ));
                assert(pre.local.subrange(0, i + 1).last() == pre.local[i as int]);
                assert(local_rows_view(kept@) =~= wipe_kept(
                    pre.local.subrange(0, i + 1),
                    now_ms as int,
                ));
            }
        }
        proof {
            assert(pre.local.subrange(0, n as int) =~= pre.local);
        }
        let ghost keptv = local_rows_view(kept@);
        let mut stones: Vec<LocalLogin> = Vec::new();
        let m = self.mirror.len();
        proof {
            assert(local_rows_view(stones@) =~= wipe_stones(
                pre.mirror.subrange(0, 0),
                keptv,
                now_ms as int,
            ));
        }
        for i in 0..m
            invariant
                self@ == pre,
                m == pre.mirror.len(),
                now_ms >= 0,
                local_rows_view(kept@) == keptv,
                local_rows_view(stones@) == wipe_stones(
                    pre.mirror.subrange(0, i as int),
                    keptv,
                    now_ms as int,
                ),
        {
            proof {
                assert(pre.mirror[i as int] == self.mirror@[i as int]@);
            }
            let mrow = &self.mirror[i];
            if !vec_has_local(&kept, mrow.login.id.as_str()) {
                let stone = LocalLogin {
                    login: Login {
                        id: mrow.login.id.clone(),
                        hostname: String::new(),
                        http_realm: None,
                        form_submit_url: None,
                        username: String::new(),
                        password: String::new(),
                        username_field: String::new(),
                        password_field: String::new(),
                        time_created: mrow.login.time_created,
                        time_last_used: 0,
                        time_password_changed: now_ms,
                        times_used: 0,
                    },
                    local_modified: now_ms,
                    is_deleted: true,
                    sync_status: SyncStatus::Changed,
                };
                proof {
                    assert(stone@ =~= fresh_tombstone(
                        pre.mirror[i as int].login.id,
                        pre.mirror[i as int].login.time_created,
                        now_ms as int,
                    ));
                }
                stones.push(stone);
            }
            proof {
                assert(pre.mirror.subrange(0, i + 1).drop_last() =~= pre.mirror.subrange(
                    0,
                    i as int,
                ));
                assert(pre.mirror.subrange(0, i + 1).last() == pre.mirror[i as int]);
                assert(local_rows_view(stones@) =~= wipe_stones(
                    pre.mirror.subrange(0, i + 1),
                    keptv,
                    now_ms as int,
                ));
            }
        }
        proof {
            assert(pre.mirror.subrange(0, m as int) =~= pre.mirror);
        }
        let mut newm: Vec<MirrorLogin> = Vec::new();
        for i in 0..m
            invariant
                self@ == pre,
                m == pre.mirror.len(),
                newm@.len() == i,
                forall|j: int|
                    0 <= j < i ==> (#[trigger] newm@[j])@ == (MirrorLoginView {
                        is_overridden: true,
                        ..pre.mirror[j]
                    }),
        {
            proof {
                assert(pre.mirror[i as int] == self.mirror@[i as int]@);
            }
            let mut c = self.mirror[i].clone_row();
            c.is_overridden = true;
            newm.push(c);
        }
        kept.append(&mut stones);
        self.local = kept;
        self.mirror = newm;
        proof {
            let stonesv = wipe_stones(pre.mirror, keptv, now_ms as int);
            assert(self@.local =~= keptv + stonesv);
            assert forall|j: int| 0 <= j < m implies #[trigger] self@.mirror[j]
                == (MirrorLoginView { is_overridden: true, ..pre.mirror[j] }) by {}
            assert(self@.mirror =~= all_overridden(pre.mirror));
            assert(self@ =~= spec_wipe(pre, now_ms as int));
            lemma_wipe_kept_props(pre.local, now_ms as int);
            lemma_wipe_stones_props(pre.mirror, keptv, now_ms as int);
            let local1 = self@.local;
            let mirror1 = self@.mirror;
            assert forall|a: int, b: int| 0 <= a < b < local1.len() implies (
            #[trigger] local1[a]).login.id != (#[trigger] local1[b]).login.id by {
                if b < keptv.len() {
                    assert(local1[a] == keptv[a] && local1[b] == keptv[b]);
                } else if a >= keptv.len() {
                    assert(local1[a] == stonesv[a - keptv.len()]);
                    assert(local1[b] == stonesv[b - keptv.len()]);
                } else {
                    assert(local1[a] == keptv[a]);
                    assert(local1[b] == stonesv[b - keptv.len()]);
                    let k = choose|k: int|
                        0 <= k < pre.mirror.len() && stonesv[b - keptv.len()] == fresh_tombstone(
                            pre.mirror[k].login.id,
                            pre.mirror[k].login.time_created,
                            now_ms as int,
                        ) && !has_local(keptv, pre.mirror[k].login.id);
                    if local1[a].login.id == local1[b].login.id {
                        assert(has_local(keptv, pre.mirror[k].login.id));
                    }
                }
            }
            assert forall|a: int, b: int| 0 <= a < b < mirror1.len() implies (
            #[trigger] mirror1[a]).login.id != (#[trigger] mirror1[b]).login.id by {
                assert(pre.mirror[a].login.id != pre.mirror[b].login.id);
            }
            assert forall|a: int|
                0 <= a < local1.len() && has_mirror(mirror1, (#[trigger] local1[a]).login.id)
                implies mirror_at(mirror1, local1[a].login.id).is_overridden by {
                let g = local1[a].login.id;
                let k = mirror_index(mirror1, g);
                assert(0 <= k < mirror1.len());
                assert(mirror1[k].is_overridden);
            }
            assert forall|a: int|
                0 <= a < local1.len() && (#[trigger] local1[a]).sync_status == SyncStatus::New
                implies !has_mirror(mirror1, local1[a].login.id) by {
                if a < keptv.len() {
                    assert(local1[a] == keptv[a]);
                    assert(keptv[a].sync_status != SyncStatus::New);
                } else {
                    assert(local1[a] == stonesv[a - keptv.len()]);
                    let k = choose|k: int|
                        0 <= k < pre.mirror.len() && stonesv[a - keptv.len()] == fresh_tombstone(
                            pre.mirror[k].login.id,
                            pre.mirror[k].login.time_created,
                            now_ms as int,
                        ) && !has_local(keptv, pre.mirror[k].login.id);
                    assert(stonesv[a - keptv.len()].sync_status == SyncStatus::Changed);
                }
            }
        }
        Ok(())
    }

    /// Tombstone every visible record at the system clock.
    pub fn wipe(&mut self) -> (r: Result<(), LoginsError>)
        requires
            old(self).wf(),
        ensures
            final(self).wf(),
            r is Ok,
            exists|now: int| 0 <= now && final(self)@ == #[trigger] spec_wipe(old(self)@, now),
    {
        let now = util::now_ms();
        self.wipe_at(now)
    }

    /// Forget the store ever synced: clone the mirror into missing overlay
    /// rows, mark every overlay row `New`, clear the mirror, zero the last
    /// sync time.
    pub fn reset(&mut self) -> (r: Result<(), LoginsError>)
        requires
            old(self).wf(),
        ensures
            final(self).wf(),
            r is Ok,
            final(self)@ == spec_reset(old(self)@),
    {
        let ghost pre = self@;
        let mut out: Vec<LocalLogin> = Vec::new();
        let n = self.local.len();
        for i in 0..n
            invariant
                self@ == pre,
                n == pre.local.len(),
                out@.len() == i,
                forall|j: int|
                    0 <= j < i ==> (#[trigger] out@[j])@ == (LocalLoginView {
                        sync_status: SyncStatus::New,
                        ..pre.local[j]
                    }),
        {
            proof {
                assert(pre.local[i as int] == self.local@[i as int]@);
            }
            let mut c = self.local[i].clone_row();
            c.sync_status = SyncStatus::New;
            out.push(c);
        }
        let mut clones: Vec<LocalLogin> = Vec::new();
        let m = self.mirror.len();
        proof {
            assert(local_rows_view(clones@) =~= reset_clones(
                pre.mirror.subrange(0, 0),
                pre.local,
            ));
        }
        for i in 0..m
            invariant
                self@ == pre,
                m == pre.mirror.len(),
                local_rows_view(clones@) == reset_clones(
                    pre.mirror.subrange(0, i as int),
                    pre.local,
                ),
        {
            proof {
                assert(pre.mirror[i as int] == self.mirror@[i as int]@);
            }
            let present = self.find_local_idx(self.mirror[i].login.id.as_str()).is_some();
            if !present {
                let c = LocalLogin {
                    login: self.mirror[i].login.clone_record(),
                    local_modified: 0,
                    is_deleted: false,
                    sync_status: SyncStatus::Synced,
                };
                proof {
                    assert(c@ =~= mirror_clone_row(pre.mirror[i as int]));
                }
                clones.push(c);
            }
            proof {
                assert(pre.mirror.subrange(0, i + 1).drop_last() =~= pre.mirror.subrange(
                    0,
                    i as int,
                ));
                assert(pre.mirror.subrange(0, i + 1).last() == pre.mirror[i as int]);
                assert(local_rows_view(clones@) =~= reset_clones(
                    pre.mirror.subrange(0, i + 1),
                    pre.local,
                ));
            }
        }
        proof {
            assert(pre.mirror.subrange(0, m as int) =~= pre.mirror);
        }
        let ghost clonesv = local_rows_view(clones@);
        let k = out.len();
        let mut rest: Vec<LocalLogin> = Vec::new();
        let cn = clones.len();
        for i in 0..cn
            invariant
                cn == clones@.len(),
                local_rows_view(clones@) == clonesv,
                rest@.len() == i,
                forall|j: int|
                    0 <= j < i ==> (#[trigger] rest@[j])@ == (LocalLoginView {
                        sync_status: SyncStatus::New,
                        ..clonesv[j]
                    }),
        {
            proof {
                assert(clonesv[i as int] == clones@[i as int]@);
            }
            let mut c = clones[i].clone_row();
            c.sync_status = SyncStatus::New;
            rest.push(c);
        }
        out.append(&mut rest);
        self.local = out;
        self.mirror = Vec::new();
        self.last_sync_ms = Some(0);
        proof {
            let residue = reset_clones(pre.mirror, pre.local);
            assert(clonesv == residue);
            let base = pre.local + residue;
            assert forall|j: int| 0 <= j < base.len() implies #[trigger] self@.local[j]
                == (LocalLoginView { sync_status: SyncStatus::New, ..base[j] }) by {
                if j < pre.local.len() {
                } else {
                    assert(self@.local[j] == (LocalLoginView {
                        sync_status: SyncStatus::New,
                        ..residue[j - pre.local.len()]
                    }));
                }
            }
            assert(self@.local =~= all_new(base));
            assert(self@.mirror =~= Seq::<MirrorLoginView>::empty());
            assert(self@ =~= spec_reset(pre));
            lemma_reset_clones_props(pre.mirror, pre.local);
            let local1 = self@.local;
            assert forall|a: int, b: int| 0 <= a < b < base.len() implies (
            #[trigger] base[a]).login.id != (#[trigger] base[b]).login.id by {
                if b < pre.local.len() {
                } else if a >= pre.local.len() {
                    assert(base[a] == residue[a - pre.local.len()]);
                    assert(base[b] == residue[b - pre.local.len()]);
                } else {
                    assert(base[a] == pre.local[a]);
                    assert(base[b] == residue[b - pre.local.len()]);
                    let k0 = choose|k0: int|
                        0 <= k0 < pre.mirror.len() && residue[b - pre.local.len()]
                            == mirror_clone_row(pre.mirror[k0]) && !has_local(
                            pre.local,
                            pre.mirror[k0].login.id,
                        );
                    if base[a].login.id == base[b].login.id {
                        assert(has_local(pre.local, pre.mirror[k0].login.id));
                    }
                }
            }
            assert forall|a: int, b: int| 0 <= a < b < local1.len() implies (
            #[trigger] local1[a]).login.id != (#[trigger] local1[b]).login.id by {
                assert(local1[a] == all_new(base)[a]);
                assert(local1[b] == all_new(base)[b]);
                assert(local1[a].login.id == base[a].login.id);
                assert(local1[b].login.id == base[b].login.id);
            }
        }
        Ok(())
    }
}


/// A batch of incoming records with the server's batch timestamp
/// (milliseconds).
pub struct IncomingChangeset {
    pub changes: Vec<(Payload, i64)>,
    pub timestamp: i64,
}

/// Mathematical image of an incoming batch.
#[verifier::ext_equal]
pub struct IncomingView {
    pub changes: Seq<(PayloadView, int)>,
    pub timestamp: int,
}

impl View for IncomingChangeset {
    type V = IncomingView;

    open spec fn view(&self) -> IncomingView {
        IncomingView {
            changes: self.changes@.map_values(|c: (Payload, i64)| (c.0@, c.1 as int)),
            timestamp: self.timestamp as int,
        }
    }
}

/// The dirty records a sync must upload, under a collection name.
pub struct OutgoingChangeset {
    pub collection: String,
    pub timestamp: i64,
    pub changes: Vec<Payload>,
}

/// The views of a sequence of payloads.
pub open spec fn payloads_view(s: Seq<Payload>) -> Seq<PayloadView> {
    s.map_values(|p: Payload| p@)
}

/// The payloads `fetch_outgoing` yields: one per overlay row that is not
/// clean, a tombstone for a dead row, the record otherwise.
pub open spec fn spec_outgoing(s: Seq<LocalLoginView>) -> Seq<PayloadView>
    decreases s.len(),
{
    if s.len() == 0 {
        Seq::empty()
    } else {
        let rest = spec_outgoing(s.drop_last());
        if s.last().sync_status != SyncStatus::Synced {
            rest.push(
                if s.last().is_deleted {
                    PayloadView::Tombstone(s.last().login.id)
                } else {
                    PayloadView::Record(s.last().login)
                },
            )
        } else {
            rest
        }
    }
}

/// The views of a slice of GUIDs.
pub open spec fn guids_view(s: Seq<String>) -> Seq<Seq<char>> {
    s.map_values(|g: String| g@)
}

/// The overlay rows whose GUIDs are not in `gs`, in order.
pub open spec fn local_not_in(s: Seq<LocalLoginView>, gs: Seq<Seq<char>>) -> Seq<LocalLoginView>
    decreases s.len(),
{
    if s.len() == 0 {
        Seq::empty()
    } else {
        let rest = local_not_in(s.drop_last(), gs);
        if gs.contains(s.last().login.id) {
            rest
        } else {
            rest.push(s.last())
        }
    }
}

/// The mirror rows whose GUIDs are not in `gs`, in order.
pub open spec fn mirror_not_in(s: Seq<MirrorLoginView>, gs: Seq<Seq<char>>) -> Seq<MirrorLoginView>
    decreases s.len(),
{
    if s.len() == 0 {
        Seq::empty()
    } else {
        let rest = mirror_not_in(s.drop_last(), gs);
        if gs.contains(s.last().login.id) {
            rest
        } else {
            rest.push(s.last())
        }
    }
}

/// The mirror rows promotion builds: one fresh, non-overridden row at
/// server time `ts` for each live overlay row whose GUID is in `gs`.
pub open spec fn promoted(s: Seq<LocalLoginView>, gs: Seq<Seq<char>>, ts: int) -> Seq<
    MirrorLoginView,
>
    decreases s.len(),
{
    if s.len() == 0 {
        Seq::empty()
    } else {
        let rest = promoted(s.drop_last(), gs, ts);
        if gs.contains(s.last().login.id) && !s.last().is_deleted {
            rest.push(
                MirrorLoginView {
                    login: s.last().login,
                    server_modified: ts,
                    is_overridden: false,
                },
            )
        } else {
            rest
        }
    }
}

/// The store after promotion: mirror rows for the synced GUIDs are replaced
/// by their live overlay rows, those overlay rows leave, and the last sync
/// time is `ts`.
pub open spec fn spec_mark_synced(db: DbView, gs: Seq<Seq<char>>, ts: int) -> DbView {
    DbView {
        local: local_not_in(db.local, gs),
        mirror: mirror_not_in(db.mirror, gs) + promoted(db.local, gs, ts),
        last_sync_ms: Some(ts),
        global_state: db.global_state,
    }
}

/// Rows kept by `local_not_in` are overlay rows, in place, outside `gs`.
pub proof fn lemma_local_not_in_props(s: Seq<LocalLoginView>, gs: Seq<Seq<char>>)
    ensures
        forall|a: int|
            0 <= a < local_not_in(s, gs).len() ==> exists|k: int|
                0 <= k < s.len() && (#[trigger] local_not_in(s, gs)[a]) == s[k] && !gs.contains(
                    s[k].login.id,
                ),
        unique_local(s) ==> unique_local(local_not_in(s, gs)),
    decreases s.len(),
{
    if s.len() > 0 {
        let pre = s.drop_last();
        lemma_local_not_in_props(pre, gs);
        let rest = local_not_in(pre, gs);
        let whole = local_not_in(s, gs);
        assert(unique_local(s) ==> unique_local(pre));
        assert forall|a: int| 0 <= a < rest.len() implies exists|k: int|
            0 <= k < s.len() && (#[trigger] rest[a]) == s[k] && !gs.contains(s[k].login.id) by {
            let k = choose|k: int|
                0 <= k < pre.len() && (#[trigger] rest[a]) == pre[k] && !gs.contains(
                    pre[k].login.id,
                );
            assert(s[k] == pre[k]);
        }
        if !gs.contains(s.last().login.id) {
            assert(whole == rest.push(s.last()));
            assert forall|a: int| 0 <= a < whole.len() implies exists|k: int|
                0 <= k < s.len() && (#[trigger] whole[a]) == s[k] && !gs.contains(
                    s[k].login.id,
                ) by {
                if a < rest.len() {
                    assert(whole[a] == rest[a]);
                } else {
                    assert(whole[a] == s[s.len() - 1]);
                }
            }
            if unique_local(s) {
                assert forall|a: int, b: int| 0 <= a < b < whole.len() implies (
                #[trigger] whole[a]).login.id != (#[trigger] whole[b]).login.id by {
                    if b < rest.len() {
                        assert(whole[a] == rest[a] && whole[b] == rest[b]);
                    } else {
                        assert(whole[a] == rest[a]);
                        assert(whole[b] == s[s.len() - 1]);
                        let k = choose|k: int|
                            0 <= k < pre.len() && rest[a] == pre[k] && !gs.contains(
                                pre[k].login.id,
                            );
                        assert(s[k].login.id != s[s.len() - 1].login.id);
                    }
                }
            }
        }
    }
}

/// Rows kept by `mirror_not_in` are mirror rows, in place, outside `gs`.
pub proof fn lemma_mirror_not_in_props(s: Seq<MirrorLoginView>, gs: Seq<Seq<char>>)
    ensures
        forall|a: int|
            0 <= a < mirror_not_in(s, gs).len() ==> exists|k: int|
                0 <= k < s.len() && (#[trigger] mirror_not_in(s, gs)[a]) == s[k] && !gs.contains(
                    s[k].login.id,
                ),
        unique_mirror(s) ==> unique_mirror(mirror_not_in(s, gs)),
    decreases s.len(),
{
    if s.len() > 0 {
        let pre = s.drop_last();
        lemma_mirror_not_in_props(pre, gs);
        let rest = mirror_not_in(pre, gs);
        let whole = mirror_not_in(s, gs);
        assert(unique_mirror(s) ==> unique_mirror(pre));
        assert forall|a: int| 0 <= a < rest.len() implies exists|k: int|
            0 <= k < s.len() && (#[trigger] rest[a]) == s[k] && !gs.contains(s[k].login.id) by {
            let k = choose|k: int|
                0 <= k < pre.len() && (#[trigger] rest[a]) == pre[k] && !gs.contains(
                    pre[k].login.id,
                );
            assert(s[k] == pre[k]);
        }
        if !gs.contains(s.last().login.id) {
            assert(whole == rest.push(s.last()));
            assert forall|a: int| 0 <= a < whole.len() implies exists|k: int|
                0 <= k < s.len() && (#[trigger] whole[a]) == s[k] && !gs.contains(
                    s[k].login.id,
                ) by {
                if a < rest.len() {
                    assert(whole[a] == rest[a]);
                } else {
                    assert(whole[a] == s[s.len() - 1]);
                }
            }
            if unique_mirror(s) {
                assert forall|a: int, b: int| 0 <= a < b < whole.len() implies (
                #[trigger] whole[a]).login.id != (#[trigger] whole[b]).login.id by {
                    if b < rest.len() {
                        assert(whole[a] == rest[a] && whole[b] == rest[b]);
                    } else {
                        assert(whole[a] == rest[a]);
                        assert(whole[b] == s[s.len() - 1]);
                        let k = choose|k: int|
                            0 <= k < pre.len() && rest[a] == pre[k] && !gs.contains(
                                pre[k].login.id,
                            );
                        assert(s[k].login.id != s[s.len() - 1].login.id);
                    }
                }
            }
        }
    }
}

/// Promoted rows carry live overlay records whose GUIDs are in `gs`, fresh
/// and unshadowed, at server time `ts`.
pub proof fn lemma_promoted_props(s: Seq<LocalLoginView>, gs: Seq<Seq<char>>, ts: int)
    ensures
        forall|a: int|
            0 <= a < promoted(s, gs, ts).len() ==> exists|k: int|
                0 <= k < s.len() && (#[trigger] promoted(s, gs, ts)[a]) == (MirrorLoginView {
                    login: s[k].login,
                    server_modified: ts,
                    is_overridden: false,
                }) && gs.contains(s[k].login.id) && !s[k].is_deleted,
        unique_local(s) ==> unique_mirror(promoted(s, gs, ts)),
    decreases s.len(),
{
    if s.len() > 0 {
        let pre = s.drop_last();
        lemma_promoted_props(pre, gs, ts);
        let rest = promoted(pre, gs, ts);
        let whole = promoted(s, gs, ts);
        assert(unique_local(s) ==> unique_local(pre));
        assert forall|a: int| 0 <= a < rest.len() implies exists|k: int|
            0 <= k < s.len() && (#[trigger] rest[a]) == (MirrorLoginView {
                login: s[k].login,
                server_modified: ts,
                is_overridden: false,
            }) && gs.contains(s[k].login.id) && !s[k].is_deleted by {
            let k = choose|k: int|
                0 <= k < pre.len() && (#[trigger] rest[a]) == (MirrorLoginView {
                    login: pre[k].login,
                    server_modified: ts,
                    is_overridden: false,
                }) && gs.contains(pre[k].login.id) && !pre[k].is_deleted;
            assert(s[k] == pre[k]);
        }
        if gs.contains(s.last().login.id) && !s.last().is_deleted {
            let added = MirrorLoginView {
                login: s.last().login,
                server_modified: ts,
                is_overridden: false,
            };
            assert(whole == rest.push(added));
            assert forall|a: int| 0 <= a < whole.len() implies exists|k: int|
                0 <= k < s.len() && (#[trigger] whole[a]) == (MirrorLoginView {
                    login: s[k].login,
                    server_modified: ts,
                    is_overridden: false,
                }) && gs.contains(s[k].login.id) && !s[k].is_deleted by {
                if a < rest.len() {
                    assert(whole[a] == rest[a]);
                } else {
                    assert(whole[a] == added);
                    assert(s[s.len() - 1] == s.last());
                }
            }
            if unique_local(s) {
                assert forall|a: int, b: int| 0 <= a < b < whole.len() implies (
                #[trigger] whole[a]).login.id != (#[trigger] whole[b]).login.id by {
                    if b < rest.len() {
                        assert(whole[a] == rest[a] && whole[b] == rest[b]);
                    } else {
                        assert(whole[a] == rest[a]);
                        assert(whole[b] == added);
                        let k = choose|k: int|
                            0 <= k < pre.len() && rest[a] == (MirrorLoginView {
                                login: pre[k].login,
                                server_modified: ts,
                                is_overridden: false,
                            }) && gs.contains(pre[k].login.id) && !pre[k].is_deleted;
                        assert(s[k].login.id != s[s.len() - 1].login.id);
                    }
                }
            }
        }
    }
}

/// Whether a GUID appears in a slice of GUIDs.
fn guid_in(guids: &[String], id: &str) -> (r: bool)
    ensures
        r == guids_view(guids@).contains(id@),
{
    let n = guids.len();
    for i in 0..n
        invariant
            n == guids@.len(),
            forall|j: int| 0 <= j < i ==> (#[trigger] guids_view(guids@)[j]) != id@,
    {
        if util::str_eq(guids[i].as_str(), id) {
            proof {
                assert(guids_view(guids@)[i as int] == id@);
            }
            return true;
        }
    }
    proof {
        if guids_view(guids@).contains(id@) {
            let j = choose|j: int|
                0 <= j < guids_view(guids@).len() && guids_view(guids@)[j] == id@;
        }
    }
    false
}

impl LoginDb {
    /// Promote the overlay rows for `guids` into the mirror at server time
    /// `ts`: old mirror rows for them leave, live overlay rows become fresh
    /// mirror rows, the overlay rows leave, and `last_sync` becomes `ts`.
    pub fn mark_as_synchronized(&mut self, guids: &[String], ts: i64) -> (r: Result<
        (),
        LoginsError,
    >)
        requires
            old(self).wf(),
        ensures
            final(self).wf(),
            r is Ok,
            final(self)@ == spec_mark_synced(old(self)@, guids_view(guids@), ts as int),
    {
        let ghost pre = self@;
        let ghost gs = guids_view(guids@);
        let mut newlocal: Vec<LocalLogin> = Vec::new();
        let n = self.local.len();
        proof {
            assert(local_rows_view(newlocal@) =~= local_not_in(pre.local.subrange(0, 0), gs));
        }
        for i in 0..n
            invariant
                self@ == pre,
                n == pre.local.len(),
                gs == guids_view(guids@),
                local_rows_view(newlocal@) == local_not_in(pre.local.subrange(0, i as int), gs),
        {
            proof {
                assert(pre.local[i as int] == self.local@[i as int]@);
            }
            let ghost nl0 = newlocal@;
            if !guid_in(guids, self.local[i].login.id.as_str()) {
                let c = self.local[i].clone_row();
                let ghost cv = c@;
                newlocal.push(c);
                proof {
                    assert(local_rows_view(newlocal@) =~= local_rows_view(nl0).push(cv));
                }
            }
            proof {
                assert(pre.local.subrange(0, i + 1).drop_last() =~= pre.local.subrange(
                    0,
                    i as int,
                ));
                assert(pre.local.subrange(0, i + 1).last() == pre.local[i as int]);
                let s1 = pre.local.subrange(0, i + 1);
                if gs.contains(pre.local[i as int].login.id) {
                    assert(local_not_in(s1, gs) == local_not_in(s1.drop_last(), gs));
                } else {
                    assert(local_not_in(s1, gs) == local_not_in(s1.drop_last(), gs).push(
                        s1.last(),
                    ));
                }
                assert(local_rows_view(newlocal@) =~= local_not_in(s1, gs));
            }
        }
        proof {
            assert(pre.local.subrange(0, n as int) =~= pre.local);
        }
        let mut newmirror: Vec<MirrorLogin> = Vec::new();
        let m = self.mirror.len();
        proof {
            assert(mirror_rows_view(newmirror@) =~= mirror_not_in(pre.mirror.subrange(0, 0), gs));
        }
        for i in 0..m
            invariant
                self@ == pre,
                m == pre.mirror.len(),
                gs == guids_view(guids@),
                mirror_rows_view(newmirror@) == mirror_not_in(pre.mirror.subrange(0, i as int), gs),
        {
            proof {
                assert(pre.mirror[i as int] == self.mirror@[i as int]@);
            }
            let ghost nm0 = newmirror@;
            if !guid_in(guids, self.mirror[i].login.id.as_str()) {
                let c = self.mirror[i].clone_row();
                let ghost cv = c@;
                newmirror.push(c);
                proof {
                    assert(mirror_rows_view(newmirror@) =~= mirror_rows_view(nm0).push(cv));
                }
            }
            proof {
                assert(pre.mirror.subrange(0, i + 1).drop_last() =~= pre.mirror.subrange(
                    0,
                    i as int,
                ));
                assert(pre.mirror.subrange(0, i + 1).last() == pre.mirror[i as int]);
                let s1 = pre.mirror.subrange(0, i + 1);
                if gs.contains(pre.mirror[i as int].login.id) {
                    assert(mirror_not_in(s1, gs) == mirror_not_in(s1.drop_last(), gs));
                } else {
                    assert(mirror_not_in(s1, gs) == mirror_not_in(s1.drop_last(), gs).push(
                        s1.last(),
                    ));
                }
                assert(mirror_rows_view(newmirror@) =~= mirror_not_in(s1, gs));
            }
        }
        proof {
            assert(pre.mirror.subrange(0, m as int) =~= pre.mirror);
        }
        let ghost keptm = mirror_rows_view(newmirror@);
        let mut promo: Vec<MirrorLogin> = Vec::new();
        proof {
            assert(mirror_rows_view(promo@) =~= promoted(pre.local.subrange(0, 0), gs, ts as int));
        }
        for i in 0..n
            invariant
                self@ == pre,
                n == pre.local.len(),
                gs == guids_view(guids@),
                mirror_rows_view(promo@) == promoted(pre.local.subrange(0, i as int), gs, ts as int),
        {
            proof {
                assert(pre.local[i as int] == self.local@[i as int]@);
            }
            let row = &self.local[i];
            if !row.is_deleted && guid_in(guids, row.login.id.as_str()) {
                let p = MirrorLogin {
                    login: row.login.clone_record(),
                    server_modified: ts,
                    is_overridden: false,
                };
                proof {
                    assert(p@ =~= (MirrorLoginView {
                        login: pre.local[i as int].login,
                        server_modified: ts as int,
                        is_overridden: false,
                    }));
                }
                let ghost pm0 = promo@;
                let ghost pv = p@;
                promo.push(p);
                proof {
                    assert(mirror_rows_view(promo@) =~= mirror_rows_view(pm0).push(pv));
                }
            }
            proof {
                assert(pre.local.subrange(0, i + 1).drop_last() =~= pre.local.subrange(
                    0,
                    i as int,
                ));
                assert(pre.local.subrange(0, i + 1).last() == pre.local[i as int]);
                let s1 = pre.local.subrange(0, i + 1);
                if gs.contains(pre.local[i as int].login.id) && !pre.local[i as int].is_deleted {
                    assert(promoted(s1, gs, ts as int) == promoted(
                        s1.drop_last(),
                        gs,
                        ts as int,
                    ).push(
                        MirrorLoginView {
                            login: s1.last().login,
                            server_modified: ts as int,
                            is_overridden: false,
                        },
                    ));
                } else {
                    assert(promoted(s1, gs, ts as int) == promoted(s1.drop_last(), gs, ts as int));
                }
                assert(mirror_rows_view(promo@) =~= promoted(s1, gs, ts as int));
            }
        }
        proof {
            assert(pre.local.subrange(0, n as int) =~= pre.local);
        }
        newmirror.append(&mut promo);
        self.local = newlocal;
        self.mirror = newmirror;
        self.last_sync_ms = Some(ts);
        proof {
            let localv = local_not_in(pre.local, gs);
            let promov = promoted(pre.local, gs, ts as int);
            assert(self@.local =~= localv);
            assert(self@.mirror =~= keptm + promov);
            assert(self@ =~= spec_mark_synced(pre, gs, ts as int));
            lemma_local_not_in_props(pre.local, gs);
            lemma_mirror_not_in_props(pre.mirror, gs);
            lemma_promoted_props(pre.local, gs, ts as int);
            let local1 = self@.local;
            let mirror1 = self@.mirror;
            assert forall|a: int, b: int| 0 <= a < b < mirror1.len() implies (
            #[trigger] mirror1[a]).login.id != (#[trigger] mirror1[b]).login.id by {
                if b < keptm.len() {
                    assert(mirror1[a] == keptm[a] && mirror1[b] == keptm[b]);
                } else if a >= keptm.len() {
                    assert(mirror1[a] == promov[a - keptm.len()]);
                    assert(mirror1[b] == promov[b - keptm.len()]);
                } else {
                    assert(mirror1[a] == keptm[a]);
                    assert(mirror1[b] == promov[b - keptm.len()]);
                    let ka = choose|k: int|
                        0 <= k < pre.mirror.len() && keptm[a] == pre.mirror[k] && !gs.contains(
                            pre.mirror[k].login.id,
                        );
                    let kb = choose|k: int|
                        0 <= k < pre.local.len() && promov[b - keptm.len()] == (MirrorLoginView {
                            login: pre.local[k].login,
                            server_modified: ts as int,
                            is_overridden: false,
                        }) && gs.contains(pre.local[k].login.id) && !pre.local[k].is_deleted;
                    if mirror1[a].login.id == mirror1[b].login.id {
                        assert(gs.contains(pre.local[kb].login.id));
                        assert(!gs.contains(pre.mirror[ka].login.id));
                    }
                }
            }
            assert forall|a: int|
                0 <= a < local1.len() && has_mirror(mirror1, (#[trigger] local1[a]).login.id)
                implies mirror_at(mirror1, local1[a].login.id).is_overridden by {
                let g = local1[a].login.id;
                let ka = choose|k: int|
                    0 <= k < pre.local.len() && local1[a] == pre.local[k] && !gs.contains(
                        pre.local[k].login.id,
                    );
                let j = mirror_index(mirror1, g);
                assert(0 <= j < mirror1.len() && mirror1[j].login.id == g);
                if j >= keptm.len() {
                    let kb = choose|k: int|
                        0 <= k < pre.local.len() && promov[j - keptm.len()] == (MirrorLoginView {
                            login: pre.local[k].login,
                            server_modified: ts as int,
                            is_overridden: false,
                        }) && gs.contains(pre.local[k].login.id) && !pre.local[k].is_deleted;
                    assert(mirror1[j] == promov[j - keptm.len()]);
                    assert(gs.contains(g));
                } else {
                    assert(mirror1[j] == keptm[j]);
                    let km = choose|k: int|
                        0 <= k < pre.mirror.len() && keptm[j] == pre.mirror[k] && !gs.contains(
                            pre.mirror[k].login.id,
                        );
                    assert(has_mirror(pre.mirror, g));
                    assert(has_local(pre.local, g));
                    assert(mirror_at(pre.mirror, g).is_overridden);
                    lemma_mirror_index_agrees(pre.mirror, g);
                    assert(mirror_index(pre.mirror, g) == km);
                    assert(mirror1[j].is_overridden);
                    lemma_mirror_index_agrees(mirror1, g);
                }
            }
            assert forall|a: int|
                0 <= a < local1.len() && (#[trigger] local1[a]).sync_status == SyncStatus::New
                implies !has_mirror(mirror1, local1[a].login.id) by {
                let g = local1[a].login.id;
                let ka = choose|k: int|
                    0 <= k < pre.local.len() && local1[a] == pre.local[k] && !gs.contains(
                        pre.local[k].login.id,
                    );
                assert(pre.local[ka].sync_status == SyncStatus::New);
                assert(!has_mirror(pre.mirror, g));
                if has_mirror(mirror1, g) {
                    let j = mirror_index(mirror1, g);
                    if j < keptm.len() {
                        let km = choose|k: int|
                            0 <= k < pre.mirror.len() && keptm[j] == pre.mirror[k] && !gs.contains(
                                pre.mirror[k].login.id,
                            );
                        assert(pre.mirror[km].login.id == g);
                    } else {
                        let kb = choose|k: int|
                            0 <= k < pre.local.len() && promov[j - keptm.len()]
                                == (MirrorLoginView {
                                login: pre.local[k].login,
                                server_modified: ts as int,
                                is_overridden: false,
                            }) && gs.contains(pre.local[k].login.id) && !pre.local[k].is_deleted;
                        assert(gs.contains(g));
                    }
                }
            }
        }
        Ok(())
    }

    /// What the sync client calls once its upload went through: promote the
    /// uploaded records into the mirror and remember the new server time.
    pub fn sync_finished(&mut self, new_timestamp: i64, records_synced: &[String]) -> (r: Result<
        (),
        LoginsError,
    >)
        requires
            old(self).wf(),
        ensures
            final(self).wf(),
            r is Ok,
            final(self)@ == spec_mark_synced(
                old(self)@,
                guids_view(records_synced@),
                new_timestamp as int,
            ),
    {
        self.mark_as_synchronized(records_synced, new_timestamp)
    }

    /// Collect every dirty overlay row as a payload: tombstones for dead
    /// rows, records otherwise, under the `passwords` collection at `st`.
    pub fn fetch_outgoing(&self, st: i64) -> (r: Result<OutgoingChangeset, LoginsError>)
        ensures
            r is Ok,
            r->Ok_0.collection@ == "passwords"@,
            r->Ok_0.timestamp == st,
            payloads_view(r->Ok_0.changes@) == spec_outgoing(self@.local),
    {
        let mut changes: Vec<Payload> = Vec::new();
        let n = self.local.len();
        proof {
            assert(payloads_view(changes@) =~= spec_outgoing(self@.local.subrange(0, 0)));
        }
        for i in 0..n
            invariant
                n == self@.local.len(),
                payloads_view(changes@) == spec_outgoing(self@.local.subrange(0, i as int)),
        {
            proof {
                assert(self@.local[i as int] == self.local@[i as int]@);
            }
            let row = &self.local[i];
            if !matches!(row.sync_status, SyncStatus::Synced) {
                if row.is_deleted {
                    changes.push(Payload::Tombstone(row.login.id.clone()));
                } else {
                    changes.push(Payload::Record(row.login.clone_record()));
                }
            }
            proof {
                assert(self@.local.subrange(0, i + 1).drop_last() =~= self@.local.subrange(
                    0,
                    i as int,
                ));
                assert(self@.local.subrange(0, i + 1).last() == self@.local[i as int]);
                assert(payloads_view(changes@) =~= spec_outgoing(self@.local.subrange(0, i + 1)));
            }
        }
        proof {
            assert(self@.local.subrange(0, n as int) =~= self@.local);
        }
        Ok(OutgoingChangeset { collection: "passwords".to_owned(), timestamp: st, changes })
    }
}


/// A stored overlay row counts as a duplicate of an incoming record when
/// hostname, realm and username match exactly and the form-submit URLs agree
/// as the dupe rule has it: both absent, or the incoming one's `host[:port]`
/// occurs inside the candidate's.
pub open spec fn is_dupe_of(cand: LocalLoginView, l: LoginView) -> bool {
    &&& cand.login.hostname == l.hostname
    &&& cand.login.http_realm == l.http_realm
    &&& cand.login.username == l.username
    &&& match l.form_submit_url {
        None => cand.login.form_submit_url is None,
        Some(f) => match util::host_port_of(f) {
            None => cand.login.form_submit_url is None,
            Some(h) => cand.login.form_submit_url is Some && util::contains_sub(
                cand.login.form_submit_url->0,
                h,
            ),
        },
    }
}

/// The first overlay row that is a duplicate of `l`, in table order.
pub open spec fn spec_find_dupe(s: Seq<LocalLoginView>, l: LoginView) -> Option<LocalLoginView>
    decreases s.len(),
{
    if s.len() == 0 {
        None
    } else if is_dupe_of(s[0], l) {
        Some(s[0])
    } else {
        spec_find_dupe(s.subrange(1, s.len() as int), l)
    }
}

impl LoginDb {
    /// Search the overlay for a row whose record duplicates `l` by content.
    pub fn find_dupe(&self, l: &Login) -> (r: Result<Option<LocalLogin>, LoginsError>)
        ensures
            r is Ok,
            match r->Ok_0 {
                Some(d) => spec_find_dupe(self@.local, l@) == Some(d@),
                None => spec_find_dupe(self@.local, l@) is None,
            },
    {
        let hp: Option<Option<String>> = match &l.form_submit_url {
            None => None,
            Some(f) => Some(util::url_host_port(f.as_str())),
        };
        let n = self.local.len();
        proof {
            assert(self@.local.subrange(0, n as int) =~= self@.local);
        }
        for i in 0..n
            invariant
                n == self@.local.len(),
                spec_find_dupe(self@.local, l@) == spec_find_dupe(
                    self@.local.subrange(i as int, n as int),
                    l@,
                ),
                match l@.form_submit_url {
                    None => hp is None,
                    Some(f) => hp matches Some(x) && util::opt_seq(x) == util::host_port_of(f),
                },
        {
            proof {
                assert(self@.local[i as int] == self.local@[i as int]@);
            }
            let cand = &self.local[i];
            let ghost cv = self@.local[i as int];
            let form_ok: bool = match &hp {
                None => {
                    proof {
                        assert(l@.form_submit_url is None);
                    }
                    cand.login.form_submit_url.is_none()
                },
                Some(None) => {
                    proof {
                        assert(l@.form_submit_url is Some);
                        assert(util::host_port_of(l@.form_submit_url->0) is None);
                    }
                    cand.login.form_submit_url.is_none()
                },
                Some(Some(h)) => {
                    proof {
                        assert(l@.form_submit_url is Some);
                        assert(util::host_port_of(l@.form_submit_url->0) == Some(h@));
                    }
                    let fo = match &cand.login.form_submit_url {
                        Some(cf) => {
                            let c = util::str_contains(cf.as_str(), h.as_str());
                            proof {
                                assert(cv.login.form_submit_url == Some(cf@));
                            }
                            c
                        },
                        None => false,
                    };
                    fo
                },
            };
            let hit = form_ok && util::str_eq(
                cand.login.hostname.as_str(),
                l.hostname.as_str(),
            ) && util::opt_string_eq(&cand.login.http_realm, &l.http_realm) && util::str_eq(
                cand.login.username.as_str(),
                l.username.as_str(),
            );
            proof {
                assert(hit == is_dupe_of(self@.local[i as int], l@));
                assert(self@.local.subrange(i as int, n as int)[0] == self@.local[i as int]);
                assert(self@.local.subrange(i as int, n as int).subrange(
                    1,
                    n - i,
                ) =~= self@.local.subrange(i + 1, n as int));
            }
            if hit {
                return Ok(Some(cand.clone_row()));
            }
        }
        Ok(None)
    }
}


/// The views of a batch of `(payload, timestamp)` pairs.
pub open spec fn changes_view(s: Seq<(Payload, i64)>) -> Seq<(PayloadView, int)> {
    s.map_values(|c: (Payload, i64)| (c.0@, c.1 as int))
}

/// No two records of a batch carry the same GUID.
pub open spec fn no_dup_guids(cs: Seq<(PayloadView, int)>) -> bool {
    forall|i: int, j: int|
        0 <= i < j < cs.len() ==> payload_guid((#[trigger] cs[i]).0) != payload_guid(
            (#[trigger] cs[j]).0,
        )
}

/// One incoming record joined with the store: the overlay and mirror rows
/// for its GUID, if any, and the record itself (none for a tombstone).
pub open spec fn spec_sync_data(db: DbView, c: (PayloadView, int)) -> SyncDataView {
    SyncDataView {
        guid: payload_guid(c.0),
        local: if has_local(db.local, payload_guid(c.0)) {
            Some(local_at(db.local, payload_guid(c.0)))
        } else {
            None
        },
        mirror: if has_mirror(db.mirror, payload_guid(c.0)) {
            Some(mirror_at(db.mirror, payload_guid(c.0)))
        } else {
            None
        },
        inbound: match c.0 {
            PayloadView::Record(l) => Some(l),
            PayloadView::Tombstone(_) => None,
        },
        inbound_ts: c.1,
    }
}

/// The join of a whole batch with the store.
pub open spec fn spec_fetch(db: DbView, cs: Seq<(PayloadView, int)>) -> Seq<SyncDataView> {
    cs.map_values(|c: (PayloadView, int)| spec_sync_data(db, c))
}

/// The views of the joined slots.
pub open spec fn datas_view(s: Seq<SyncLoginData>) -> Seq<SyncDataView> {
    s.map_values(|d: SyncLoginData| d@)
}

/// The plan steps one joined record contributes, by the presence pattern of
/// (inbound, mirror, overlay): a tombstone plans a delete; with both sides a
/// three-way merge; mirror only, a mirror update; overlay only, a two-way
/// merge; neither, a content dupe is merged two-way and anything else is a
/// fresh mirror insert.
pub open spec fn spec_record_actions(locals: Seq<LocalLoginView>, rec: SyncDataView) -> Seq<
    ActionView,
> {
    match rec.inbound {
        None => seq![ActionView::Delete { guid: rec.guid }],
        Some(up) => match (rec.mirror, rec.local) {
            (Some(m), Some(loc)) => spec_plan_three_way(loc, m.login, up, rec.inbound_ts),
            (Some(m), None) => seq![
                ActionView::MirrorUpdate { login: up, server_modified: rec.inbound_ts },
            ],
            (None, Some(loc)) => spec_plan_two_way(loc, up, rec.inbound_ts),
            (None, None) => match spec_find_dupe(locals, up) {
                Some(d) => spec_plan_two_way(d, up, rec.inbound_ts),
                None => seq![
                    ActionView::MirrorInsert {
                        login: up,
                        server_modified: rec.inbound_ts,
                        is_overridden: false,
                    },
                ],
            },
        },
    }
}

/// The whole plan a batch of joined records produces, in order.
pub open spec fn spec_reconcile(locals: Seq<LocalLoginView>, recs: Seq<SyncDataView>) -> Seq<
    ActionView,
>
    decreases recs.len(),
{
    if recs.len() == 0 {
        Seq::empty()
    } else {
        spec_reconcile(locals, recs.drop_last()) + spec_record_actions(locals, recs.last())
    }
}

/// The overlay rows whose GUID is not `g`, in order.
pub open spec fn locals_without(s: Seq<LocalLoginView>, g: Seq<char>) -> Seq<LocalLoginView>
    decreases s.len(),
{
    if s.len() == 0 {
        Seq::empty()
    } else {
        let rest = locals_without(s.drop_last(), g);
        if s.last().login.id == g {
            rest
        } else {
            rest.push(s.last())
        }
    }
}

/// The mirror rows whose GUID is not `g`, in order.
pub open spec fn mirrors_without(s: Seq<MirrorLoginView>, g: Seq<char>) -> Seq<MirrorLoginView>
    decreases s.len(),
{
    if s.len() == 0 {
        Seq::empty()
    } else {
        let rest = mirrors_without(s.drop_last(), g);
        if s.last().login.id == g {
            rest
        } else {
            rest.push(s.last())
        }
    }
}

/// Every mirror row, the ones for `l.id` rewritten to the server's copy at
/// time `t`; the override flag stays.
pub open spec fn mirror_updated(s: Seq<MirrorLoginView>, l: LoginView, t: int) -> Seq<
    MirrorLoginView,
> {
    s.map_values(
        |m: MirrorLoginView|
            if m.login.id == l.id {
                MirrorLoginView { login: l, server_modified: t, is_overridden: m.is_overridden }
            } else {
                m
            },
    )
}

/// The overlay row a plan writes for a merged record still to upload.
pub open spec fn plan_local_row(l: LoginView, t: int) -> LocalLoginView {
    LocalLoginView {
        login: l,
        local_modified: t,
        is_deleted: false,
        sync_status: SyncStatus::Changed,
    }
}

/// One plan step applied to the store.
pub open spec fn spec_apply_action(db: DbView, a: ActionView) -> DbView {
    match a {
        ActionView::Delete { guid } => DbView {
            local: locals_without(db.local, guid),
            mirror: mirrors_without(db.mirror, guid),
            ..db
        },
        ActionView::MirrorUpdate { login, server_modified } => DbView {
            mirror: mirror_updated(db.mirror, login, server_modified),
            ..db
        },
        ActionView::MirrorInsert { login, server_modified, is_overridden } => DbView {
            mirror: mirrors_without(db.mirror, login.id).push(
                MirrorLoginView { login, server_modified, is_overridden },
            ),
            ..db
        },
        ActionView::LocalUpdate { login, server_modified } => DbView {
            local: locals_without(db.local, login.id).push(
                plan_local_row(login, server_modified),
            ),
            ..db
        },
        ActionView::TwoWayMerge { local_guid, merged, server_modified } => DbView {
            local: locals_without(locals_without(db.local, local_guid), merged.id).push(
                plan_local_row(merged, server_modified),
            ),
            ..db
        },
    }
}

/// A whole plan applied to the store, in order.
pub open spec fn spec_apply_plan(db: DbView, actions: Seq<ActionView>) -> DbView
    decreases actions.len(),
{
    if actions.len() == 0 {
        db
    } else {
        spec_apply_action(spec_apply_plan(db, actions.drop_last()), actions.last())
    }
}

/// Applying a whole incoming batch: join, reconcile, run the plan.
pub open spec fn spec_apply_incoming(db: DbView, cs: Seq<(PayloadView, int)>) -> DbView {
    spec_apply_plan(db, spec_reconcile(db.local, spec_fetch(db, cs)))
}

/// Both tables keyed: no GUID twice.
pub open spec fn db_unique(db: DbView) -> bool {
    unique_local(db.local) && unique_mirror(db.mirror)
}

/// Rows kept by `locals_without` are overlay rows, in place, with other
/// GUIDs.
pub proof fn lemma_locals_without_props(s: Seq<LocalLoginView>, g: Seq<char>)
    ensures
        forall|a: int|
            0 <= a < locals_without(s, g).len() ==> (#[trigger] locals_without(s, g)[a]).login.id
                != g && exists|k: int| 0 <= k < s.len() && locals_without(s, g)[a] == s[k],
        unique_local(s) ==> unique_local(locals_without(s, g)),
    decreases s.len(),
{
    if s.len() > 0 {
        let pre = s.drop_last();
        lemma_locals_without_props(pre, g);
        assert(unique_local(s) ==> unique_local(pre));
        let rest = locals_without(pre, g);
        let whole = locals_without(s, g);
        assert forall|a: int| 0 <= a < rest.len() implies (#[trigger] rest[a]).login.id != g
            && exists|k: int| 0 <= k < s.len() && rest[a] == s[k] by {
            let k = choose|k: int| 0 <= k < pre.len() && rest[a] == pre[k];
            assert(s[k] == pre[k]);
        }
        if s.last().login.id != g {
            assert(whole == rest.push(s.last()));
            assert forall|a: int| 0 <= a < whole.len() implies (
            #[trigger] whole[a]).login.id != g && exists|k: int|
                0 <= k < s.len() && whole[a] == s[k] by {
                if a < rest.len() {
                    assert(whole[a] == rest[a]);
                } else {
                    assert(whole[a] == s[s.len() - 1]);
                }
            }
            if unique_local(s) {
                assert forall|a: int, b: int| 0 <= a < b < whole.len() implies (
                #[trigger] whole[a]).login.id != (#[trigger] whole[b]).login.id by {
                    if b < rest.len() {
                        assert(whole[a] == rest[a] && whole[b] == rest[b]);
                    } else {
                        assert(whole[a] == rest[a]);
                        assert(whole[b] == s[s.len() - 1]);
                        let k = choose|k: int| 0 <= k < pre.len() && rest[a] == pre[k];
                        assert(s[k].login.id != s[s.len() - 1].login.id);
                    }
                }
            }
        }
    }
}

/// Rows kept by `mirrors_without` are mirror rows, in place, with other
/// GUIDs.
pub proof fn lemma_mirrors_without_props(s: Seq<MirrorLoginView>, g: Seq<char>)
    ensures
        forall|a: int|
            0 <= a < mirrors_without(s, g).len() ==> (#[trigger] mirrors_without(
                s,
                g,
            )[a]).login.id != g && exists|k: int|
                0 <= k < s.len() && mirrors_without(s, g)[a] == s[k],
        unique_mirror(s) ==> unique_mirror(mirrors_without(s, g)),
    decreases s.len(),
{
    if s.len() > 0 {
        let pre = s.drop_last();
        lemma_mirrors_without_props(pre, g);
        assert(unique_mirror(s) ==> unique_mirror(pre));
        let rest = mirrors_without(pre, g);
        let whole = mirrors_without(s, g);
        assert forall|a: int| 0 <= a < rest.len() implies (#[trigger] rest[a]).login.id != g
            && exists|k: int| 0 <= k < s.len() && rest[a] == s[k] by {
            let k = choose|k: int| 0 <= k < pre.len() && rest[a] == pre[k];
            assert(s[k] == pre[k]);
        }
        if s.last().login.id != g {
            assert(whole == rest.push(s.last()));
            assert forall|a: int| 0 <= a < whole.len() implies (
            #[trigger] whole[a]).login.id != g && exists|k: int|
                0 <= k < s.len() && whole[a] == s[k] by {
                if a < rest.len() {
                    assert(whole[a] == rest[a]);
                } else {
                    assert(whole[a] == s[s.len() - 1]);
                }
            }
            if unique_mirror(s) {
                assert forall|a: int, b: int| 0 <= a < b < whole.len() implies (
                #[trigger] whole[a]).login.id != (#[trigger] whole[b]).login.id by {
                    if b < rest.len() {
                        assert(whole[a] == rest[a] && whole[b] == rest[b]);
                    } else {
                        assert(whole[a] == rest[a]);
                        assert(whole[b] == s[s.len() - 1]);
                        let k = choose|k: int| 0 <= k < pre.len() && rest[a] == pre[k];
                        assert(s[k].login.id != s[s.len() - 1].login.id);
                    }
                }
            }
        }
    }
}

/// Every plan step keeps both tables keyed.
pub proof fn lemma_apply_action_unique(db: DbView, a: ActionView)
    requires
        db_unique(db),
    ensures
        db_unique(spec_apply_action(db, a)),
{
    match a {
        ActionView::Delete { guid } => {
            lemma_locals_without_props(db.local, guid);
            lemma_mirrors_without_props(db.mirror, guid);
        },
        ActionView::MirrorUpdate { login, server_modified } => {
            let s2 = mirror_updated(db.mirror, login, server_modified);
            assert forall|i: int, j: int| 0 <= i < j < s2.len() implies (
            #[trigger] s2[i]).login.id != (#[trigger] s2[j]).login.id by {
                assert(s2[i].login.id == db.mirror[i].login.id);
                assert(s2[j].login.id == db.mirror[j].login.id);
            }
        },
        ActionView::MirrorInsert { login, server_modified, is_overridden } => {
            lemma_mirrors_without_props(db.mirror, login.id);
            let w = mirrors_without(db.mirror, login.id);
            let s2 = w.push(MirrorLoginView { login, server_modified, is_overridden });
            assert forall|i: int, j: int| 0 <= i < j < s2.len() implies (
            #[trigger] s2[i]).login.id != (#[trigger] s2[j]).login.id by {
                if j < w.len() {
                    assert(s2[i] == w[i] && s2[j] == w[j]);
                } else {
                    assert(s2[i] == w[i]);
                    assert(s2[j].login.id == login.id);
                }
            }
        },
        ActionView::LocalUpdate { login, server_modified } => {
            lemma_locals_without_props(db.local, login.id);
            let w = locals_without(db.local, login.id);
            let s2 = w.push(plan_local_row(login, server_modified));
            assert forall|i: int, j: int| 0 <= i < j < s2.len() implies (
            #[trigger] s2[i]).login.id != (#[trigger] s2[j]).login.id by {
                if j < w.len() {
                    assert(s2[i] == w[i] && s2[j] == w[j]);
                } else {
                    assert(s2[i] == w[i]);
                    assert(s2[j].login.id == login.id);
                }
            }
        },
        ActionView::TwoWayMerge { local_guid, merged, server_modified } => {
            lemma_locals_without_props(db.local, local_guid);
            let w0 = locals_without(db.local, local_guid);
            lemma_locals_without_props(w0, merged.id);
            let w = locals_without(w0, merged.id);
            let s2 = w.push(plan_local_row(merged, server_modified));
            assert forall|i: int, j: int| 0 <= i < j < s2.len() implies (
            #[trigger] s2[i]).login.id != (#[trigger] s2[j]).login.id by {
                if j < w.len() {
                    assert(s2[i] == w[i] && s2[j] == w[j]);
                } else {
                    assert(s2[i] == w[i]);
                    assert(s2[j].login.id == merged.id);
                }
            }
        },
    }
}

/// A whole plan keeps both tables keyed.
pub proof fn lemma_apply_plan_unique(db: DbView, actions: Seq<ActionView>)
    requires
        db_unique(db),
    ensures
        db_unique(spec_apply_plan(db, actions)),
    decreases actions.len(),
{
    if actions.len() > 0 {
        lemma_apply_plan_unique(db, actions.drop_last());
        lemma_apply_action_unique(spec_apply_plan(db, actions.drop_last()), actions.last());
    }
}


impl LoginDb {
    /// Join each incoming record with the overlay and mirror rows its GUID
    /// already has. A batch naming a GUID twice is malformed and is refused
    /// whole.
    pub fn fetch_login_data(&self, records: &Vec<(Payload, i64)>) -> (r: Result<
        Vec<SyncLoginData>,
        LoginsError,
    >)
        requires
            self.wf(),
        ensures
            r is Ok <==> no_dup_guids(changes_view(records@)),
            r is Ok ==> datas_view(r->Ok_0@) == spec_fetch(self@, changes_view(records@)),
            r is Err ==> (r matches Err(LoginsError::DuplicateGuid(g)) && exists|a: int, b: int|
                0 <= a < b < changes_view(records@).len() && payload_guid(
                    #[trigger] changes_view(records@)[a].0,
                ) == payload_guid(#[trigger] changes_view(records@)[b].0) && g@ == payload_guid(
                    changes_view(records@)[b].0,
                )),
    {
        let ghost cv = changes_view(records@);
        let n = records.len();
        for i in 0..n
            invariant
                n == records@.len(),
                cv == changes_view(records@),
                forall|a: int, b: int|
                    0 <= a < b < i ==> payload_guid((#[trigger] cv[a]).0) != payload_guid(
                        (#[trigger] cv[b]).0,
                    ),
        {
            proof {
                assert(cv[i as int] == (records@[i as int].0@, records@[i as int].1 as int));
            }
            for j in 0..i
                invariant
                    i < n == records@.len(),
                    cv == changes_view(records@),
                    forall|a: int|
                        0 <= a < j ==> payload_guid((#[trigger] cv[a]).0) != payload_guid(
                            cv[i as int].0,
                        ),
            {
                proof {
                    assert(cv[j as int] == (records@[j as int].0@, records@[j as int].1 as int));
                    assert(cv[i as int] == (records@[i as int].0@, records@[i as int].1 as int));
                }
                if util::str_eq(records[j].0.guid().as_str(), records[i].0.guid().as_str()) {
                    proof {
                        assert(payload_guid(cv[j as int].0) == payload_guid(cv[i as int].0));
                    }
                    return Err(LoginsError::DuplicateGuid(records[i].0.guid().clone()));
                }
            }
        }
        let mut out: Vec<SyncLoginData> = Vec::new();
        for i in 0..n
            invariant
                self.wf(),
                n == records@.len(),
                cv == changes_view(records@),
                out@.len() == i,
                forall|j: int|
                    0 <= j < i ==> (#[trigger] out@[j])@ == spec_sync_data(self@, cv[j]),
        {
            proof {
                assert(cv[i as int] == (records@[i as int].0@, records@[i as int].1 as int));
            }
            let p = &records[i].0;
            let ts = records[i].1;
            let mut slot = SyncLoginData::from_payload(p.clone_payload(), ts);
            match self.find_local_idx(slot.guid.as_str()) {
                Some(k) => {
                    proof {
                        lemma_local_index_agrees(self@.local, slot.guid@);
                    }
                    slot.local = Some(self.local[k].clone_row());
                },
                None => {},
            }
            match self.find_mirror_idx(slot.guid.as_str()) {
                Some(k) => {
                    proof {
                        lemma_mirror_index_agrees(self@.mirror, slot.guid@);
                    }
                    slot.mirror = Some(self.mirror[k].clone_row());
                },
                None => {},
            }
            proof {
                assert(slot@ =~= spec_sync_data(self@, cv[i as int]));
            }
            out.push(slot);
        }
        proof {
            assert(datas_view(out@) =~= spec_fetch(self@, cv));
        }
        Ok(out)
    }

    /// Turn a batch of joined records into an update plan; pure policy, no
    /// writes. `server_now` travels with the batch for its callers.
    pub fn reconcile(&self, records: Vec<SyncLoginData>, server_now: i64) -> (r: Result<
        UpdatePlan,
        LoginsError,
    >)
        ensures
            r is Ok,
            r->Ok_0@ == spec_reconcile(self@.local, datas_view(records@)),
    {
        let ghost dv = datas_view(records@);
        let ghost lv = self@.local;
        let mut plan = UpdatePlan::new();
        let n = records.len();
        proof {
            assert(dv.subrange(0, 0) =~= Seq::<SyncDataView>::empty());
        }
        for i in 0..n
            invariant
                self@.local == lv,
                n == records@.len(),
                dv == datas_view(records@),
                plan@ == spec_reconcile(lv, dv.subrange(0, i as int)),
        {
            let ghost pre = plan@;
            proof {
                assert(dv[i as int] == records@[i as int]@);
            }
            let rec = &records[i];
            match &rec.inbound {
                None => {
                    plan.plan_delete(rec.guid.clone());
                },
                Some(upstream) => {
                    match &rec.mirror {
                        Some(m) => match &rec.local {
                            Some(loc) => {
                                plan.plan_three_way_merge(
                                    loc.clone_row(),
                                    m.clone_row(),
                                    upstream.clone_record(),
                                    rec.inbound_ts,
                                    server_now,
                                );
                            },
                            None => {
                                plan.plan_mirror_update(upstream.clone_record(), rec.inbound_ts);
                            },
                        },
                        None => match &rec.local {
                            Some(loc) => {
                                plan.plan_two_way_merge(
                                    loc,
                                    upstream.clone_record(),
                                    rec.inbound_ts,
                                );
                            },
                            None => {
                                let dupe = match self.find_dupe(upstream) {
                                    Ok(d) => d,
                                    Err(e) => {
                                        return Err(e);
                                    },
                                };
                                match dupe {
                                    Some(d) => {
                                        plan.plan_two_way_merge(
                                            &d,
                                            upstream.clone_record(),
                                            rec.inbound_ts,
                                        );
                                    },
                                    None => {
                                        plan.plan_mirror_insert(
                                            upstream.clone_record(),
                                            rec.inbound_ts,
                                            false,
                                        );
                                    },
                                }
                            },
                        },
                    }
                },
            }
            proof {
                assert(plan@ =~= pre + spec_record_actions(lv, dv[i as int]));
                assert(dv.subrange(0, i + 1).drop_last() =~= dv.subrange(0, i as int));
                assert(dv.subrange(0, i + 1).last() == dv[i as int]);
                assert(plan@ =~= spec_reconcile(lv, dv.subrange(0, i + 1)));
            }
        }
        proof {
            assert(dv.subrange(0, n as int) =~= dv);
        }
        Ok(plan)
    }

    /// Rebuild the overlay without any row for `g`.
    fn remove_local_all(&mut self, g: &str)
        ensures
            final(self)@ == (DbView { local: locals_without(old(self)@.local, g@), ..old(self)@ }),
    {
        let ghost pre = self@;
        let mut out: Vec<LocalLogin> = Vec::new();
        let n = self.local.len();
        proof {
            assert(local_rows_view(out@) =~= locals_without(pre.local.subrange(0, 0), g@));
        }
        for i in 0..n
            invariant
                self@ == pre,
                n == pre.local.len(),
                local_rows_view(out@) == locals_without(pre.local.subrange(0, i as int), g@),
        {
            proof {
                assert(pre.local[i as int] == self.local@[i as int]@);
            }
            let ghost o0 = out@;
            if !util::str_eq(self.local[i].login.id.as_str(), g) {
                let c = self.local[i].clone_row();
                let ghost cv2 = c@;
                out.push(c);
                proof {
                    assert(local_rows_view(out@) =~= local_rows_view(o0).push(cv2));
                }
            }
            proof {
                assert(pre.local.subrange(0, i + 1).drop_last() =~= pre.local.subrange(
                    0,
                    i as int,
                ));
                assert(pre.local.subrange(0, i + 1).last() == pre.local[i as int]);
                assert(local_rows_view(out@) =~= locals_without(
                    pre.local.subrange(0, i + 1),
                    g@,
                ));
            }
        }
        proof {
            assert(pre.local.subrange(0, n as int) =~= pre.local);
        }
        self.local = out;
        proof {
            assert(self@ =~= (DbView { local: locals_without(pre.local, g@), ..pre }));
        }
    }

    /// Rebuild the mirror without any row for `g`.
    fn remove_mirror_all(&mut self, g: &str)
        ensures
            final(self)@ == (DbView {
                mirror: mirrors_without(old(self)@.mirror, g@),
                ..old(self)@
            }),
    {
        let ghost pre = self@;
        let mut out: Vec<MirrorLogin> = Vec::new();
        let m = self.mirror.len();
        proof {
            assert(mirror_rows_view(out@) =~= mirrors_without(pre.mirror.subrange(0, 0), g@));
        }
        for i in 0..m
            invariant
                self@ == pre,
                m == pre.mirror.len(),
                mirror_rows_view(out@) == mirrors_without(pre.mirror.subrange(0, i as int), g@),
        {
            proof {
                assert(pre.mirror[i as int] == self.mirror@[i as int]@);
            }
            let ghost o0 = out@;
            if !util::str_eq(self.mirror[i].login.id.as_str(), g) {
                let c = self.mirror[i].clone_row();
                let ghost cv2 = c@;
                out.push(c);
                proof {
                    assert(mirror_rows_view(out@) =~= mirror_rows_view(o0).push(cv2));
                }
            }
            proof {
                assert(pre.mirror.subrange(0, i + 1).drop_last() =~= pre.mirror.subrange(
                    0,
                    i as int,
                ));
                assert(pre.mirror.subrange(0, i + 1).last() == pre.mirror[i as int]);
                assert(mirror_rows_view(out@) =~= mirrors_without(
                    pre.mirror.subrange(0, i + 1),
                    g@,
                ));
            }
        }
        proof {
            assert(pre.mirror.subrange(0, m as int) =~= pre.mirror);
        }
        self.mirror = out;
        proof {
            assert(self@ =~= (DbView { mirror: mirrors_without(pre.mirror, g@), ..pre }));
        }
    }

    /// Run one plan step against the tables.
    fn apply_action(&mut self, a: &PlanAction)
        ensures
            final(self)@ == spec_apply_action(old(self)@, a@),
    {
        let ghost pre = self@;
        match a {
            PlanAction::Delete { guid } => {
                self.remove_local_all(guid.as_str());
                self.remove_mirror_all(guid.as_str());
                proof {
                    assert(self@ =~= spec_apply_action(pre, a@));
                }
            },
            PlanAction::MirrorUpdate { login, server_modified } => {
                let mut out: Vec<MirrorLogin> = Vec::new();
                let m = self.mirror.len();
                for i in 0..m
                    invariant
                        self@ == pre,
                        m == pre.mirror.len(),
                        out@.len() == i,
                        forall|j: int|
                            0 <= j < i ==> (#[trigger] out@[j])@ == (if pre.mirror[j].login.id
                                == login@.id {
                                MirrorLoginView {
                                    login: login@,
                                    server_modified: *server_modified as int,
                                    is_overridden: pre.mirror[j].is_overridden,
                                }
                            } else {
                                pre.mirror[j]
                            }),
                {
                    proof {
                        assert(pre.mirror[i as int] == self.mirror@[i as int]@);
                    }
                    if util::str_eq(self.mirror[i].login.id.as_str(), login.id.as_str()) {
                        out.push(
                            MirrorLogin {
                                login: login.clone_record(),
                                server_modified: *server_modified,
                                is_overridden: self.mirror[i].is_overridden,
                            },
                        );
                    } else {
                        out.push(self.mirror[i].clone_row());
                    }
                }
                self.mirror = out;
                proof {
                    assert(self@.mirror =~= mirror_updated(
                        pre.mirror,
                        login@,
                        *server_modified as int,
                    ));
                    assert(self@ =~= spec_apply_action(pre, a@));
                }
            },
            PlanAction::MirrorInsert { login, server_modified, is_overridden } => {
                self.remove_mirror_all(login.id.as_str());
                let ghost mid = self@;
                let row = MirrorLogin {
                    login: login.clone_record(),
                    server_modified: *server_modified,
                    is_overridden: *is_overridden,
                };
                let ghost rv = row@;
                self.mirror.push(row);
                proof {
                    assert(self@.mirror =~= mid.mirror.push(rv));
                    assert(self@ =~= spec_apply_action(pre, a@));
                }
            },
            PlanAction::LocalUpdate { login, server_modified } => {
                self.remove_local_all(login.id.as_str());
                let ghost mid = self@;
                let row = LocalLogin {
                    login: login.clone_record(),
                    local_modified: *server_modified,
                    is_deleted: false,
                    sync_status: SyncStatus::Changed,
                };
                let ghost rv = row@;
                self.local.push(row);
                proof {
                    assert(self@.local =~= mid.local.push(rv));
                    assert(self@ =~= spec_apply_action(pre, a@));
                }
            },
            PlanAction::TwoWayMerge { local_guid, merged, server_modified } => {
                self.remove_local_all(local_guid.as_str());
                self.remove_local_all(merged.id.as_str());
                let ghost mid = self@;
                let row = LocalLogin {
                    login: merged.clone_record(),
                    local_modified: *server_modified,
                    is_deleted: false,
                    sync_status: SyncStatus::Changed,
                };
                let ghost rv = row@;
                self.local.push(row);
                proof {
                    assert(self@.local =~= mid.local.push(rv));
                    assert(self@ =~= spec_apply_action(pre, a@));
                }
            },
        }
    }

    /// Run a whole plan against the tables, in order; one committed batch.
    pub fn execute_plan(&mut self, plan: UpdatePlan) -> (r: Result<(), LoginsError>)
        ensures
            r is Ok,
            final(self)@ == spec_apply_plan(old(self)@, plan@),
            db_unique(old(self)@) ==> db_unique(final(self)@),
    {
        let ghost pre = self@;
        let ghost pv = plan@;
        let n = plan.actions.len();
        proof {
            assert(pv.subrange(0, 0) =~= Seq::<ActionView>::empty());
        }
        for i in 0..n
            invariant
                n == plan.actions@.len(),
                pv == plan@,
                self@ == spec_apply_plan(pre, pv.subrange(0, i as int)),
        {
            proof {
                assert(pv[i as int] == plan.actions@[i as int]@);
            }
            self.apply_action(&plan.actions[i]);
            proof {
                assert(pv.subrange(0, i + 1).drop_last() =~= pv.subrange(0, i as int));
                assert(pv.subrange(0, i + 1).last() == pv[i as int]);
            }
        }
        proof {
            assert(pv.subrange(0, n as int) =~= pv);
            if db_unique(pre) {
                lemma_apply_plan_unique(pre, pv);
            }
        }
        Ok(())
    }

    /// Apply a whole incoming batch: join each record with what the store
    /// holds, reconcile, run the plan as one batch, and collect what must
    /// now be uploaded. A batch naming a GUID twice is refused whole and
    /// nothing changes.
    pub fn apply_incoming(&mut self, inbound: IncomingChangeset) -> (r: Result<
        OutgoingChangeset,
        LoginsError,
    >)
        requires
            old(self).wf(),
        ensures
            r is Ok <==> no_dup_guids(inbound@.changes),
            r is Err ==> final(self)@ == old(self)@ && (r matches Err(
                LoginsError::DuplicateGuid(g),
            ) && exists|a: int, b: int|
                0 <= a < b < inbound@.changes.len() && payload_guid(
                    #[trigger] inbound@.changes[a].0,
                ) == payload_guid(#[trigger] inbound@.changes[b].0) && g@ == payload_guid(
                    inbound@.changes[b].0,
                )),
            r is Ok ==> {
                &&& final(self)@ == spec_apply_incoming(old(self)@, inbound@.changes)
                &&& final(self).wf()
                &&& r->Ok_0.collection@ == "passwords"@
                &&& r->Ok_0.timestamp == inbound.timestamp
                &&& payloads_view(r->Ok_0.changes@) == spec_outgoing(final(self)@.local)
            },
    {
        proof {
            assert(inbound@.changes =~= changes_view(inbound.changes@));
        }
        let data = match self.fetch_login_data(&inbound.changes) {
            Ok(d) => d,
            Err(e) => {
                return Err(e);
            },
        };
        let plan = match self.reconcile(data, inbound.timestamp) {
            Ok(p) => p,
            Err(e) => {
                return Err(e);
            },
        };
        match self.execute_plan(plan) {
            Ok(()) => {},
            Err(e) => {
                return Err(e);
            },
        }
        proof {
            crate::laws::lemma_apply_incoming_wf(old(self)@, inbound@.changes);
        }
        self.fetch_outgoing(inbound.timestamp)
    }
}


impl LoginDb {
    /// The overlay row for `id`, tombstones included, if one exists.
    pub fn overlay_row(&self, id: &str) -> (r: Option<LocalLogin>)
        requires
            self.wf(),
        ensures
            match r {
                Some(row) => has_local(self@.local, id@) && row@ == local_at(self@.local, id@),
                None => !has_local(self@.local, id@),
            },
    {
        proof {
            lemma_local_index_agrees(self@.local, id@);
        }
        match self.find_local_idx(id) {
            Some(i) => Some(self.local[i].clone_row()),
            None => None,
        }
    }

    /// The mirror row for `id`, overridden or not, if one exists.
    pub fn mirror_row(&self, id: &str) -> (r: Option<MirrorLogin>)
        requires
            self.wf(),
        ensures
            match r {
                Some(row) => has_mirror(self@.mirror, id@) && row@ == mirror_at(self@.mirror, id@),
                None => !has_mirror(self@.mirror, id@),
            },
    {
        proof {
            lemma_mirror_index_agrees(self@.mirror, id@);
        }
        match self.find_mirror_idx(id) {
            Some(i) => Some(self.mirror[i].clone_row()),
            None => None,
        }
    }
}


impl LoginDb {
    /// Every overlay row, in table order; what a persistence layer writes
    /// out.
    pub fn overlay_rows(&self) -> (r: Vec<LocalLogin>)
        ensures
            local_rows_view(r@) == self@.local,
    {
        let mut out: Vec<LocalLogin> = Vec::new();
        let n = self.local.len();
        for i in 0..n
            invariant
                n == self@.local.len(),
                out@.len() == i,
                forall|j: int| 0 <= j < i ==> (#[trigger] out@[j])@ == self@.local[j],
        {
            proof {
                assert(self@.local[i as int] == self.local@[i as int]@);
            }
            out.push(self.local[i].clone_row());
        }
        proof {
            assert(local_rows_view(out@) =~= self@.local);
        }
        out
    }

    /// Every mirror row, in table order; what a persistence layer writes
    /// out.
    pub fn mirror_rows(&self) -> (r: Vec<MirrorLogin>)
        ensures
            mirror_rows_view(r@) == self@.mirror,
    {
        let mut out: Vec<MirrorLogin> = Vec::new();
        let n = self.mirror.len();
        for i in 0..n
            invariant
                n == self@.mirror.len(),
                out@.len() == i,
                forall|j: int| 0 <= j < i ==> (#[trigger] out@[j])@ == self@.mirror[j],
        {
            proof {
                assert(self@.mirror[i as int] == self.mirror@[i as int]@);
            }
            out.push(self.mirror[i].clone_row());
        }
        proof {
            assert(mirror_rows_view(out@) =~= self@.mirror);
        }
        out
    }

    /// Rebuild a store from persisted rows. The rows are untrusted: the call
    /// succeeds exactly when they satisfy the store invariants (unique GUIDs,
    /// shadowed mirrors under overlay rows, no mirror row under a `New` row).
    pub fn from_rows(
        local: Vec<LocalLogin>,
        mirror: Vec<MirrorLogin>,
        last_sync_ms: Option<i64>,
        global_state: Option<String>,
    ) -> (r: Option<LoginDb>)
        ensures
            r is Some <==> db_wf(
                DbView {
                    local: local_rows_view(local@),
                    mirror: mirror_rows_view(mirror@),
                    last_sync_ms: match last_sync_ms {
                        Some(t) => Some(t as int),
                        None => None,
                    },
                    global_state: util::opt_seq(global_state),
                },
            ),
            r matches Some(db) ==> db.wf() && db@ == (DbView {
                local: local_rows_view(local@),
                mirror: mirror_rows_view(mirror@),
                last_sync_ms: match last_sync_ms {
                    Some(t) => Some(t as int),
                    None => None,
                },
                global_state: util::opt_seq(global_state),
            }),
    {
        let ghost lv = local@;
        let ghost mv = mirror@;
        let db = LoginDb { local, mirror, last_sync_ms, global_state };
        let ghost target = db@;
        proof {
            assert(target.local =~= local_rows_view(lv));
            assert(target.mirror =~= mirror_rows_view(mv));
            assert(target =~= (DbView {
                local: local_rows_view(lv),
                mirror: mirror_rows_view(mv),
                last_sync_ms: target.last_sync_ms,
                global_state: target.global_state,
            }));
        }
        let n = db.local.len();
        for i in 0..n
            invariant
                db@ == target,
                target == (DbView {
                    local: local_rows_view(local@),
                    mirror: mirror_rows_view(mirror@),
                    last_sync_ms: match last_sync_ms {
                        Some(t) => Some(t as int),
                        None => None,
                    },
                    global_state: util::opt_seq(global_state),
                }),
                n == db@.local.len(),
                forall|a: int, b: int|
                    0 <= a < b < i ==> (#[trigger] db@.local[a]).login.id != (
                    #[trigger] db@.local[b]).login.id,
        {
            match db.find_local_idx(db.local[i].login.id.as_str()) {
                Some(k) => {
                    if k != i {
                        proof {
                            assert(db@.local[k as int].login.id == db@.local[i as int].login.id);
                            assert(k < i);
                            assert(!unique_local(db@.local));
                        }
                        return None;
                    }
                },
                None => {},
            }
        }
        let m = db.mirror.len();
        for i in 0..m
            invariant
                db@ == target,
                target == (DbView {
                    local: local_rows_view(local@),
                    mirror: mirror_rows_view(mirror@),
                    last_sync_ms: match last_sync_ms {
                        Some(t) => Some(t as int),
                        None => None,
                    },
                    global_state: util::opt_seq(global_state),
                }),
                m == db@.mirror.len(),
                forall|a: int, b: int|
                    0 <= a < b < i ==> (#[trigger] db@.mirror[a]).login.id != (
                    #[trigger] db@.mirror[b]).login.id,
        {
            match db.find_mirror_idx(db.mirror[i].login.id.as_str()) {
                Some(k) => {
                    if k != i {
                        proof {
                            assert(db@.mirror[k as int].login.id == db@.mirror[i as int].login.id);
                            assert(k < i);
                            assert(!unique_mirror(db@.mirror));
                        }
                        return None;
                    }
                },
                None => {},
            }
        }
        for i in 0..n
            invariant
                db@ == target,
                target == (DbView {
                    local: local_rows_view(local@),
                    mirror: mirror_rows_view(mirror@),
                    last_sync_ms: match last_sync_ms {
                        Some(t) => Some(t as int),
                        None => None,
                    },
                    global_state: util::opt_seq(global_state),
                }),
                n == db@.local.len(),
                unique_local(db@.local),
                unique_mirror(db@.mirror),
                forall|a: int|
                    0 <= a < i && has_mirror(db@.mirror, (#[trigger] db@.local[a]).login.id)
                        ==> mirror_at(db@.mirror, db@.local[a].login.id).is_overridden,
                forall|a: int|
                    0 <= a < i && (#[trigger] db@.local[a]).sync_status == SyncStatus::New
                        ==> !has_mirror(db@.mirror, db@.local[a].login.id),
        {
            proof {
                lemma_mirror_index_agrees(db@.mirror, db@.local[i as int].login.id);
            }
            match db.find_mirror_idx(db.local[i].login.id.as_str()) {
                Some(k) => {
                    proof {
                        assert(has_mirror(db@.mirror, db@.local[i as int].login.id));
                        assert(mirror_index(db@.mirror, db@.local[i as int].login.id) == k as int);
                    }
                    if !db.mirror[k].is_overridden {
                        proof {
                            assert(!mirror_at(
                                db@.mirror,
                                db@.local[i as int].login.id,
                            ).is_overridden);
                            assert(!db_wf(target));
                        }
                        return None;
                    }
                    if matches!(db.local[i].sync_status, SyncStatus::New) {
                        proof {
                            assert(db@.local[i as int].sync_status == SyncStatus::New);
                            assert(!db_wf(target));
                        }
                        return None;
                    }
                },
                None => {},
            }
        }
        Some(db)
    }
}

} // verus!
