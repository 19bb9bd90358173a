use vstd::prelude::*;

use crate::db::{
    add_ok, lemma_apply_action_unique, lemma_apply_plan_unique, plan_local_row, added_login, db_wf, ensured_local, has_local, has_mirror, lemma_local_index_agrees,
    lemma_local_not_in_props, lemma_mirror_index_agrees, lemma_mirror_not_in_props,
    lemma_promoted_props, local_at,
    local_index, local_not_in, mirror_at, mirror_index, mirror_updated, overridden_mirror, spec_add, spec_delete,
    spec_get_all, spec_get_by_id, spec_mark_synced, spec_outgoing, spec_update, spec_visible,
    lemma_locals_without_props, lemma_mirrors_without_props, locals_without, mirrors_without,
    mirror_not_in, no_dup_guids, db_unique, promoted, spec_apply_action, spec_apply_incoming, spec_apply_plan, spec_fetch,
    spec_reconcile, spec_record_actions, spec_reset, spec_sync_data, unique_local, unique_mirror,
    update_ok, updated_row, visible_locals, visible_mirrors, DbView,
};
use crate::db::spec_find_dupe;
use crate::update_plan::{spec_plan_two_way, ActionView};
use crate::login::{
    payload_guid, LocalLoginView, LoginView, MirrorLoginView, PayloadView, SyncDataView,
    SyncStatus,
};

verus! {

/// For any GUID a well-formed store is in exactly one of four shapes: no
/// rows, overlay only, mirror only, or both with the mirror overridden; and
/// a `New` overlay row never has a mirror row.
pub proof fn lemma_store_shapes(db: DbView, g: Seq<char>)
    requires
        db_wf(db),
    ensures
        has_local(db.local, g) && has_mirror(db.mirror, g) ==> mirror_at(
            db.mirror,
            g,
        ).is_overridden,
        has_local(db.local, g) && local_at(db.local, g).sync_status == SyncStatus::New
            ==> !has_mirror(db.mirror, g),
{
    if has_local(db.local, g) {
        let i = local_index(db.local, g);
        assert(0 <= i < db.local.len() && db.local[i].login.id == g);
    }
}

/// A record just added is read back whole: same content and GUID, with the
/// creation metadata the add stamped on it.
pub proof fn lemma_add_then_get(db: DbView, l: LoginView, now: int)
    requires
        db_wf(db),
        add_ok(db, l),
    ensures
        crate::db::spec_get_by_id(spec_add(db, l, now), l.id) == Some(added_login(l, now)),
{
    let db1 = spec_add(db, l, now);
    let n = db.local.len() as int;
    assert(db1.local[n].login.id == l.id);
    assert(has_local(db1.local, l.id));
    assert forall|a: int, b: int| 0 <= a < b < db1.local.len() implies (
    #[trigger] db1.local[a]).login.id != (#[trigger] db1.local[b]).login.id by {
        if b < n {
            assert(db1.local[a] == db.local[a] && db1.local[b] == db.local[b]);
        } else {
            assert(db1.local[a] == db.local[a]);
            assert(db1.local[b].login.id == l.id);
        }
    }
    lemma_local_index_agrees(db1.local, l.id);
    assert(local_index(db1.local, l.id) == n);
    assert(!local_at(db1.local, l.id).is_deleted);
}

/// Add, then delete: the record is visible before the delete, and gone (so a
/// second delete reports `false`) after it.
pub proof fn lemma_add_then_delete(db: DbView, l: LoginView, n1: int, n2: int)
    requires
        db_wf(db),
        add_ok(db, l),
    ensures
        spec_visible(spec_add(db, l, n1), l.id),
        !spec_visible(spec_delete(spec_add(db, l, n1), l.id, n2), l.id),
{
    let db1 = spec_add(db, l, n1);
    let n = db.local.len() as int;
    assert(db1.local[n].login.id == l.id);
    assert(has_local(db1.local, l.id));
    assert forall|a: int, b: int| 0 <= a < b < db1.local.len() implies (
    #[trigger] db1.local[a]).login.id != (#[trigger] db1.local[b]).login.id by {
        if b < n {
            assert(db1.local[a] == db.local[a] && db1.local[b] == db.local[b]);
        } else {
            assert(db1.local[a] == db.local[a]);
            assert(db1.local[b].login.id == l.id);
        }
    }
    lemma_local_index_agrees(db1.local, l.id);
    assert(local_index(db1.local, l.id) == n);
    assert(!local_at(db1.local, l.id).is_deleted);

    let db2 = spec_delete(db1, l.id, n2);
    assert(local_at(db1.local, l.id).sync_status == SyncStatus::New);
    assert(db2.local == db1.local.remove(n));
    assert(db2.local =~= db.local);
    assert(!has_local(db2.local, l.id));
    assert(db2.mirror == overridden_mirror(db1.mirror, l.id));
    assert(db2.mirror == db1.mirror);
    assert(!has_mirror(db2.mirror, l.id));
}

/// An update right after an add creates no mirror row and leaves the row
/// `New`: the server still has never seen the record.
pub proof fn lemma_update_after_add(db: DbView, l: LoginView, l2: LoginView, n1: int, n2: int)
    requires
        db_wf(db),
        add_ok(db, l),
        l2.id == l.id,
    ensures
        !has_mirror(spec_update(spec_add(db, l, n1), l2, n2).mirror, l.id),
        has_local(spec_update(spec_add(db, l, n1), l2, n2).local, l.id),
        local_at(spec_update(spec_add(db, l, n1), l2, n2).local, l.id).sync_status
            == SyncStatus::New,
{
    let db1 = spec_add(db, l, n1);
    let n = db.local.len() as int;
    assert(db1.local[n].login.id == l.id);
    assert(has_local(db1.local, l.id));
    assert forall|a: int, b: int| 0 <= a < b < db1.local.len() implies (
    #[trigger] db1.local[a]).login.id != (#[trigger] db1.local[b]).login.id by {
        if b < n {
            assert(db1.local[a] == db.local[a] && db1.local[b] == db.local[b]);
        } else {
            assert(db1.local[a] == db.local[a]);
            assert(db1.local[b].login.id == l.id);
        }
    }
    lemma_local_index_agrees(db1.local, l.id);
    assert(local_index(db1.local, l.id) == n);

    let db2 = spec_update(db1, l2, n2);
    assert(ensured_local(db1, l2.id) == db1.local);
    assert(db2.mirror == overridden_mirror(db1.mirror, l2.id));
    assert(!has_mirror(db1.mirror, l.id));
    assert(db2.mirror == db1.mirror);
    let row2 = updated_row(db1.local[n], l2, n2);
    assert(row2.sync_status == SyncStatus::New);
    assert(db2.local == db1.local.update(n, row2));
    assert(db2.local[n].login.id == l.id);
    assert(has_local(db2.local, l.id));
    assert forall|a: int, b: int| 0 <= a < b < db2.local.len() implies (
    #[trigger] db2.local[a]).login.id != (#[trigger] db2.local[b]).login.id by {
        assert(db2.local[a].login.id == db1.local[a].login.id);
        assert(db2.local[b].login.id == db1.local[b].login.id);
    }
    lemma_local_index_agrees(db2.local, l.id);
    assert(local_index(db2.local, l.id) == n);
}

/// An update keeps the password-change time when the stored password equals
/// the incoming one, and stamps `now` on it when the password moved.
pub proof fn lemma_update_password_time(db: DbView, l: LoginView, now: int)
    requires
        db_wf(db),
        update_ok(db, l),
    ensures
        ({
            let local0 = ensured_local(db, l.id);
            let row = local0[local_index(local0, l.id)];
            local_at(spec_update(db, l, now).local, l.id).login.time_password_changed == (
            if row.login.password == l.password {
                row.login.time_password_changed
            } else {
                now
            })
        }),
{
    let local0 = ensured_local(db, l.id);
    let n = db.local.len() as int;
    assert forall|a: int, b: int| 0 <= a < b < local0.len() implies (
    #[trigger] local0[a]).login.id != (#[trigger] local0[b]).login.id by {
        if b < n {
            assert(local0[a] == db.local[a] && local0[b] == db.local[b]);
        } else {
            assert(local0[a] == db.local[a]);
            assert(!has_local(db.local, l.id));
            assert(local0[b].login.id == l.id);
        }
    }
    if !has_local(db.local, l.id) {
        lemma_mirror_index_agrees(db.mirror, l.id);
        assert(local0[n].login.id == l.id);
        assert(has_local(local0, l.id));
    }
    lemma_local_index_agrees(local0, l.id);
    let i = local_index(local0, l.id);
    assert(0 <= i < local0.len() && local0[i].login.id == l.id);
    let row = local0[i];
    let row2 = updated_row(row, l, now);
    let db2 = spec_update(db, l, now);
    assert(db2.local == local0.update(i, row2));
    assert(db2.local[i].login.id == l.id);
    assert(has_local(db2.local, l.id));
    assert forall|a: int, b: int| 0 <= a < b < db2.local.len() implies (
    #[trigger] db2.local[a]).login.id != (#[trigger] db2.local[b]).login.id by {
        assert(db2.local[a].login.id == local0[a].login.id);
        assert(db2.local[b].login.id == local0[b].login.id);
    }
    lemma_local_index_agrees(db2.local, l.id);
    assert(local_index(db2.local, l.id) == i);
}


/// The GUIDs a batch of payloads speaks of.
pub open spec fn payload_guids(ps: Seq<PayloadView>) -> Seq<Seq<char>> {
    ps.map_values(|p: PayloadView| payload_guid(p))
}

/// Every dirty overlay row's GUID appears among the outgoing payloads.
pub proof fn lemma_outgoing_covers(s: Seq<LocalLoginView>)
    ensures
        forall|k: int|
            0 <= k < s.len() && (#[trigger] s[k]).sync_status != SyncStatus::Synced
                ==> payload_guids(spec_outgoing(s)).contains(s[k].login.id),
    decreases s.len(),
{
    if s.len() > 0 {
        let pre = s.drop_last();
        lemma_outgoing_covers(pre);
        let rest = spec_outgoing(pre);
        let whole = spec_outgoing(s);
        assert forall|k: int|
            0 <= k < s.len() && (#[trigger] s[k]).sync_status != SyncStatus::Synced
            implies payload_guids(whole).contains(s[k].login.id) by {
            if k < s.len() - 1 {
                assert(pre[k] == s[k]);
                assert(payload_guids(rest).contains(s[k].login.id));
                let a = choose|a: int|
                    0 <= a < payload_guids(rest).len() && payload_guids(rest)[a] == s[k].login.id;
                assert(payload_guids(whole)[a] == payload_guids(rest)[a]);
            } else {
                assert(s.last().sync_status != SyncStatus::Synced);
                let p = if s.last().is_deleted {
                    PayloadView::Tombstone(s.last().login.id)
                } else {
                    PayloadView::Record(s.last().login)
                };
                assert(whole == rest.push(p));
                assert(payload_guids(whole)[whole.len() - 1] == payload_guid(p));
                assert(payload_guid(p) == s[k].login.id);
            }
        }
    }
}

/// A store whose overlay rows are all clean has nothing to upload.
pub proof fn lemma_outgoing_all_synced(s: Seq<LocalLoginView>)
    requires
        forall|k: int| 0 <= k < s.len() ==> (#[trigger] s[k]).sync_status == SyncStatus::Synced,
    ensures
        spec_outgoing(s) == Seq::<PayloadView>::empty(),
    decreases s.len(),
{
    if s.len() > 0 {
        let pre = s.drop_last();
        assert forall|k: int| 0 <= k < pre.len() implies (#[trigger] pre[k]).sync_status
            == SyncStatus::Synced by {
            assert(pre[k] == s[k]);
        }
        lemma_outgoing_all_synced(pre);
        assert(s[s.len() - 1].sync_status == SyncStatus::Synced);
    }
}

/// Round trip: promote everything an upload carried, and the next
/// `fetch_outgoing` is empty.
pub proof fn lemma_sync_round_trip(db: DbView, gs: Seq<Seq<char>>, ts: int)
    requires
        forall|k: int|
            0 <= k < db.local.len() && (#[trigger] db.local[k]).sync_status != SyncStatus::Synced
                ==> gs.contains(db.local[k].login.id),
    ensures
        spec_outgoing(spec_mark_synced(db, gs, ts).local) == Seq::<PayloadView>::empty(),
{
    let local1 = spec_mark_synced(db, gs, ts).local;
    assert(local1 == local_not_in(db.local, gs));
    lemma_local_not_in_props(db.local, gs);
    assert forall|k: int| 0 <= k < local1.len() implies (#[trigger] local1[k]).sync_status
        == SyncStatus::Synced by {
        let k0 = choose|k0: int|
            0 <= k0 < db.local.len() && local1[k] == db.local[k0] && !gs.contains(
                db.local[k0].login.id,
            );
        if db.local[k0].sync_status != SyncStatus::Synced {
            assert(gs.contains(db.local[k0].login.id));
        }
    }
    lemma_outgoing_all_synced(local1);
}

/// Promoting exactly the GUIDs of what `fetch_outgoing` returned leaves
/// nothing to upload.
pub proof fn lemma_upload_then_empty(db: DbView, ts: int)
    ensures
        spec_outgoing(
            spec_mark_synced(db, payload_guids(spec_outgoing(db.local)), ts).local,
        ) == Seq::<PayloadView>::empty(),
{
    lemma_outgoing_covers(db.local);
    lemma_sync_round_trip(db, payload_guids(spec_outgoing(db.local)), ts);
}

/// Visible overlay records: where they come from and that live rows appear.
pub proof fn lemma_visible_locals_props(s: Seq<LocalLoginView>)
    ensures
        forall|a: int|
            0 <= a < visible_locals(s).len() ==> exists|k: int|
                0 <= k < s.len() && (#[trigger] visible_locals(s)[a]) == s[k].login
                    && !s[k].is_deleted,
        forall|k: int|
            0 <= k < s.len() && !(#[trigger] s[k]).is_deleted ==> visible_locals(s).contains(
                s[k].login,
            ),
        unique_local(s) ==> forall|a: int, b: int|
            0 <= a < b < visible_locals(s).len() ==> (#[trigger] visible_locals(s)[a]).id != (
            #[trigger] visible_locals(s)[b]).id,
    decreases s.len(),
{
    if s.len() > 0 {
        let pre = s.drop_last();
        lemma_visible_locals_props(pre);
        assert(unique_local(s) ==> unique_local(pre));
        let rest = visible_locals(pre);
        let whole = visible_locals(s);
        assert forall|a: int| 0 <= a < rest.len() implies exists|k: int|
            0 <= k < s.len() && (#[trigger] rest[a]) == s[k].login && !s[k].is_deleted by {
            let k = choose|k: int|
                0 <= k < pre.len() && (#[trigger] rest[a]) == pre[k].login && !pre[k].is_deleted;
            assert(s[k] == pre[k]);
        }
        assert forall|k: int| 0 <= k < s.len() && !(#[trigger] s[k]).is_deleted
            implies whole.contains(s[k].login) by {
            if k < s.len() - 1 {
                assert(pre[k] == s[k]);
                assert(rest.contains(s[k].login));
                let a = choose|a: int| 0 <= a < rest.len() && rest[a] == s[k].login;
                assert(whole[a] == rest[a]);
            } else {
                assert(!s.last().is_deleted);
                assert(whole == rest.push(s.last().login));
                assert(whole[whole.len() - 1] == s[k].login);
            }
        }
        if unique_local(s) && !s.last().is_deleted {
            assert forall|a: int, b: int| 0 <= a < b < whole.len() implies (
            #[trigger] whole[a]).id != (#[trigger] whole[b]).id by {
                if b < rest.len() {
                    assert(whole[a] == rest[a] && whole[b] == rest[b]);
                } else {
                    assert(whole[a] == rest[a]);
                    assert(whole[b] == s[s.len() - 1].login);
                    let k = choose|k: int|
                        0 <= k < pre.len() && rest[a] == pre[k].login && !pre[k].is_deleted;
                    assert(s[k].login.id != s[s.len() - 1].login.id);
                }
            }
        }
    }
}

/// Visible mirror records: where they come from and that unshadowed rows
/// appear.
pub proof fn lemma_visible_mirrors_props(s: Seq<MirrorLoginView>)
    ensures
        forall|a: int|
            0 <= a < visible_mirrors(s).len() ==> exists|k: int|
                0 <= k < s.len() && (#[trigger] visible_mirrors(s)[a]) == s[k].login
                    && !s[k].is_overridden,
        forall|k: int|
            0 <= k < s.len() && !(#[trigger] s[k]).is_overridden ==> visible_mirrors(s).contains(
                s[k].login,
            ),
        unique_mirror(s) ==> forall|a: int, b: int|
            0 <= a < b < visible_mirrors(s).len() ==> (#[trigger] visible_mirrors(s)[a]).id != (
            #[trigger] visible_mirrors(s)[b]).id,
    decreases s.len(),
{
    if s.len() > 0 {
        let pre = s.drop_last();
        lemma_visible_mirrors_props(pre);
        assert(unique_mirror(s) ==> unique_mirror(pre));
        let rest = visible_mirrors(pre);
        let whole = visible_mirrors(s);
        assert forall|a: int| 0 <= a < rest.len() implies exists|k: int|
            0 <= k < s.len() && (#[trigger] rest[a]) == s[k].login && !s[k].is_overridden by {
            let k = choose|k: int|
                0 <= k < pre.len() && (#[trigger] rest[a]) == pre[k].login
                    && !pre[k].is_overridden;
            assert(s[k] == pre[k]);
        }
        assert forall|k: int| 0 <= k < s.len() && !(#[trigger] s[k]).is_overridden
            implies whole.contains(s[k].login) by {
            if k < s.len() - 1 {
                assert(pre[k] == s[k]);
                assert(rest.contains(s[k].login));
                let a = choose|a: int| 0 <= a < rest.len() && rest[a] == s[k].login;
                assert(whole[a] == rest[a]);
            } else {
                assert(whole == rest.push(s.last().login));
                assert(whole[whole.len() - 1] == s[k].login);
            }
        }
        if unique_mirror(s) && !s.last().is_overridden {
            assert forall|a: int, b: int| 0 <= a < b < whole.len() implies (
            #[trigger] whole[a]).id != (#[trigger] whole[b]).id by {
                if b < rest.len() {
                    assert(whole[a] == rest[a] && whole[b] == rest[b]);
                } else {
                    assert(whole[a] == rest[a]);
                    assert(whole[b] == s[s.len() - 1].login);
                    let k = choose|k: int|
                        0 <= k < pre.len() && rest[a] == pre[k].login && !pre[k].is_overridden;
                    assert(s[k].login.id != s[s.len() - 1].login.id);
                }
            }
        }
    }
}

/// A full read never yields the same GUID twice.
pub proof fn lemma_get_all_no_dup(db: DbView)
    requires
        db_wf(db),
    ensures
        forall|a: int, b: int|
            0 <= a < b < spec_get_all(db).len() ==> (#[trigger] spec_get_all(db)[a]).id != (
            #[trigger] spec_get_all(db)[b]).id,
{
    let vl = visible_locals(db.local);
    let vm = visible_mirrors(db.mirror);
    let ga = spec_get_all(db);
    lemma_visible_locals_props(db.local);
    lemma_visible_mirrors_props(db.mirror);
    assert forall|a: int, b: int| 0 <= a < b < ga.len() implies (#[trigger] ga[a]).id != (
    #[trigger] ga[b]).id by {
        if b < vl.len() {
            assert(ga[a] == vl[a] && ga[b] == vl[b]);
        } else if a >= vl.len() {
            assert(ga[a] == vm[a - vl.len()] && ga[b] == vm[b - vl.len()]);
        } else {
            assert(ga[a] == vl[a] && ga[b] == vm[b - vl.len()]);
            let k1 = choose|k: int|
                0 <= k < db.local.len() && vl[a] == db.local[k].login && !db.local[k].is_deleted;
            let k2 = choose|k: int|
                0 <= k < db.mirror.len() && vm[b - vl.len()] == db.mirror[k].login
                    && !db.mirror[k].is_overridden;
            if ga[a].id == ga[b].id {
                let g = ga[a].id;
                assert(has_local(db.local, g));
                assert(has_mirror(db.mirror, g));
                assert(mirror_at(db.mirror, g).is_overridden);
                lemma_mirror_index_agrees(db.mirror, g);
                assert(mirror_index(db.mirror, g) == k2);
            }
        }
    }
}

/// Reading one GUID is the same as filtering the full read by that GUID: a
/// hit appears in the full read under that GUID, a miss means the full read
/// has no record under it.
pub proof fn lemma_get_by_id_filters_get_all(db: DbView, g: Seq<char>)
    requires
        db_wf(db),
    ensures
        match spec_get_by_id(db, g) {
            Some(l) => l.id == g && spec_get_all(db).contains(l),
            None => forall|a: int|
                0 <= a < spec_get_all(db).len() ==> (#[trigger] spec_get_all(db)[a]).id != g,
        },
{
    let vl = visible_locals(db.local);
    let vm = visible_mirrors(db.mirror);
    let ga = spec_get_all(db);
    lemma_visible_locals_props(db.local);
    lemma_visible_mirrors_props(db.mirror);
    if has_local(db.local, g) {
        let i = local_index(db.local, g);
        assert(0 <= i < db.local.len() && db.local[i].login.id == g);
        if !db.local[i].is_deleted {
            assert(vl.contains(db.local[i].login));
            let a = choose|a: int| 0 <= a < vl.len() && vl[a] == db.local[i].login;
            assert(ga[a] == vl[a]);
            assert(ga.contains(local_at(db.local, g).login));
        } else {
            assert forall|a: int| 0 <= a < ga.len() implies (#[trigger] ga[a]).id != g by {
                if a < vl.len() {
                    let k = choose|k: int|
                        0 <= k < db.local.len() && vl[a] == db.local[k].login
                            && !db.local[k].is_deleted;
                    if ga[a].id == g {
                        lemma_local_index_agrees(db.local, g);
                        assert(local_index(db.local, g) == k);
                    }
                } else {
                    let k = choose|k: int|
                        0 <= k < db.mirror.len() && vm[a - vl.len()] == db.mirror[k].login
                            && !db.mirror[k].is_overridden;
                    if ga[a].id == g {
                        assert(has_mirror(db.mirror, g));
                        assert(mirror_at(db.mirror, g).is_overridden);
                        lemma_mirror_index_agrees(db.mirror, g);
                        assert(mirror_index(db.mirror, g) == k);
                    }
                }
            }
        }
    } else if has_mirror(db.mirror, g) && !mirror_at(db.mirror, g).is_overridden {
        let i = mirror_index(db.mirror, g);
        assert(0 <= i < db.mirror.len() && db.mirror[i].login.id == g);
        assert(vm.contains(db.mirror[i].login));
        let a = choose|a: int| 0 <= a < vm.len() && vm[a] == db.mirror[i].login;
        assert(ga[vl.len() + a] == vm[a]);
        assert(ga.contains(mirror_at(db.mirror, g).login));
    } else {
        assert forall|a: int| 0 <= a < ga.len() implies (#[trigger] ga[a]).id != g by {
            if a < vl.len() {
                let k = choose|k: int|
                    0 <= k < db.local.len() && vl[a] == db.local[k].login
                        && !db.local[k].is_deleted;
                if ga[a].id == g {
                    assert(has_local(db.local, g));
                }
            } else {
                let k = choose|k: int|
                    0 <= k < db.mirror.len() && vm[a - vl.len()] == db.mirror[k].login
                        && !db.mirror[k].is_overridden;
                if ga[a].id == g {
                    assert(has_mirror(db.mirror, g));
                    lemma_mirror_index_agrees(db.mirror, g);
                    assert(mirror_index(db.mirror, g) == k);
                }
            }
        }
    }
}


/// After a `reset` the mirror is empty and the store reports it never
/// synced.
pub proof fn lemma_reset_forgets(db: DbView)
    ensures
        spec_reset(db).mirror == Seq::<MirrorLoginView>::empty(),
        spec_reset(db).last_sync_ms == Some(0int),
{
}

/// A record joined against a store with no mirror rows never plans a mirror
/// update or a merged-overlay write: there is no common ancestor to merge
/// against, so applying a batch after `reset` behaves as against an empty
/// mirror.
pub proof fn lemma_reconcile_without_mirror(locals: Seq<LocalLoginView>, recs: Seq<SyncDataView>)
    requires
        forall|k: int| 0 <= k < recs.len() ==> (#[trigger] recs[k]).mirror is None,
    ensures
        forall|a: int|
            0 <= a < spec_reconcile(locals, recs).len() ==> !((#[trigger] spec_reconcile(
                locals,
                recs,
            )[a]) is MirrorUpdate) && !(spec_reconcile(locals, recs)[a] is LocalUpdate),
    decreases recs.len(),
{
    if recs.len() > 0 {
        let pre = recs.drop_last();
        assert forall|k: int| 0 <= k < pre.len() implies (#[trigger] pre[k]).mirror is None by {
            assert(pre[k] == recs[k]);
        }
        lemma_reconcile_without_mirror(locals, pre);
        let rest = spec_reconcile(locals, pre);
        let added = spec_record_actions(locals, recs.last());
        let whole = spec_reconcile(locals, recs);
        assert(recs[recs.len() - 1].mirror is None);
        assert forall|a: int| 0 <= a < added.len() implies !((#[trigger] added[a]) is MirrorUpdate)
            && !(added[a] is LocalUpdate) by {}
        assert forall|a: int| 0 <= a < whole.len() implies !((#[trigger] whole[a]) is MirrorUpdate)
            && !(whole[a] is LocalUpdate) by {
            if a < rest.len() {
                assert(whole[a] == rest[a]);
            } else {
                assert(whole[a] == added[a - rest.len()]);
            }
        }
    }
}

/// After `reset`, every joined slot of any batch has no mirror side.
pub proof fn lemma_fetch_after_reset(db: DbView, cs: Seq<(PayloadView, int)>)
    ensures
        forall|k: int|
            0 <= k < spec_fetch(spec_reset(db), cs).len() ==> (#[trigger] spec_fetch(
                spec_reset(db),
                cs,
            )[k]).mirror is None,
{
    let db1 = spec_reset(db);
    assert forall|k: int| 0 <= k < spec_fetch(db1, cs).len() implies (#[trigger] spec_fetch(
        db1,
        cs,
    )[k]).mirror is None by {
        assert(spec_fetch(db1, cs)[k] == spec_sync_data(db1, cs[k]));
        assert(!has_mirror(db1.mirror, payload_guid(cs[k].0)));
    }
}

/// Whether a plan step can put a row for `g` into either table.
pub open spec fn action_adds(a: ActionView, g: Seq<char>) -> bool {
    match a {
        ActionView::Delete { .. } => false,
        ActionView::MirrorUpdate { .. } => false,
        ActionView::MirrorInsert { login, .. } => login.id == g,
        ActionView::LocalUpdate { login, .. } => login.id == g,
        ActionView::TwoWayMerge { merged, .. } => merged.id == g,
    }
}

/// A GUID absent from both tables stays absent under any plan step that
/// does not add it.
pub proof fn lemma_action_keeps_absent(db: DbView, a: ActionView, g: Seq<char>)
    requires
        !has_local(db.local, g),
        !has_mirror(db.mirror, g),
        !action_adds(a, g),
    ensures
        !has_local(spec_apply_action(db, a).local, g),
        !has_mirror(spec_apply_action(db, a).mirror, g),
{
    let db2 = spec_apply_action(db, a);
    match a {
        ActionView::Delete { guid } => {
            lemma_locals_without_props(db.local, guid);
            let w = locals_without(db.local, guid);
            assert forall|i: int| 0 <= i < w.len() implies (#[trigger] w[i]).login.id != g by {
                let k = choose|k: int| 0 <= k < db.local.len() && w[i] == db.local[k];
            }
            lemma_mirrors_without_props(db.mirror, guid);
            let wm = mirrors_without(db.mirror, guid);
            assert forall|i: int| 0 <= i < wm.len() implies (#[trigger] wm[i]).login.id != g by {
                let k = choose|k: int| 0 <= k < db.mirror.len() && wm[i] == db.mirror[k];
            }
        },
        ActionView::MirrorUpdate { login, server_modified } => {
            assert forall|i: int| 0 <= i < db2.mirror.len() implies (
            #[trigger] db2.mirror[i]).login.id != g by {
                assert(db2.mirror[i].login.id == db.mirror[i].login.id);
            }
        },
        ActionView::MirrorInsert { login, server_modified, is_overridden } => {
            lemma_mirrors_without_props(db.mirror, login.id);
            let w = mirrors_without(db.mirror, login.id);
            assert forall|i: int| 0 <= i < db2.mirror.len() implies (
            #[trigger] db2.mirror[i]).login.id != g by {
                if i < w.len() {
                    assert(db2.mirror[i] == w[i]);
                    let k = choose|k: int| 0 <= k < db.mirror.len() && w[i] == db.mirror[k];
                } else {
                    assert(db2.mirror[i].login.id == login.id);
                }
            }
        },
        ActionView::LocalUpdate { login, server_modified } => {
            lemma_locals_without_props(db.local, login.id);
            let w = locals_without(db.local, login.id);
            assert forall|i: int| 0 <= i < db2.local.len() implies (
            #[trigger] db2.local[i]).login.id != g by {
                if i < w.len() {
                    assert(db2.local[i] == w[i]);
                    let k = choose|k: int| 0 <= k < db.local.len() && w[i] == db.local[k];
                } else {
                    assert(db2.local[i].login.id == login.id);
                }
            }
        },
        ActionView::TwoWayMerge { local_guid, merged, server_modified } => {
            lemma_locals_without_props(db.local, local_guid);
            let w0 = locals_without(db.local, local_guid);
            lemma_locals_without_props(w0, merged.id);
            let w = locals_without(w0, merged.id);
            assert forall|i: int| 0 <= i < db2.local.len() implies (
            #[trigger] db2.local[i]).login.id != g by {
                if i < w.len() {
                    assert(db2.local[i] == w[i]);
                    let k0 = choose|k: int| 0 <= k < w0.len() && w[i] == w0[k];
                    let k = choose|k: int| 0 <= k < db.local.len() && w0[k0] == db.local[k];
                } else {
                    assert(db2.local[i].login.id == merged.id);
                }
            }
        },
    }
}

/// A GUID absent from both tables stays absent under a whole plan none of
/// whose steps adds it.
pub proof fn lemma_plan_keeps_absent(db: DbView, actions: Seq<ActionView>, g: Seq<char>)
    requires
        !has_local(db.local, g),
        !has_mirror(db.mirror, g),
        forall|a: int| 0 <= a < actions.len() ==> !action_adds(#[trigger] actions[a], g),
    ensures
        !has_local(spec_apply_plan(db, actions).local, g),
        !has_mirror(spec_apply_plan(db, actions).mirror, g),
    decreases actions.len(),
{
    if actions.len() > 0 {
        let pre = actions.drop_last();
        assert forall|a: int| 0 <= a < pre.len() implies !action_adds(#[trigger] pre[a], g) by {
            assert(pre[a] == actions[a]);
        }
        lemma_plan_keeps_absent(db, pre, g);
        lemma_action_keeps_absent(spec_apply_plan(db, pre), actions.last(), g);
    }
}

/// A plan step deleting `g` leaves no row for `g`.
pub proof fn lemma_delete_action_removes(db: DbView, g: Seq<char>)
    ensures
        !has_local(spec_apply_action(db, ActionView::Delete { guid: g }).local, g),
        !has_mirror(spec_apply_action(db, ActionView::Delete { guid: g }).mirror, g),
{
    lemma_locals_without_props(db.local, g);
    lemma_mirrors_without_props(db.mirror, g);
    let db2 = spec_apply_action(db, ActionView::Delete { guid: g });
    assert forall|i: int| 0 <= i < db2.local.len() implies (#[trigger] db2.local[i]).login.id
        != g by {}
    assert forall|i: int| 0 <= i < db2.mirror.len() implies (#[trigger] db2.mirror[i]).login.id
        != g by {}
}

/// The steps one joined record contributes never add a row for another
/// GUID, provided the record's inbound copy carries its own GUID.
pub proof fn lemma_record_actions_avoid(locals: Seq<LocalLoginView>, rec: SyncDataView, g: Seq<char>)
    requires
        rec.guid != g,
        rec.inbound is Some ==> rec.inbound->0.id == rec.guid,
    ensures
        forall|a: int|
            0 <= a < spec_record_actions(locals, rec).len() ==> !action_adds(
                #[trigger] spec_record_actions(locals, rec)[a],
                g,
            ),
{
}

/// Applying a concatenation is applying the parts in turn.
pub proof fn lemma_apply_plan_concat(db: DbView, x: Seq<ActionView>, y: Seq<ActionView>)
    ensures
        spec_apply_plan(db, x + y) == spec_apply_plan(spec_apply_plan(db, x), y),
    decreases y.len(),
{
    if y.len() == 0 {
        assert(x + y =~= x);
    } else {
        assert((x + y).drop_last() =~= x + y.drop_last());
        assert((x + y).last() == y.last());
        lemma_apply_plan_concat(db, x, y.drop_last());
    }
}

/// Tombstone dominance: in a well-formed batch, an inbound tombstone for `g`
/// leaves the store without any row for `g`, whatever the local state was —
/// afterwards `g` reads as absent.
pub proof fn lemma_tombstone_dominance(db: DbView, cs: Seq<(PayloadView, int)>, k: int)
    requires
        db_wf(db),
        no_dup_guids(cs),
        0 <= k < cs.len(),
        cs[k].0 is Tombstone,
    ensures
        !has_local(spec_apply_incoming(db, cs).local, payload_guid(cs[k].0)),
        !has_mirror(spec_apply_incoming(db, cs).mirror, payload_guid(cs[k].0)),
        spec_get_by_id(spec_apply_incoming(db, cs), payload_guid(cs[k].0)) is None,
    decreases cs.len(),
{
    let g = payload_guid(cs[k].0);
    let recs = spec_fetch(db, cs);
    let locals = db.local;
    if k == cs.len() - 1 {
        let pre = recs.drop_last();
        assert(spec_reconcile(locals, recs) == spec_reconcile(locals, pre)
            + spec_record_actions(locals, recs.last()));
        assert(recs.last() == spec_sync_data(db, cs[k]));
        assert(recs.last().inbound is None);
        assert(spec_record_actions(locals, recs.last()) =~= seq![
            ActionView::Delete { guid: g },
        ]);
        lemma_apply_plan_concat(db, spec_reconcile(locals, pre), spec_record_actions(
            locals,
            recs.last(),
        ));
        let mid = spec_apply_plan(db, spec_reconcile(locals, pre));
        let fin = spec_apply_plan(mid, seq![ActionView::Delete { guid: g }]);
        assert(seq![ActionView::Delete { guid: g }].drop_last() =~= Seq::<ActionView>::empty());
        assert(spec_apply_plan(mid, Seq::<ActionView>::empty()) == mid);
        assert(seq![ActionView::Delete { guid: g }].last() == ActionView::Delete { guid: g });
        assert(fin == spec_apply_action(
            spec_apply_plan(mid, seq![ActionView::Delete { guid: g }].drop_last()),
            ActionView::Delete { guid: g },
        ));
        assert(fin == spec_apply_action(mid, ActionView::Delete { guid: g }));
        lemma_delete_action_removes(mid, g);
        assert(spec_apply_incoming(db, cs) == fin);
    } else {
        let csp = cs.drop_last();
        assert forall|i: int, j: int| 0 <= i < j < csp.len() implies payload_guid(
            (#[trigger] csp[i]).0,
        ) != payload_guid((#[trigger] csp[j]).0) by {
            assert(csp[i] == cs[i] && csp[j] == cs[j]);
        }
        assert(csp[k] == cs[k]);
        lemma_tombstone_dominance(db, csp, k);
        let recsp = spec_fetch(db, csp);
        assert(recs.drop_last() =~= recsp);
        let rest_plan = spec_reconcile(locals, recsp);
        let last_rec = recs.last();
        assert(last_rec == spec_sync_data(db, cs[cs.len() - 1]));
        assert(spec_reconcile(locals, recs) == rest_plan + spec_record_actions(locals, last_rec));
        lemma_apply_plan_concat(db, rest_plan, spec_record_actions(locals, last_rec));
        let mid = spec_apply_plan(db, rest_plan);
        assert(mid == spec_apply_incoming(db, csp));
        assert(last_rec.guid == payload_guid(cs[cs.len() - 1].0));
        assert(payload_guid(cs[cs.len() - 1].0) != g);
        assert(last_rec.inbound is Some ==> last_rec.inbound->0.id == last_rec.guid);
        lemma_record_actions_avoid(locals, last_rec, g);
        lemma_plan_keeps_absent(mid, spec_record_actions(locals, last_rec), g);
        assert(spec_apply_incoming(db, cs) == spec_apply_plan(
            mid,
            spec_record_actions(locals, last_rec),
        ));
    }
}


/// A plan step deleting a record keeps the store invariants: remote
/// deletions are always safe to apply.
pub proof fn lemma_delete_preserves_wf(db: DbView, g: Seq<char>)
    requires
        db_wf(db),
    ensures
        db_wf(spec_apply_action(db, ActionView::Delete { guid: g })),
{
    lemma_locals_without_props(db.local, g);
    lemma_mirrors_without_props(db.mirror, g);
    let l1 = locals_without(db.local, g);
    let m1 = mirrors_without(db.mirror, g);
    assert forall|a: int|
        0 <= a < l1.len() && has_mirror(m1, (#[trigger] l1[a]).login.id) implies mirror_at(
        m1,
        l1[a].login.id,
    ).is_overridden by {
        let h = l1[a].login.id;
        let k = mirror_index(m1, h);
        assert(0 <= k < m1.len() && m1[k].login.id == h);
        let k0 = choose|k0: int| 0 <= k0 < db.mirror.len() && m1[k] == db.mirror[k0];
        let a0 = choose|a0: int| 0 <= a0 < db.local.len() && l1[a] == db.local[a0];
        assert(db.mirror[k0].login.id == h);
        assert(has_mirror(db.mirror, h));
        assert(db.local[a0].login.id == h);
        assert(mirror_at(db.mirror, h).is_overridden);
        lemma_mirror_index_agrees(db.mirror, h);
        assert(mirror_index(db.mirror, h) == k0);
        assert(mirror_at(m1, h) == db.mirror[k0]);
    }
    assert forall|a: int|
        0 <= a < l1.len() && (#[trigger] l1[a]).sync_status == SyncStatus::New
        implies !has_mirror(m1, l1[a].login.id) by {
        let h = l1[a].login.id;
        let a0 = choose|a0: int| 0 <= a0 < db.local.len() && l1[a] == db.local[a0];
        assert(db.local[a0].sync_status == SyncStatus::New);
        assert(!has_mirror(db.mirror, h));
        if has_mirror(m1, h) {
            let k = mirror_index(m1, h);
            let k0 = choose|k0: int| 0 <= k0 < db.mirror.len() && m1[k] == db.mirror[k0];
            assert(db.mirror[k0].login.id == h);
        }
    }
}

/// A plan step forwarding the mirror to the server's copy keeps the store
/// invariants: GUIDs, override flags and overlay rows are all untouched.
pub proof fn lemma_mirror_update_preserves_wf(db: DbView, l: LoginView, t: int)
    requires
        db_wf(db),
    ensures
        db_wf(spec_apply_action(db, ActionView::MirrorUpdate { login: l, server_modified: t })),
{
    let m1 = mirror_updated(db.mirror, l, t);
    assert forall|i: int| 0 <= i < m1.len() implies (#[trigger] m1[i]).login.id
        == db.mirror[i].login.id && m1[i].is_overridden == db.mirror[i].is_overridden by {}
    assert forall|a: int, b: int| 0 <= a < b < m1.len() implies (#[trigger] m1[a]).login.id != (
    #[trigger] m1[b]).login.id by {
        assert(db.mirror[a].login.id != db.mirror[b].login.id);
    }
    assert forall|a: int|
        0 <= a < db.local.len() && has_mirror(m1, (#[trigger] db.local[a]).login.id)
        implies mirror_at(m1, db.local[a].login.id).is_overridden by {
        let h = db.local[a].login.id;
        let k = mirror_index(m1, h);
        assert(0 <= k < m1.len() && m1[k].login.id == h);
        assert(db.mirror[k].login.id == h);
        assert(has_mirror(db.mirror, h));
        lemma_mirror_index_agrees(db.mirror, h);
        assert(mirror_index(db.mirror, h) == k);
        assert(mirror_at(db.mirror, h).is_overridden);
        assert(m1[k].is_overridden);
    }
    assert forall|a: int|
        0 <= a < db.local.len() && (#[trigger] db.local[a]).sync_status == SyncStatus::New
        implies !has_mirror(m1, db.local[a].login.id) by {
        let h = db.local[a].login.id;
        assert(!has_mirror(db.mirror, h));
        if has_mirror(m1, h) {
            let k = mirror_index(m1, h);
            assert(db.mirror[k].login.id == h);
        }
    }
}

/// Plan steps never touch the sync-meta values: a committed batch changes
/// the tables, not `last_sync` or the global state.
pub proof fn lemma_apply_plan_keeps_meta(db: DbView, actions: Seq<ActionView>)
    ensures
        spec_apply_plan(db, actions).last_sync_ms == db.last_sync_ms,
        spec_apply_plan(db, actions).global_state == db.global_state,
    decreases actions.len(),
{
    if actions.len() > 0 {
        lemma_apply_plan_keeps_meta(db, actions.drop_last());
    }
}


/// Applying a batch right after `reset` behaves as against an empty mirror:
/// the plan never forwards a mirror row or merges against an ancestor,
/// because no record has one.
pub proof fn lemma_apply_after_reset_has_no_ancestor(db: DbView, cs: Seq<(PayloadView, int)>)
    ensures
        ({
            let db1 = spec_reset(db);
            let plan = spec_reconcile(db1.local, spec_fetch(db1, cs));
            forall|a: int|
                0 <= a < plan.len() ==> !((#[trigger] plan[a]) is MirrorUpdate) && !(
                plan[a] is LocalUpdate)
        }),
{
    lemma_fetch_after_reset(db, cs);
    lemma_reconcile_without_mirror(spec_reset(db).local, spec_fetch(spec_reset(db), cs));
}


/// Applying one step, then another.
pub proof fn lemma_apply_single(db: DbView, a: ActionView)
    ensures
        spec_apply_plan(db, seq![a]) == spec_apply_action(db, a),
{
    assert(seq![a].drop_last() =~= Seq::<ActionView>::empty());
    assert(spec_apply_plan(db, Seq::<ActionView>::empty()) == db);
    assert(seq![a].last() == a);
}

/// Applying a two-step plan is applying the steps in turn.
pub proof fn lemma_apply_pair(db: DbView, a1: ActionView, a2: ActionView)
    ensures
        spec_apply_plan(db, seq![a1, a2]) == spec_apply_action(spec_apply_action(db, a1), a2),
{
    assert(seq![a1, a2].drop_last() =~= seq![a1]);
    assert(seq![a1, a2].last() == a2);
    lemma_apply_single(db, a1);
}

/// A mirror insert keeps the store invariants provided an unshadowed insert
/// lands on a GUID with no overlay row, and no `New` overlay row shares its
/// GUID.
pub proof fn lemma_mirror_insert_preserves_wf(db: DbView, l: LoginView, t: int, f: bool)
    requires
        db_wf(db),
        !f ==> !has_local(db.local, l.id),
        has_local(db.local, l.id) ==> local_at(db.local, l.id).sync_status != SyncStatus::New,
    ensures
        db_wf(
            spec_apply_action(
                db,
                ActionView::MirrorInsert { login: l, server_modified: t, is_overridden: f },
            ),
        ),
{
    lemma_apply_action_unique(
        db,
        ActionView::MirrorInsert { login: l, server_modified: t, is_overridden: f },
    );
    lemma_mirrors_without_props(db.mirror, l.id);
    let w = mirrors_without(db.mirror, l.id);
    let row = MirrorLoginView { login: l, server_modified: t, is_overridden: f };
    let m1 = w.push(row);
    lemma_local_index_agrees(db.local, l.id);
    assert forall|a: int|
        0 <= a < db.local.len() && has_mirror(m1, (#[trigger] db.local[a]).login.id)
        implies mirror_at(m1, db.local[a].login.id).is_overridden by {
        let h = db.local[a].login.id;
        let k = mirror_index(m1, h);
        assert(0 <= k < m1.len() && m1[k].login.id == h);
        if h == l.id {
            assert(has_local(db.local, l.id));
            assert(f);
            if k < w.len() {
                let k0 = choose|k0: int| 0 <= k0 < db.mirror.len() && w[k] == db.mirror[k0];
                assert(w[k].login.id != l.id);
            }
            assert(m1[k] == row);
        } else {
            assert(k < w.len());
            assert(m1[k] == w[k]);
            let k0 = choose|k0: int| 0 <= k0 < db.mirror.len() && w[k] == db.mirror[k0];
            assert(db.mirror[k0].login.id == h);
            assert(has_mirror(db.mirror, h));
            assert(mirror_at(db.mirror, h).is_overridden);
            lemma_mirror_index_agrees(db.mirror, h);
            assert(mirror_index(db.mirror, h) == k0);
        }
    }
    assert forall|a: int|
        0 <= a < db.local.len() && (#[trigger] db.local[a]).sync_status == SyncStatus::New
        implies !has_mirror(m1, db.local[a].login.id) by {
        let h = db.local[a].login.id;
        assert(has_local(db.local, h));
        if h == l.id {
            assert(local_at(db.local, l.id).sync_status != SyncStatus::New);
            assert(local_index(db.local, l.id) == a);
        } else {
            assert(!has_mirror(db.mirror, h));
            if has_mirror(m1, h) {
                let k = mirror_index(m1, h);
                assert(k < w.len());
                assert(m1[k] == w[k]);
                let k0 = choose|k0: int| 0 <= k0 < db.mirror.len() && w[k] == db.mirror[k0];
                assert(db.mirror[k0].login.id == h);
            }
        }
    }
}

/// Writing a merged overlay row for upload keeps the store invariants
/// provided any mirror row under that GUID is already shadowed.
pub proof fn lemma_local_write_preserves_wf(db: DbView, l: LoginView, t: int)
    requires
        db_wf(db),
        has_mirror(db.mirror, l.id) ==> mirror_at(db.mirror, l.id).is_overridden,
    ensures
        db_wf(
            spec_apply_action(db, ActionView::LocalUpdate { login: l, server_modified: t }),
        ),
{
    lemma_apply_action_unique(db, ActionView::LocalUpdate { login: l, server_modified: t });
    lemma_locals_without_props(db.local, l.id);
    let w = locals_without(db.local, l.id);
    let l1 = w.push(plan_local_row(l, t));
    assert forall|a: int|
        0 <= a < l1.len() && has_mirror(db.mirror, (#[trigger] l1[a]).login.id)
        implies mirror_at(db.mirror, l1[a].login.id).is_overridden by {
        if a < w.len() {
            assert(l1[a] == w[a]);
            let a0 = choose|a0: int| 0 <= a0 < db.local.len() && w[a] == db.local[a0];
        } else {
            assert(l1[a].login.id == l.id);
        }
    }
    assert forall|a: int|
        0 <= a < l1.len() && (#[trigger] l1[a]).sync_status == SyncStatus::New
        implies !has_mirror(db.mirror, l1[a].login.id) by {
        if a < w.len() {
            assert(l1[a] == w[a]);
            let a0 = choose|a0: int| 0 <= a0 < db.local.len() && w[a] == db.local[a0];
            assert(db.local[a0].sync_status == SyncStatus::New);
        } else {
            assert(l1[a] == plan_local_row(l, t));
        }
    }
}

/// Resolving an overlay row two-way keeps the store invariants provided any
/// mirror row under the merged GUID is already shadowed.
pub proof fn lemma_two_way_action_preserves_wf(
    db: DbView,
    lg: Seq<char>,
    merged: LoginView,
    t: int,
)
    requires
        db_wf(db),
        has_mirror(db.mirror, merged.id) ==> mirror_at(db.mirror, merged.id).is_overridden,
    ensures
        db_wf(
            spec_apply_action(
                db,
                ActionView::TwoWayMerge { local_guid: lg, merged, server_modified: t },
            ),
        ),
{
    lemma_apply_action_unique(
        db,
        ActionView::TwoWayMerge { local_guid: lg, merged, server_modified: t },
    );
    lemma_locals_without_props(db.local, lg);
    let w0 = locals_without(db.local, lg);
    lemma_locals_without_props(w0, merged.id);
    let w = locals_without(w0, merged.id);
    let l1 = w.push(plan_local_row(merged, t));
    assert forall|a: int| 0 <= a < w.len() implies exists|k: int|
        0 <= k < db.local.len() && (#[trigger] w[a]) == db.local[k] by {
        let a0 = choose|a0: int| 0 <= a0 < w0.len() && w[a] == w0[a0];
        let k = choose|k: int| 0 <= k < db.local.len() && w0[a0] == db.local[k];
    }
    assert forall|a: int|
        0 <= a < l1.len() && has_mirror(db.mirror, (#[trigger] l1[a]).login.id)
        implies mirror_at(db.mirror, l1[a].login.id).is_overridden by {
        if a < w.len() {
            assert(l1[a] == w[a]);
            let k = choose|k: int| 0 <= k < db.local.len() && w[a] == db.local[k];
        } else {
            assert(l1[a].login.id == merged.id);
        }
    }
    assert forall|a: int|
        0 <= a < l1.len() && (#[trigger] l1[a]).sync_status == SyncStatus::New
        implies !has_mirror(db.mirror, l1[a].login.id) by {
        if a < w.len() {
            assert(l1[a] == w[a]);
            let k = choose|k: int| 0 <= k < db.local.len() && w[a] == db.local[k];
            assert(db.local[k].sync_status == SyncStatus::New);
        } else {
            assert(l1[a] == plan_local_row(merged, t));
        }
    }
}


/// One reconciled record's plan steps keep the store invariants, provided
/// the joined slot tells the truth about the state the plan runs against:
/// its GUID matches its sides, missing sides are really missing, and a
/// mirror row under an overlay row is shadowed.
pub proof fn lemma_record_actions_preserve_wf(
    locals: Seq<LocalLoginView>,
    mid: DbView,
    rec: SyncDataView,
)
    requires
        db_wf(mid),
        rec.inbound is Some ==> rec.inbound->0.id == rec.guid,
        rec.local is None ==> !has_local(mid.local, rec.guid),
        rec.mirror is None ==> !has_mirror(mid.mirror, rec.guid),
        rec.local is Some && has_mirror(mid.mirror, rec.guid) ==> mirror_at(
            mid.mirror,
            rec.guid,
        ).is_overridden,
    ensures
        db_wf(spec_apply_plan(mid, spec_record_actions(locals, rec))),
{
    let g = rec.guid;
    match rec.inbound {
        None => {
            lemma_apply_single(mid, ActionView::Delete { guid: g });
            lemma_delete_preserves_wf(mid, g);
        },
        Some(up) => {
            let t = rec.inbound_ts;
            match (rec.mirror, rec.local) {
                (Some(m), Some(loc)) => {
                    let merged = crate::merge::spec_three_way_merge(loc, m.login, up, t);
                    if crate::login::content_eq(merged, up) {
                        lemma_apply_single(
                            mid,
                            ActionView::MirrorUpdate { login: up, server_modified: t },
                        );
                        lemma_mirror_update_preserves_wf(mid, up, t);
                    } else {
                        let a1 = ActionView::LocalUpdate { login: merged, server_modified: t };
                        let a2 = ActionView::MirrorInsert {
                            login: up,
                            server_modified: t,
                            is_overridden: true,
                        };
                        assert(spec_record_actions(locals, rec) =~= seq![a1, a2]);
                        lemma_apply_pair(mid, a1, a2);
                        assert(merged.id == g);
                        lemma_local_write_preserves_wf(mid, merged, t);
                        let mid1 = spec_apply_action(mid, a1);
                        lemma_apply_action_unique(mid, a1);
                        lemma_locals_without_props(mid.local, merged.id);
                        let w = locals_without(mid.local, merged.id);
                        assert(mid1.local == w.push(plan_local_row(merged, t)));
                        assert(mid1.local[w.len() as int].login.id == g);
                        assert(has_local(mid1.local, g));
                        lemma_local_index_agrees(mid1.local, g);
                        assert(local_at(mid1.local, g) == plan_local_row(merged, t));
                        lemma_mirror_insert_preserves_wf(mid1, up, t, true);
                    }
                },
                (Some(m), None) => {
                    lemma_apply_single(
                        mid,
                        ActionView::MirrorUpdate { login: up, server_modified: t },
                    );
                    lemma_mirror_update_preserves_wf(mid, up, t);
                },
                (None, Some(loc)) => {
                    lemma_two_way_plan_preserves_wf(mid, loc, up, t, g);
                },
                (None, None) => {
                    match spec_find_dupe(locals, up) {
                        Some(d) => {
                            lemma_two_way_plan_preserves_wf(mid, d, up, t, g);
                        },
                        None => {
                            lemma_apply_single(
                                mid,
                                ActionView::MirrorInsert {
                                    login: up,
                                    server_modified: t,
                                    is_overridden: false,
                                },
                            );
                            lemma_mirror_insert_preserves_wf(mid, up, t, false);
                        },
                    }
                },
            }
        },
    }
}

/// The two steps of a planned two-way merge keep the store invariants when
/// run against a state with no mirror row for the incoming GUID.
pub proof fn lemma_two_way_plan_preserves_wf(
    mid: DbView,
    local: LocalLoginView,
    up: LoginView,
    t: int,
    g: Seq<char>,
)
    requires
        db_wf(mid),
        up.id == g,
        !has_mirror(mid.mirror, g),
    ensures
        db_wf(spec_apply_plan(mid, spec_plan_two_way(local, up, t))),
{
    let merged = crate::merge::spec_two_way_merge(local, up, t);
    let a1 = ActionView::TwoWayMerge {
        local_guid: local.login.id,
        merged,
        server_modified: t,
    };
    let a2 = ActionView::MirrorInsert { login: up, server_modified: t, is_overridden: true };
    assert(spec_plan_two_way(local, up, t) =~= seq![a1, a2]);
    lemma_apply_pair(mid, a1, a2);
    assert(merged.id == g);
    lemma_two_way_action_preserves_wf(mid, local.login.id, merged, t);
    let mid1 = spec_apply_action(mid, a1);
    lemma_apply_action_unique(mid, a1);
    lemma_locals_without_props(mid.local, local.login.id);
    let w0 = locals_without(mid.local, local.login.id);
    lemma_locals_without_props(w0, merged.id);
    let w = locals_without(w0, merged.id);
    assert(mid1.local == w.push(plan_local_row(merged, t)));
    assert(mid1.local[w.len() as int].login.id == g);
    assert(has_local(mid1.local, g));
    lemma_local_index_agrees(mid1.local, g);
    assert(local_at(mid1.local, g) == plan_local_row(merged, t));
    lemma_mirror_insert_preserves_wf(mid1, up, t, true);
}


/// Whether a plan step can write an overlay row under `h`.
pub open spec fn action_writes_local(a: ActionView, h: Seq<char>) -> bool {
    match a {
        ActionView::LocalUpdate { login, .. } => login.id == h,
        ActionView::TwoWayMerge { merged, .. } => merged.id == h,
        _ => false,
    }
}

/// Whether a plan step can write a mirror row under `h`.
pub open spec fn action_writes_mirror(a: ActionView, h: Seq<char>) -> bool {
    match a {
        ActionView::MirrorUpdate { login, .. } => login.id == h,
        ActionView::MirrorInsert { login, .. } => login.id == h,
        _ => false,
    }
}

/// A plan step that does not write under `h` can only keep or drop the rows
/// `h` already had: a surviving overlay row was there, and a surviving
/// mirror row is unchanged.
pub proof fn lemma_action_transfer(db: DbView, a: ActionView, h: Seq<char>)
    requires
        db_unique(db),
        !action_writes_local(a, h),
        !action_writes_mirror(a, h),
    ensures
        has_local(spec_apply_action(db, a).local, h) ==> has_local(db.local, h),
        has_mirror(spec_apply_action(db, a).mirror, h) ==> has_mirror(db.mirror, h) && mirror_at(
            spec_apply_action(db, a).mirror,
            h,
        ) == mirror_at(db.mirror, h),
{
    let db2 = spec_apply_action(db, a);
    match a {
        ActionView::Delete { guid } => {
            lemma_locals_without_props(db.local, guid);
            lemma_mirrors_without_props(db.mirror, guid);
            let w = locals_without(db.local, guid);
            if has_local(db2.local, h) {
                let k = local_index(w, h);
                assert(0 <= k < w.len() && w[k].login.id == h);
                let k0 = choose|k0: int| 0 <= k0 < db.local.len() && w[k] == db.local[k0];
                assert(db.local[k0].login.id == h);
            }
            let wm = mirrors_without(db.mirror, guid);
            if has_mirror(db2.mirror, h) {
                let k = mirror_index(wm, h);
                assert(0 <= k < wm.len() && wm[k].login.id == h);
                let k0 = choose|k0: int| 0 <= k0 < db.mirror.len() && wm[k] == db.mirror[k0];
                assert(db.mirror[k0].login.id == h);
                lemma_mirror_index_agrees(db.mirror, h);
                assert(mirror_index(db.mirror, h) == k0);
                lemma_mirror_index_agrees(wm, h);
                assert(mirror_at(wm, h) == wm[k]);
            }
        },
        ActionView::MirrorUpdate { login, server_modified } => {
            let m1 = mirror_updated(db.mirror, login, server_modified);
            assert forall|i: int| 0 <= i < m1.len() implies (#[trigger] m1[i]).login.id
                == db.mirror[i].login.id by {}
            if has_mirror(db2.mirror, h) {
                let k = mirror_index(m1, h);
                assert(0 <= k < m1.len() && m1[k].login.id == h);
                assert(db.mirror[k].login.id == h);
                assert(m1[k] == db.mirror[k]);
                lemma_mirror_index_agrees(db.mirror, h);
                assert(mirror_index(db.mirror, h) == k);
                assert forall|i: int, j: int| 0 <= i < j < m1.len() implies (
                #[trigger] m1[i]).login.id != (#[trigger] m1[j]).login.id by {
                    assert(db.mirror[i].login.id != db.mirror[j].login.id);
                }
                lemma_mirror_index_agrees(m1, h);
                assert(mirror_at(m1, h) == m1[k]);
            }
        },
        ActionView::MirrorInsert { login, server_modified, is_overridden } => {
            lemma_mirrors_without_props(db.mirror, login.id);
            let w = mirrors_without(db.mirror, login.id);
            let m1 = db2.mirror;
            if has_mirror(m1, h) {
                let k = mirror_index(m1, h);
                assert(0 <= k < m1.len() && m1[k].login.id == h);
                assert(k < w.len());
                assert(m1[k] == w[k]);
                let k0 = choose|k0: int| 0 <= k0 < db.mirror.len() && w[k] == db.mirror[k0];
                assert(db.mirror[k0].login.id == h);
                lemma_mirror_index_agrees(db.mirror, h);
                assert(mirror_index(db.mirror, h) == k0);
                lemma_apply_action_unique(db, a);
                lemma_mirror_index_agrees(m1, h);
                assert(mirror_at(m1, h) == m1[k]);
            }
        },
        ActionView::LocalUpdate { login, server_modified } => {
            lemma_locals_without_props(db.local, login.id);
            let w = locals_without(db.local, login.id);
            if has_local(db2.local, h) {
                let k = local_index(db2.local, h);
                assert(0 <= k < db2.local.len() && db2.local[k].login.id == h);
                assert(k < w.len());
                assert(db2.local[k] == w[k]);
                let k0 = choose|k0: int| 0 <= k0 < db.local.len() && w[k] == db.local[k0];
                assert(db.local[k0].login.id == h);
            }
        },
        ActionView::TwoWayMerge { local_guid, merged, server_modified } => {
            lemma_locals_without_props(db.local, local_guid);
            let w0 = locals_without(db.local, local_guid);
            lemma_locals_without_props(w0, merged.id);
            let w = locals_without(w0, merged.id);
            if has_local(db2.local, h) {
                let k = local_index(db2.local, h);
                assert(0 <= k < db2.local.len() && db2.local[k].login.id == h);
                assert(k < w.len());
                assert(db2.local[k] == w[k]);
                let k1 = choose|k1: int| 0 <= k1 < w0.len() && w[k] == w0[k1];
                let k0 = choose|k0: int| 0 <= k0 < db.local.len() && w0[k1] == db.local[k0];
                assert(db.local[k0].login.id == h);
            }
        },
    }
}

/// One record's steps write only under the record's own GUID.
pub proof fn lemma_record_actions_write_own_guid(
    locals: Seq<LocalLoginView>,
    rec: SyncDataView,
    h: Seq<char>,
)
    requires
        rec.guid != h,
        rec.inbound is Some ==> rec.inbound->0.id == rec.guid,
    ensures
        forall|a: int|
            0 <= a < spec_record_actions(locals, rec).len() ==> !action_writes_local(
                #[trigger] spec_record_actions(locals, rec)[a],
                h,
            ) && !action_writes_mirror(spec_record_actions(locals, rec)[a], h),
{
}

/// A plan none of whose steps writes under `h` can only keep or drop what
/// `h` had.
pub proof fn lemma_plan_transfer(db: DbView, actions: Seq<ActionView>, h: Seq<char>)
    requires
        db_unique(db),
        forall|a: int|
            0 <= a < actions.len() ==> !action_writes_local(#[trigger] actions[a], h)
                && !action_writes_mirror(actions[a], h),
    ensures
        has_local(spec_apply_plan(db, actions).local, h) ==> has_local(db.local, h),
        has_mirror(spec_apply_plan(db, actions).mirror, h) ==> has_mirror(db.mirror, h)
            && mirror_at(spec_apply_plan(db, actions).mirror, h) == mirror_at(db.mirror, h),
    decreases actions.len(),
{
    if actions.len() > 0 {
        let pre = actions.drop_last();
        assert forall|a: int| 0 <= a < pre.len() implies !action_writes_local(
            #[trigger] pre[a],
            h,
        ) && !action_writes_mirror(pre[a], h) by {
            assert(pre[a] == actions[a]);
        }
        lemma_plan_transfer(db, pre, h);
        lemma_apply_plan_unique(db, pre);
        lemma_action_transfer(spec_apply_plan(db, pre), actions.last(), h);
    }
}

/// A GUID appears among the first `j` records of a batch.
pub open spec fn guid_among(cs: Seq<(PayloadView, int)>, j: int, h: Seq<char>) -> bool {
    exists|i: int| 0 <= i < j && payload_guid((#[trigger] cs[i]).0) == h
}

/// Applying the first `j` records of a well-formed batch keeps the store
/// invariants; overlay rows only appear under original or already-processed
/// GUIDs, and mirror rows under unprocessed GUIDs are exactly the original
/// ones.
pub proof fn lemma_apply_prefix_wf(db: DbView, cs: Seq<(PayloadView, int)>, j: int)
    requires
        db_wf(db),
        no_dup_guids(cs),
        0 <= j <= cs.len(),
    ensures
        ({
            let st = spec_apply_plan(
                db,
                spec_reconcile(db.local, spec_fetch(db, cs).subrange(0, j)),
            );
            &&& db_wf(st)
            &&& forall|h: Seq<char>|
                #[trigger] has_local(st.local, h) ==> has_local(db.local, h) || guid_among(
                    cs,
                    j,
                    h,
                )
            &&& forall|h: Seq<char>|
                !guid_among(cs, j, h) && #[trigger] has_mirror(st.mirror, h) ==> has_mirror(
                    db.mirror,
                    h,
                ) && mirror_at(st.mirror, h) == mirror_at(db.mirror, h)
        }),
    decreases j,
{
    let recs = spec_fetch(db, cs);
    if j == 0 {
        assert(recs.subrange(0, 0) =~= Seq::<SyncDataView>::empty());
        assert(spec_reconcile(db.local, recs.subrange(0, 0)) == Seq::<ActionView>::empty());
        assert(spec_apply_plan(db, Seq::<ActionView>::empty()) == db);
    } else {
        lemma_apply_prefix_wf(db, cs, j - 1);
        let prev_plan = spec_reconcile(db.local, recs.subrange(0, j - 1));
        let prev = spec_apply_plan(db, prev_plan);
        let rec = recs[j - 1];
        let g = rec.guid;
        assert(rec == spec_sync_data(db, cs[j - 1]));
        assert(g == payload_guid(cs[j - 1].0));
        assert(recs.subrange(0, j).drop_last() =~= recs.subrange(0, j - 1));
        assert(recs.subrange(0, j).last() == rec);
        assert(spec_reconcile(db.local, recs.subrange(0, j)) == prev_plan
            + spec_record_actions(db.local, rec));
        lemma_apply_plan_concat(db, prev_plan, spec_record_actions(db.local, rec));
        let st = spec_apply_plan(prev, spec_record_actions(db.local, rec));

        assert(!guid_among(cs, j - 1, g)) by {
            if guid_among(cs, j - 1, g) {
                let i = choose|i: int| 0 <= i < j - 1 && payload_guid((#[trigger] cs[i]).0) == g;
                assert(payload_guid(cs[i].0) != payload_guid(cs[j - 1].0));
            }
        }
        // the joined slot tells the truth about the state the steps run on
        assert(rec.inbound is Some ==> rec.inbound->0.id == g);
        if rec.local is Some {
            assert(has_local(db.local, g));
            assert(local_at(db.local, g).login.id == g);
        } else {
            assert(!has_local(db.local, g));
            assert(has_local(prev.local, g) ==> has_local(db.local, g) || guid_among(
                cs,
                j - 1,
                g,
            ));
        }
        if rec.mirror is None {
            assert(!has_mirror(db.mirror, g));
            assert(!has_mirror(prev.mirror, g));
        }
        if rec.local is Some && has_mirror(prev.mirror, g) {
            assert(mirror_at(prev.mirror, g) == mirror_at(db.mirror, g));
            assert(mirror_at(db.mirror, g).is_overridden);
        }
        lemma_record_actions_preserve_wf(db.local, prev, rec);

        assert forall|h: Seq<char>| #[trigger] has_local(st.local, h) implies has_local(
            db.local,
            h,
        ) || guid_among(cs, j, h) by {
            if h == g {
                assert(payload_guid(cs[j - 1].0) == h);
                assert(guid_among(cs, j, h));
            } else {
                lemma_record_actions_write_own_guid(db.local, rec, h);
                lemma_plan_transfer(prev, spec_record_actions(db.local, rec), h);
                assert(has_local(prev.local, h));
                if !guid_among(cs, j - 1, h) {
                } else {
                    let i = choose|i: int|
                        0 <= i < j - 1 && payload_guid((#[trigger] cs[i]).0) == h;
                    assert(guid_among(cs, j, h));
                }
            }
        }
        assert forall|h: Seq<char>|
            !guid_among(cs, j, h) && #[trigger] has_mirror(st.mirror, h) implies has_mirror(
            db.mirror,
            h,
        ) && mirror_at(st.mirror, h) == mirror_at(db.mirror, h) by {
            assert(h != g) by {
                if h == g {
                    assert(payload_guid(cs[j - 1].0) == h);
                }
            }
            assert(!guid_among(cs, j - 1, h)) by {
                if guid_among(cs, j - 1, h) {
                    let i = choose|i: int|
                        0 <= i < j - 1 && payload_guid((#[trigger] cs[i]).0) == h;
                }
            }
            lemma_record_actions_write_own_guid(db.local, rec, h);
            lemma_plan_transfer(prev, spec_record_actions(db.local, rec), h);
        }
    }
}

/// Applying a whole well-formed incoming batch keeps the store invariants.
pub proof fn lemma_apply_incoming_wf(db: DbView, cs: Seq<(PayloadView, int)>)
    requires
        db_wf(db),
        no_dup_guids(cs),
    ensures
        db_wf(spec_apply_incoming(db, cs)),
{
    lemma_apply_prefix_wf(db, cs, cs.len() as int);
    assert(spec_fetch(db, cs).subrange(0, cs.len() as int) =~= spec_fetch(db, cs));
}


/// A joined slot with no rows of its own but a content duplicate in the
/// overlay plans a two-way merge — the duplicate row resolved under the
/// incoming GUID plus the server's copy shadowed in the mirror — and never a
/// fresh, unshadowed mirror insert.
pub proof fn lemma_dupe_plans_two_way(locals: Seq<LocalLoginView>, rec: SyncDataView)
    requires
        rec.inbound is Some,
        rec.mirror is None,
        rec.local is None,
        spec_find_dupe(locals, rec.inbound->0) is Some,
    ensures
        spec_record_actions(locals, rec) == spec_plan_two_way(
            spec_find_dupe(locals, rec.inbound->0)->0,
            rec.inbound->0,
            rec.inbound_ts,
        ),
        forall|a: int|
            0 <= a < spec_record_actions(locals, rec).len() ==> !((#[trigger] spec_record_actions(
                locals,
                rec,
            )[a]) matches ActionView::MirrorInsert { is_overridden: false, .. }),
{
    let actions = spec_record_actions(locals, rec);
    assert forall|a: int| 0 <= a < actions.len() implies !((#[trigger] actions[a])
        matches ActionView::MirrorInsert { is_overridden: false, .. }) by {
        assert(actions.len() == 2);
        if a == 0 {
            assert(actions[0] is TwoWayMerge);
        } else {
            assert(actions[1] == ActionView::MirrorInsert {
                login: rec.inbound->0,
                server_modified: rec.inbound_ts,
                is_overridden: true,
            });
        }
    }
}

/// Every live overlay row whose GUID a promotion names becomes a fresh,
/// unshadowed mirror row at the new server time.
pub proof fn lemma_promoted_contains(s: Seq<LocalLoginView>, gs: Seq<Seq<char>>, ts: int)
    ensures
        forall|k: int|
            0 <= k < s.len() && gs.contains((#[trigger] s[k]).login.id) && !s[k].is_deleted
                ==> promoted(s, gs, ts).contains(
                MirrorLoginView {
                    login: s[k].login,
                    server_modified: ts,
                    is_overridden: false,
                },
            ),
    decreases s.len(),
{
    if s.len() > 0 {
        let pre = s.drop_last();
        lemma_promoted_contains(pre, gs, ts);
        let rest = promoted(pre, gs, ts);
        let whole = promoted(s, gs, ts);
        assert forall|k: int|
            0 <= k < s.len() && gs.contains((#[trigger] s[k]).login.id) && !s[k].is_deleted
            implies whole.contains(
            MirrorLoginView { login: s[k].login, server_modified: ts, is_overridden: false },
        ) by {
            let row = MirrorLoginView {
                login: s[k].login,
                server_modified: ts,
                is_overridden: false,
            };
            if k < s.len() - 1 {
                assert(pre[k] == s[k]);
                assert(rest.contains(row));
                let a = choose|a: int| 0 <= a < rest.len() && rest[a] == row;
                assert(whole[a] == rest[a]);
            } else {
                assert(whole == rest.push(row));
                assert(whole[whole.len() - 1] == row);
            }
        }
    }
}

/// Promotion, read per GUID: a live overlay row whose GUID the upload named
/// leaves the overlay and stands in the mirror as exactly its record, fresh
/// and unshadowed, at the new server time; and the store remembers that time.
pub proof fn lemma_sync_finished_promotes(db: DbView, gs: Seq<Seq<char>>, ts: int, g: Seq<char>)
    requires
        db_wf(db),
        gs.contains(g),
        has_local(db.local, g),
        !local_at(db.local, g).is_deleted,
    ensures
        !has_local(spec_mark_synced(db, gs, ts).local, g),
        has_mirror(spec_mark_synced(db, gs, ts).mirror, g),
        mirror_at(spec_mark_synced(db, gs, ts).mirror, g) == (MirrorLoginView {
            login: local_at(db.local, g).login,
            server_modified: ts,
            is_overridden: false,
        }),
        spec_mark_synced(db, gs, ts).last_sync_ms == Some(ts),
{
    let st = spec_mark_synced(db, gs, ts);
    lemma_local_not_in_props(db.local, gs);
    if has_local(st.local, g) {
        let a = local_index(st.local, g);
        assert(0 <= a < st.local.len() && st.local[a].login.id == g);
        let k = choose|k: int|
            0 <= k < db.local.len() && st.local[a] == db.local[k] && !gs.contains(
                db.local[k].login.id,
            );
        assert(db.local[k].login.id == g);
    }
    let i = local_index(db.local, g);
    assert(0 <= i < db.local.len() && db.local[i].login.id == g);
    let row = MirrorLoginView {
        login: db.local[i].login,
        server_modified: ts,
        is_overridden: false,
    };
    lemma_promoted_contains(db.local, gs, ts);
    let promo = promoted(db.local, gs, ts);
    assert(promo.contains(row));
    let a = choose|a: int| 0 <= a < promo.len() && promo[a] == row;
    let keptm = mirror_not_in(db.mirror, gs);
    assert(st.mirror[keptm.len() + a] == row);
    assert(row.login.id == g);
    assert(has_mirror(st.mirror, g));
    lemma_mirror_not_in_props(db.mirror, gs);
    lemma_promoted_props(db.local, gs, ts);
    assert forall|x: int, y: int| 0 <= x < y < st.mirror.len() implies (
    #[trigger] st.mirror[x]).login.id != (#[trigger] st.mirror[y]).login.id by {
        if y < keptm.len() {
            assert(st.mirror[x] == keptm[x] && st.mirror[y] == keptm[y]);
        } else if x >= keptm.len() {
            assert(st.mirror[x] == promo[x - keptm.len()]);
            assert(st.mirror[y] == promo[y - keptm.len()]);
        } else {
            assert(st.mirror[x] == keptm[x]);
            assert(st.mirror[y] == promo[y - keptm.len()]);
            let kx = choose|k: int|
                0 <= k < db.mirror.len() && keptm[x] == db.mirror[k] && !gs.contains(
                    db.mirror[k].login.id,
                );
            let ky = choose|k: int|
                0 <= k < db.local.len() && promo[y - keptm.len()] == (MirrorLoginView {
                    login: db.local[k].login,
                    server_modified: ts,
                    is_overridden: false,
                }) && gs.contains(db.local[k].login.id) && !db.local[k].is_deleted;
            if st.mirror[x].login.id == st.mirror[y].login.id {
                assert(gs.contains(db.local[ky].login.id));
                assert(!gs.contains(db.mirror[kx].login.id));
            }
        }
    }
    lemma_mirror_index_agrees(st.mirror, g);
    assert(mirror_index(st.mirror, g) == keptm.len() + a);
}


/// Removing the rows for an absent GUID changes nothing.
pub proof fn lemma_without_absent(s: Seq<MirrorLoginView>, g: Seq<char>)
    requires
        !has_mirror(s, g),
    ensures
        mirrors_without(s, g) == s,
    decreases s.len(),
{
    if s.len() > 0 {
        let pre = s.drop_last();
        assert forall|i: int| 0 <= i < pre.len() implies (#[trigger] pre[i]).login.id != g by {
            assert(pre[i] == s[i]);
        }
        lemma_without_absent(pre, g);
        assert(s[s.len() - 1].login.id != g);
        assert(mirrors_without(s, g) =~= s);
    } else {
        assert(mirrors_without(s, g) =~= s);
    }
}

/// Re-applying a batch holding one fresh record is a state no-op: the first
/// application inserts the record into the mirror, the second only forwards
/// the mirror to the same copy. (Idempotence of a whole batch holds record
/// by record on this path; merge paths can move metadata and carry no such
/// law.)
pub proof fn lemma_reapply_fresh_insert(db: DbView, p: PayloadView, t: int)
    requires
        db_wf(db),
        p is Record,
        !has_local(db.local, payload_guid(p)),
        !has_mirror(db.mirror, payload_guid(p)),
        spec_find_dupe(db.local, p->Record_0) is None,
    ensures
        spec_apply_incoming(spec_apply_incoming(db, seq![(p, t)]), seq![(p, t)])
            == spec_apply_incoming(db, seq![(p, t)]),
        spec_apply_incoming(db, seq![(p, t)]).local == db.local,
{
    let g = payload_guid(p);
    let up = p->Record_0;
    let cs = seq![(p, t)];
    let rec1 = spec_sync_data(db, (p, t));
    assert(spec_fetch(db, cs) =~= seq![rec1]);
    assert(seq![rec1].drop_last() =~= Seq::<SyncDataView>::empty());
    assert(spec_reconcile(db.local, Seq::<SyncDataView>::empty()) == Seq::<ActionView>::empty());
    assert(seq![rec1].last() == rec1);
    assert(rec1.local is None && rec1.mirror is None);
    let a1 = ActionView::MirrorInsert { login: up, server_modified: t, is_overridden: false };
    assert(spec_record_actions(db.local, rec1) =~= seq![a1]);
    assert(spec_reconcile(db.local, seq![rec1]) =~= seq![a1]);
    lemma_apply_single(db, a1);
    let st1 = spec_apply_action(db, a1);
    assert(spec_apply_incoming(db, cs) == st1);
    assert(st1.local == db.local);

    lemma_without_absent(db.mirror, g);
    let row = MirrorLoginView { login: up, server_modified: t, is_overridden: false };
    assert(st1.mirror == db.mirror.push(row));
    assert(st1.mirror[db.mirror.len() as int] == row);
    assert(has_mirror(st1.mirror, g));
    lemma_apply_action_unique(db, a1);
    lemma_mirror_index_agrees(st1.mirror, g);
    assert(mirror_at(st1.mirror, g) == row);

    let rec2 = spec_sync_data(st1, (p, t));
    assert(rec2.local is None && rec2.mirror == Some(row));
    assert(spec_fetch(st1, cs) =~= seq![rec2]);
    assert(seq![rec2].drop_last() =~= Seq::<SyncDataView>::empty());
    assert(spec_reconcile(st1.local, Seq::<SyncDataView>::empty()) == Seq::<ActionView>::empty());
    assert(seq![rec2].last() == rec2);
    let a2 = ActionView::MirrorUpdate { login: up, server_modified: t };
    assert(spec_record_actions(st1.local, rec2) =~= seq![a2]);
    assert(spec_reconcile(st1.local, seq![rec2]) =~= seq![a2]);
    lemma_apply_single(st1, a2);
    let st2 = spec_apply_action(st1, a2);
    assert(spec_apply_incoming(st1, cs) == st2);

    assert forall|i: int| 0 <= i < st1.mirror.len() implies #[trigger] mirror_updated(
        st1.mirror,
        up,
        t,
    )[i] == st1.mirror[i] by {
        if st1.mirror[i].login.id == g {
            assert(i == db.mirror.len() as int);
            assert(st1.mirror[i] == row);
        }
    }
    assert(mirror_updated(st1.mirror, up, t) =~= st1.mirror);
    assert(st2 =~= st1);
}

} // verus!
