use vstd::prelude::*;

use crate::login::{content_eq, LocalLogin, LocalLoginView, Login, LoginView, MirrorLogin};
use crate::merge;

verus! {

/// One step of an update plan, to run against the store's two tables.
pub enum PlanAction {
    /// Remove both the overlay and the mirror row for this GUID; a remote
    /// deletion always wins.
    Delete { guid: String },
    /// Forward the mirror row for this record to the server's copy; the
    /// override flag is kept.
    MirrorUpdate { login: Login, server_modified: i64 },
    /// Write the server's copy into the mirror, replacing any row with the
    /// same GUID; the flag says whether an overlay still shadows it.
    MirrorInsert { login: Login, server_modified: i64, is_overridden: bool },
    /// Replace the overlay row for this record with a merged record that
    /// still has to be uploaded.
    LocalUpdate { login: Login, server_modified: i64 },
    /// Resolve the overlay row `local_guid` to `merged` (which carries the
    /// incoming record's GUID) as an overlay still to be uploaded.
    TwoWayMerge { local_guid: String, merged: Login, server_modified: i64 },
}

/// Mathematical image of a plan step.
#[verifier::ext_equal]
pub enum ActionView {
    Delete { guid: Seq<char> },
    MirrorUpdate { login: LoginView, server_modified: int },
    MirrorInsert { login: LoginView, server_modified: int, is_overridden: bool },
    LocalUpdate { login: LoginView, server_modified: int },
    TwoWayMerge { local_guid: Seq<char>, merged: LoginView, server_modified: int },
}

impl View for PlanAction {
    type V = ActionView;

    open spec fn view(&self) -> ActionView {
        match self {
            PlanAction::Delete { guid } => ActionView::Delete { guid: guid@ },
            PlanAction::MirrorUpdate { login, server_modified } => ActionView::MirrorUpdate {
                login: login@,
                server_modified: *server_modified as int,
            },
            PlanAction::MirrorInsert { login, server_modified, is_overridden } =>
                ActionView::MirrorInsert {
                login: login@,
                server_modified: *server_modified as int,
                is_overridden: *is_overridden,
            },
            PlanAction::LocalUpdate { login, server_modified } => ActionView::LocalUpdate {
                login: login@,
                server_modified: *server_modified as int,
            },
            PlanAction::TwoWayMerge { local_guid, merged, server_modified } =>
                ActionView::TwoWayMerge {
                local_guid: local_guid@,
                merged: merged@,
                server_modified: *server_modified as int,
            },
        }
    }
}

/// The steps a merge with no shared parent contributes: the overlay row is
/// resolved to the merged record under the incoming GUID, kept for upload,
/// and the server's copy enters the mirror, shadowed by it.
pub open spec fn spec_plan_two_way(local: LocalLoginView, upstream: LoginView, t: int) -> Seq<
    ActionView,
> {
    seq![
        ActionView::TwoWayMerge {
            local_guid: local.login.id,
            merged: merge::spec_two_way_merge(local, upstream, t),
            server_modified: t,
        },
        ActionView::MirrorInsert { login: upstream, server_modified: t, is_overridden: true },
    ]
}

/// The steps a three-way merge contributes: when the merge resolves to the
/// server's copy, only the mirror moves forward; otherwise the merged record
/// replaces the overlay for upload and the server's copy enters the mirror,
/// shadowed.
pub open spec fn spec_plan_three_way(
    local: LocalLoginView,
    mirror: LoginView,
    upstream: LoginView,
    t: int,
) -> Seq<ActionView> {
    let merged = merge::spec_three_way_merge(local, mirror, upstream, t);
    if content_eq(merged, upstream) {
        seq![ActionView::MirrorUpdate { login: upstream, server_modified: t }]
    } else {
        seq![
            ActionView::LocalUpdate { login: merged, server_modified: t },
            ActionView::MirrorInsert { login: upstream, server_modified: t, is_overridden: true },
        ]
    }
}

/// An append-only batch of plan steps; built by the reconciler, run in order
/// inside one transaction.
pub struct UpdatePlan {
    pub actions: Vec<PlanAction>,
}

impl View for UpdatePlan {
    type V = Seq<ActionView>;

    open spec fn view(&self) -> Seq<ActionView> {
        self.actions@.map_values(|a: PlanAction| a@)
    }
}

impl UpdatePlan {
    /// An empty plan.
    pub fn new() -> (r: UpdatePlan)
        ensures
            r@ == Seq::<ActionView>::empty(),
    {
        let r = UpdatePlan { actions: Vec::new() };
        proof {
            assert(r@ =~= Seq::<ActionView>::empty());
        }
        r
    }

    /// Plan the removal of both rows for `guid`.
    pub fn plan_delete(&mut self, guid: String)
        ensures
            final(self)@ == old(self)@.push(ActionView::Delete { guid: guid@ }),
    {
        let ghost pre = self@;
        let a = PlanAction::Delete { guid };
        let ghost av = a@;
        self.actions.push(a);
        proof {
            assert(self@ =~= pre.push(av));
        }
    }

    /// Plan forwarding the mirror row to the server's copy.
    pub fn plan_mirror_update(&mut self, upstream: Login, upstream_time: i64)
        ensures
            final(self)@ == old(self)@.push(
                ActionView::MirrorUpdate {
                    login: upstream@,
                    server_modified: upstream_time as int,
                },
            ),
    {
        let ghost pre = self@;
        let a = PlanAction::MirrorUpdate { login: upstream, server_modified: upstream_time };
        let ghost av = a@;
        self.actions.push(a);
        proof {
            assert(self@ =~= pre.push(av));
        }
    }

    /// Plan writing the server's copy into the mirror.
    pub fn plan_mirror_insert(&mut self, upstream: Login, upstream_time: i64, is_overridden: bool)
        ensures
            final(self)@ == old(self)@.push(
                ActionView::MirrorInsert {
                    login: upstream@,
                    server_modified: upstream_time as int,
                    is_overridden,
                },
            ),
    {
        let ghost pre = self@;
        let a = PlanAction::MirrorInsert {
            login: upstream,
            server_modified: upstream_time,
            is_overridden,
        };
        let ghost av = a@;
        self.actions.push(a);
        proof {
            assert(self@ =~= pre.push(av));
        }
    }

    /// Plan a merge with no shared parent: the later writer wins, the merged
    /// record replaces the overlay row for upload, and the server's copy
    /// enters the mirror, shadowed.
    pub fn plan_two_way_merge(&mut self, local: &LocalLogin, upstream: Login, upstream_time: i64)
        ensures
            final(self)@ == old(self)@ + spec_plan_two_way(
                local@,
                upstream@,
                upstream_time as int,
            ),
    {
        let ghost pre = self@;
        let merged = merge::two_way_merge(local, &upstream, upstream_time);
        let a = PlanAction::TwoWayMerge {
            local_guid: local.login.id.clone(),
            merged,
            server_modified: upstream_time,
        };
        let ghost av = a@;
        self.actions.push(a);
        let b = PlanAction::MirrorInsert {
            login: upstream,
            server_modified: upstream_time,
            is_overridden: true,
        };
        let ghost bv = b@;
        self.actions.push(b);
        proof {
            assert(self@ =~= pre + seq![av, bv]);
        }
    }

    /// Plan a three-way merge, mirror as the common ancestor. `server_now`
    /// travels with the batch but the field policy compares the overlay's
    /// modification time with the record's upstream time directly.
    pub fn plan_three_way_merge(
        &mut self,
        local: LocalLogin,
        mirror: MirrorLogin,
        upstream: Login,
        upstream_time: i64,
        _server_now: i64,
    )
        ensures
            final(self)@ == old(self)@ + spec_plan_three_way(
                local@,
                mirror@.login,
                upstream@,
                upstream_time as int,
            ),
    {
        let ghost pre = self@;
        let merged = merge::three_way_merge(&local, &mirror.login, &upstream, upstream_time);
        if merge::logins_content_eq(&merged, &upstream) {
            let a = PlanAction::MirrorUpdate { login: upstream, server_modified: upstream_time };
            let ghost av = a@;
            self.actions.push(a);
            proof {
                assert(self@ =~= pre + seq![av]);
            }
        } else {
            let a = PlanAction::LocalUpdate { login: merged, server_modified: upstream_time };
            let ghost av = a@;
            self.actions.push(a);
            let b = PlanAction::MirrorInsert {
                login: upstream,
                server_modified: upstream_time,
                is_overridden: true,
            };
            let ghost bv = b@;
            self.actions.push(b);
            proof {
                assert(self@ =~= pre + seq![av, bv]);
            }
        }
    }
}

} // verus!
