//! When threads share a workspace, and which directory a thread was recorded to
//! work in, told by the components of the paths on record.

use vstd::prelude::*;

use crate::path::PathView;
use crate::thread_workspace::{
    recorded_cwd, same_directory, share_workspace, RecordedCwdView, ResolvedView, RolloutCwdView,
    WorkspaceView,
};

verus! {

/// Whether two paths have the same components in their normalized forms, or, as
/// they are, where one has no such form.
pub open spec fn have_one_place(a: ResolvedView, b: ResolvedView) -> bool {
    ||| a.normalized is Some && b.normalized is Some && a.normalized->0.components
        == b.normalized->0.components
    ||| (a.normalized is None || b.normalized is None) && a.path.components == b.path.components
}

/// Two workspaces whose git projects have one root are shared, whatever their
/// directories are; so are two with one directory, whatever their projects are;
/// and no others are.
pub proof fn lemma_shared_by_components(lhs: WorkspaceView, rhs: WorkspaceView)
    ensures
        lhs.git_root is Some && rhs.git_root is Some && have_one_place(
            lhs.git_root->0,
            rhs.git_root->0,
        ) ==> share_workspace(lhs, rhs),
        have_one_place(lhs.cwd, rhs.cwd) ==> share_workspace(lhs, rhs),
        !have_one_place(lhs.cwd, rhs.cwd) && !(lhs.git_root is Some && rhs.git_root is Some
            && have_one_place(lhs.git_root->0, rhs.git_root->0)) ==> !share_workspace(lhs, rhs),
{
}

/// Two paths are of the same directory where they have one place.
pub proof fn lemma_same_directory_by_components(a: ResolvedView, b: ResolvedView)
    ensures
        same_directory(a, b) <==> have_one_place(a, b),
{
}

/// Going to another directory of the same git project does not end the sharing
/// that rests on it.
pub proof fn lemma_shared_from_anywhere_in_project(
    lhs: WorkspaceView,
    rhs: WorkspaceView,
    other: ResolvedView,
)
    requires
        share_workspace(lhs, rhs),
        !have_one_place(lhs.cwd, rhs.cwd),
    ensures
        share_workspace(WorkspaceView { cwd: other, git_root: lhs.git_root }, rhs),
        share_workspace(lhs, WorkspaceView { cwd: other, git_root: rhs.git_root }),
{
}

/// How a path is displayed does not matter.
pub proof fn lemma_shared_however_displayed(lhs: WorkspaceView, rhs: WorkspaceView, text: Seq<char>)
    ensures
        share_workspace(
            WorkspaceView {
                cwd: ResolvedView { path: PathView { text, ..lhs.cwd.path }, ..lhs.cwd },
                ..lhs
            },
            rhs,
        ) == share_workspace(lhs, rhs),
{
}

/// A path that is not empty, which the state database has, is the answer,
/// whatever the rollout has.
pub proof fn lemma_state_db_decides(cwd: PathView, rollout_cwd: RolloutCwdView)
    requires
        cwd.components.len() > 0,
    ensures
        recorded_cwd(Some(cwd), rollout_cwd) == RecordedCwdView::Found(cwd),
{
}

/// Where the state database has nothing, or the empty path, what the rollout
/// has decides: a path that is not empty is the answer; the empty path, or a
/// rollout that cannot be read, gives none; and one that was not read is to be
/// read.
pub proof fn lemma_rollout_decides(state_db_cwd: Option<PathView>, rollout_cwd: RolloutCwdView)
    requires
        state_db_cwd is None || state_db_cwd->0.components.len() == 0,
    ensures
        forall|cwd: PathView|
            rollout_cwd == RolloutCwdView::Read(cwd) && #[trigger] cwd.components.len() > 0
                ==> recorded_cwd(state_db_cwd, rollout_cwd) == RecordedCwdView::Found(cwd),
        forall|cwd: PathView|
            rollout_cwd == RolloutCwdView::Read(cwd) && #[trigger] cwd.components.len() == 0
                ==> recorded_cwd(state_db_cwd, rollout_cwd) == RecordedCwdView::Unknown,
        rollout_cwd == RolloutCwdView::Unreadable ==> recorded_cwd(state_db_cwd, rollout_cwd)
            == RecordedCwdView::Unknown,
        rollout_cwd == RolloutCwdView::NotRead ==> recorded_cwd(state_db_cwd, rollout_cwd)
            == RecordedCwdView::ReadRollout,
{
}

} // verus!
