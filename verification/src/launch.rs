//! Launch workflow: stage resources, enter the boundary, then execute Cloud Hypervisor.
//!
//! The functions here decide what comes next; they perform nothing.

use vstd::prelude::*;

use crate::manifest::Manifest;

verus! {

/// One stage of a launch.
#[derive(Debug, Clone, Copy, PartialEq, Eq, Structural)]
pub enum Stage {
    /// Refuse to go on without root privileges.
    RequireRoot,
    /// Open the network namespace of the manifest while its host path can be seen.
    OpenNetworkNamespace,
    /// Find out the numbers of the declared devices while their host paths can be seen.
    ResolveDevices,
    /// Create the root of the jail, the copy of the executable and the socket's directory.
    PrepareRoot,
    /// Enter a private mount namespace.
    EnterMountNamespace,
    /// Bind the mounts of the manifest.
    MountResources,
    /// Set the resource limits.
    ApplyLimits,
    /// Create, configure and join the cgroup.
    SetupCgroup,
    /// Drop every capability from the bounding set while the host's `/proc` can be seen.
    DropCapabilityBoundingSet,
    /// Make the root of the jail the root of the process.
    PivotIntoJail,
    /// Create the device nodes of the jail.
    CreateDeviceNodes,
    /// Join the network namespace.
    JoinNetworkNamespace,
    /// Fork into a new PID namespace.
    EnterPidNamespace,
    /// Keep the cgroup and record the number of the child; only the parent of a fork does this.
    RecordChild,
    /// Become the unprivileged user of the manifest.
    DropPrivileges,
    /// Close inherited descriptors and clear the environment.
    SanitizeProcess,
    /// Replace the process with Cloud Hypervisor.
    ExecCloudHypervisor,
}

/// How a stage ended.
#[derive(Debug, Clone, Copy, PartialEq, Eq, Structural)]
pub enum Outcome {
    /// It was performed.
    Done,
    /// It forked, and the fork returned this.
    Forked(i32),
    /// It could not be performed.
    Failed,
}

/// Where a launch stands.
#[derive(Debug, Clone, Copy, PartialEq, Eq, Structural)]
pub enum Progress {
    /// Nothing has been done.
    Start,
    /// A stage has ended.
    After(Stage, Outcome),
}

/// What a launch does next.
#[derive(Debug, Clone, Copy, PartialEq, Eq, Structural)]
pub enum Next {
    /// Perform a stage.
    Run(Stage),
    /// End with success: the child goes on by itself.
    Launched,
    /// End with a failure.
    Failed,
}

/// The stages of the process that becomes Cloud Hypervisor, in order.
pub open spec fn launch_order() -> Seq<Stage> {
    seq![
        Stage::RequireRoot,
        Stage::OpenNetworkNamespace,
        Stage::ResolveDevices,
        Stage::PrepareRoot,
        Stage::EnterMountNamespace,
        Stage::MountResources,
        Stage::ApplyLimits,
        Stage::SetupCgroup,
        Stage::DropCapabilityBoundingSet,
        Stage::PivotIntoJail,
        Stage::CreateDeviceNodes,
        Stage::JoinNetworkNamespace,
        Stage::EnterPidNamespace,
        Stage::DropPrivileges,
        Stage::SanitizeProcess,
        Stage::ExecCloudHypervisor,
    ]
}

/// The place of a stage in that order. Recording the child comes directly after the fork.
pub open spec fn place(stage: Stage) -> int {
    match stage {
        Stage::RequireRoot => 0,
        Stage::OpenNetworkNamespace => 1,
        Stage::ResolveDevices => 2,
        Stage::PrepareRoot => 3,
        Stage::EnterMountNamespace => 4,
        Stage::MountResources => 5,
        Stage::ApplyLimits => 6,
        Stage::SetupCgroup => 7,
        Stage::DropCapabilityBoundingSet => 8,
        Stage::PivotIntoJail => 9,
        Stage::CreateDeviceNodes => 10,
        Stage::JoinNetworkNamespace => 11,
        Stage::EnterPidNamespace => 12,
        Stage::RecordChild => 13,
        Stage::DropPrivileges => 13,
        Stage::SanitizeProcess => 14,
        Stage::ExecCloudHypervisor => 15,
    }
}

/// A stage that the manifest asks for: all but those for namespaces that it does not name.
pub open spec fn wanted(manifest: Manifest, stage: Stage) -> bool {
    match stage {
        Stage::OpenNetworkNamespace => manifest.netns is Some,
        Stage::JoinNetworkNamespace => manifest.netns is Some,
        Stage::EnterPidNamespace => manifest.new_pid_namespace,
        _ => true,
    }
}

/// The first stage from place `from` on that the manifest asks for.
pub open spec fn first_wanted(manifest: Manifest, from: int) -> Stage
    decreases 16 - from,
{
    if from < 15 && !wanted(manifest, launch_order()[from]) {
        first_wanted(manifest, from + 1)
    } else {
        launch_order()[from]
    }
}

/// What a launch does next: the stages in order, until one fails; the parent of a fork records
/// the child and ends; a PID namespace that was entered without a fork is a failure; and a call to
/// replace the process that returns has failed.
pub open spec fn next_step(manifest: Manifest, progress: Progress) -> Next {
    match progress {
        Progress::Start => Next::Run(first_wanted(manifest, 0)),
        Progress::After(stage, outcome) => if outcome == Outcome::Failed || stage
            == Stage::ExecCloudHypervisor {
            Next::Failed
        } else if stage == Stage::RecordChild {
            Next::Launched
        } else if stage == Stage::EnterPidNamespace && !(outcome is Forked && outcome->0 >= 0) {
            Next::Failed
        } else if stage == Stage::EnterPidNamespace && outcome->0 > 0 {
            Next::Run(Stage::RecordChild)
        } else {
            Next::Run(first_wanted(manifest, place(stage) + 1))
        },
    }
}

/// What a launch of the manifest does next.
pub fn launch(manifest: &Manifest, progress: Progress) -> (next: Next)
    ensures
        next == next_step(*manifest, progress),
{
    proof {
        reveal_with_fuel(first_wanted, 4);
    }
    let (stage, outcome) = match progress {
        Progress::Start => {
            return Next::Run(Stage::RequireRoot);
        },
        Progress::After(stage, outcome) => (stage, outcome),
    };
    match outcome {
        Outcome::Failed => {
            return Next::Failed;
        },
        _ => {},
    }
    match stage {
        Stage::RequireRoot => if manifest.netns.is_some() {
            Next::Run(Stage::OpenNetworkNamespace)
        } else {
            Next::Run(Stage::ResolveDevices)
        },
        Stage::OpenNetworkNamespace => Next::Run(Stage::ResolveDevices),
        Stage::ResolveDevices => Next::Run(Stage::PrepareRoot),
        Stage::PrepareRoot => Next::Run(Stage::EnterMountNamespace),
        Stage::EnterMountNamespace => Next::Run(Stage::MountResources),
        Stage::MountResources => Next::Run(Stage::ApplyLimits),
        Stage::ApplyLimits => Next::Run(Stage::SetupCgroup),
        Stage::SetupCgroup => Next::Run(Stage::DropCapabilityBoundingSet),
        Stage::DropCapabilityBoundingSet => Next::Run(Stage::PivotIntoJail),
        Stage::PivotIntoJail => Next::Run(Stage::CreateDeviceNodes),
        Stage::CreateDeviceNodes => if manifest.netns.is_some() {
            Next::Run(Stage::JoinNetworkNamespace)
        } else if manifest.new_pid_namespace {
            Next::Run(Stage::EnterPidNamespace)
        } else {
            Next::Run(Stage::DropPrivileges)
        },
        Stage::JoinNetworkNamespace => if manifest.new_pid_namespace {
            Next::Run(Stage::EnterPidNamespace)
        } else {
            Next::Run(Stage::DropPrivileges)
        },
        Stage::EnterPidNamespace => match outcome {
            Outcome::Forked(pid) => if pid < 0 {
                Next::Failed
            } else if pid > 0 {
                Next::Run(Stage::RecordChild)
            } else {
                Next::Run(Stage::DropPrivileges)
            },
            _ => Next::Failed,
        },
        Stage::RecordChild => Next::Launched,
        Stage::DropPrivileges => Next::Run(Stage::SanitizeProcess),
        Stage::SanitizeProcess => Next::Run(Stage::ExecCloudHypervisor),
        Stage::ExecCloudHypervisor => Next::Failed,
    }
}

/// The stages that one process performs in a launch, whatever their outcomes: it begins at the
/// start, and each stage is what a launch does next after the one before.
pub open spec fn launch_trace(manifest: Manifest, trace: Seq<Stage>) -> bool {
    &&& trace.len() > 0
    &&& next_step(manifest, Progress::Start) == Next::Run(trace[0])
    &&& forall|i: int| 0 <= i < trace.len() - 1 ==> #[trigger] follows(manifest, trace, i)
}

/// The stage behind place `at` of a trace is what a launch does next after the one at `at`, for
/// some outcome of that one.
pub open spec fn follows(manifest: Manifest, trace: Seq<Stage>, at: int) -> bool {
    exists|outcome: Outcome|
        next_step(manifest, Progress::After(trace[at], outcome)) == Next::Run(trace[at + 1])
}

/// The first wanted stage from a place on stands at its place, is wanted, and passes over unwanted
/// stages only.
proof fn lemma_first_wanted(manifest: Manifest, from: int)
    requires
        0 <= from <= 15,
    ensures
        from <= place(first_wanted(manifest, from)) <= 15,
        first_wanted(manifest, from) == launch_order()[place(first_wanted(manifest, from))],
        wanted(manifest, first_wanted(manifest, from)),
        first_wanted(manifest, from) != Stage::RecordChild,
        forall|p: int|
            from <= p < place(first_wanted(manifest, from)) ==> !wanted(
                manifest,
                #[trigger] launch_order()[p],
            ),
    decreases 16 - from,
{
    if from < 15 && !wanted(manifest, launch_order()[from]) {
        lemma_first_wanted(manifest, from + 1);
    }
}

/// Every stage but the recording of a child stands in the order at its place, and nowhere else.
pub proof fn stages_stand_at_their_places(stage: Stage)
    requires
        stage != Stage::RecordChild,
    ensures
        0 <= place(stage) < launch_order().len(),
        launch_order()[place(stage)] == stage,
        forall|i: int| 0 <= i < launch_order().len() && #[trigger] launch_order()[i] == stage ==> i
            == place(stage),
{
}

/// What comes after a stage in a trace stands later in the order, and everything between them is
/// unwanted.
proof fn lemma_step(manifest: Manifest, trace: Seq<Stage>, at: int)
    requires
        launch_trace(manifest, trace),
        0 <= at < trace.len() - 1,
    ensures
        trace[at] != Stage::RecordChild,
        place(trace[at]) < place(trace[at + 1]),
        wanted(manifest, trace[at + 1]),
        trace[at + 1] == Stage::RecordChild ==> trace[at] == Stage::EnterPidNamespace,
        forall|p: int|
            place(trace[at]) < p < place(trace[at + 1]) ==> !wanted(
                manifest,
                #[trigger] launch_order()[p],
            ),
{
    assert(follows(manifest, trace, at));
    let outcome = choose|outcome: Outcome|
        next_step(manifest, Progress::After(trace[at], outcome)) == Next::Run(trace[at + 1]);
    if trace[at + 1] != Stage::RecordChild {
        lemma_first_wanted(manifest, place(trace[at]) + 1);
    } else if trace[at] != Stage::EnterPidNamespace {
        lemma_first_wanted(manifest, place(trace[at]) + 1);
    }
}

/// A launch performs its stages in their order, and each at most once.
pub proof fn launch_keeps_the_order(manifest: Manifest, trace: Seq<Stage>, first: int, second: int)
    requires
        launch_trace(manifest, trace),
        0 <= first < second < trace.len(),
    ensures
        place(trace[first]) < place(trace[second]),
        trace[first] != trace[second],
    decreases second - first,
{
    lemma_step(manifest, trace, second - 1);
    if first < second - 1 {
        launch_keeps_the_order(manifest, trace, first, second - 1);
    }
}

/// When a launch comes to a stage, it has performed every stage of the order before it that the
/// manifest asks for, and none that it does not ask for.
pub proof fn launch_skips_nothing(manifest: Manifest, trace: Seq<Stage>, at: int, stage: Stage)
    requires
        launch_trace(manifest, trace),
        0 <= at < trace.len(),
        stage != Stage::RecordChild,
        place(stage) < place(trace[at]),
    ensures
        wanted(manifest, stage) <==> exists|i: int| 0 <= i < at && #[trigger] trace[i] == stage,
    decreases at,
{
    stages_stand_at_their_places(stage);
    lemma_first_wanted(manifest, 0);
    if at == 0 {
    } else {
        lemma_step(manifest, trace, at - 1);
        if place(stage) < place(trace[at - 1]) {
            launch_skips_nothing(manifest, trace, at - 1, stage);
        } else if place(stage) == place(trace[at - 1]) {
            assert(trace[at - 1] == stage);
            lemma_traced_stage_is_wanted(manifest, trace, at - 1);
        } else {
            assert(!wanted(manifest, launch_order()[place(stage)]));
        }
        assert forall|i: int| 0 <= i < at && #[trigger] trace[i] == stage implies wanted(
            manifest,
            stage,
        ) by {
            lemma_traced_stage_is_wanted(manifest, trace, i);
        }
    }
}

/// A launch performs only stages that the manifest asks for.
proof fn lemma_traced_stage_is_wanted(manifest: Manifest, trace: Seq<Stage>, at: int)
    requires
        launch_trace(manifest, trace),
        0 <= at < trace.len(),
    ensures
        wanted(manifest, trace[at]),
{
    if at == 0 {
        lemma_first_wanted(manifest, 0);
    } else {
        lemma_step(manifest, trace, at - 1);
    }
}

/// A process that comes to execute Cloud Hypervisor does so last of all. It has first made sure of
/// root, then performed every stage that the manifest asks for, the pivot into the jail and the
/// dropping of its capabilities and privileges among them; and it has not recorded a child.
pub proof fn execution_is_confined(manifest: Manifest, trace: Seq<Stage>, at: int)
    requires
        launch_trace(manifest, trace),
        0 <= at < trace.len(),
        trace[at] == Stage::ExecCloudHypervisor,
    ensures
        at == trace.len() - 1,
        trace[0] == Stage::RequireRoot,
        forall|stage: Stage|
            stage != Stage::RecordChild && stage != Stage::ExecCloudHypervisor && wanted(
                manifest,
                stage,
            ) ==> exists|i: int| 0 <= i < at && #[trigger] trace[i] == stage,
        !trace.contains(Stage::RecordChild),
{
    if at < trace.len() - 1 {
        lemma_step(manifest, trace, at);
        lemma_place_bound(trace[at + 1]);
    }
    lemma_first_wanted(manifest, 0);
    assert forall|stage: Stage|
        stage != Stage::RecordChild && stage != Stage::ExecCloudHypervisor && wanted(
            manifest,
            stage,
        ) implies exists|i: int| 0 <= i < at && #[trigger] trace[i] == stage by {
        launch_skips_nothing(manifest, trace, at, stage);
    }
    assert forall|i: int| 0 <= i < trace.len() implies trace[i] != Stage::RecordChild by {
        if i < at {
            lemma_step(manifest, trace, i);
        }
    }
}

/// In a trace, the second stage never stands before the first.
pub open spec fn in_this_order(trace: Seq<Stage>, first: Stage, second: Stage) -> bool {
    forall|i: int, j: int|
        0 <= i < trace.len() && 0 <= j < trace.len() && #[trigger] trace[i] == first
            && #[trigger] trace[j] == second ==> i < j
}

/// Whatever the manifest says, a process that comes to execute Cloud Hypervisor has made sure of
/// root, resolved the devices, prepared the root, entered a mount namespace, bound the mounts, set
/// the limits, set up the cgroup, emptied its bounding set, pivoted into the jail, created the
/// device nodes, given up its privileges and cleaned itself up. It has joined a network namespace
/// exactly if the manifest names one, and entered a PID namespace exactly if the manifest asks for
/// one.
pub proof fn no_stage_is_left_out(manifest: Manifest, trace: Seq<Stage>)
    requires
        launch_trace(manifest, trace),
        trace.contains(Stage::ExecCloudHypervisor),
    ensures
        trace.contains(Stage::RequireRoot),
        trace.contains(Stage::ResolveDevices),
        trace.contains(Stage::PrepareRoot),
        trace.contains(Stage::EnterMountNamespace),
        trace.contains(Stage::MountResources),
        trace.contains(Stage::ApplyLimits),
        trace.contains(Stage::SetupCgroup),
        trace.contains(Stage::DropCapabilityBoundingSet),
        trace.contains(Stage::PivotIntoJail),
        trace.contains(Stage::CreateDeviceNodes),
        trace.contains(Stage::DropPrivileges),
        trace.contains(Stage::SanitizeProcess),
        trace.contains(Stage::OpenNetworkNamespace) <==> manifest.netns is Some,
        trace.contains(Stage::JoinNetworkNamespace) <==> manifest.netns is Some,
        trace.contains(Stage::EnterPidNamespace) <==> manifest.new_pid_namespace,
        !trace.contains(Stage::RecordChild),
{
    let at = choose|at: int| 0 <= at < trace.len() && trace[at] == Stage::ExecCloudHypervisor;
    execution_is_confined(manifest, trace, at);
    assert forall|stage: Stage|
        stage != Stage::RecordChild && stage != Stage::ExecCloudHypervisor && wanted(
            manifest,
            stage,
        ) implies #[trigger] trace.contains(stage) by {
        let i = choose|i: int| 0 <= i < at && #[trigger] trace[i] == stage;
        assert(trace[i] == stage);
    }
    assert forall|stage: Stage| #[trigger] trace.contains(stage) implies wanted(manifest, stage) by {
        let i = choose|i: int| 0 <= i < trace.len() && trace[i] == stage;
        lemma_traced_stage_is_wanted(manifest, trace, i);
    }
}

/// Whatever the manifest says and however far a launch comes, it takes its stages in this order:
/// root first, then all that needs the host, then the limits, the cgroup and the bounding set, then
/// the pivot and what is built in the jail, then the namespaces, and last the privileges, the
/// cleaning up and the execution.
pub proof fn stages_come_in_their_order(manifest: Manifest, trace: Seq<Stage>)
    requires
        launch_trace(manifest, trace),
    ensures
        in_this_order(trace, Stage::RequireRoot, Stage::OpenNetworkNamespace),
        in_this_order(trace, Stage::RequireRoot, Stage::ResolveDevices),
        in_this_order(trace, Stage::OpenNetworkNamespace, Stage::ResolveDevices),
        in_this_order(trace, Stage::ResolveDevices, Stage::PrepareRoot),
        in_this_order(trace, Stage::PrepareRoot, Stage::EnterMountNamespace),
        in_this_order(trace, Stage::EnterMountNamespace, Stage::MountResources),
        in_this_order(trace, Stage::MountResources, Stage::ApplyLimits),
        in_this_order(trace, Stage::ApplyLimits, Stage::SetupCgroup),
        in_this_order(trace, Stage::SetupCgroup, Stage::DropCapabilityBoundingSet),
        in_this_order(trace, Stage::DropCapabilityBoundingSet, Stage::PivotIntoJail),
        in_this_order(trace, Stage::PivotIntoJail, Stage::CreateDeviceNodes),
        in_this_order(trace, Stage::CreateDeviceNodes, Stage::JoinNetworkNamespace),
        in_this_order(trace, Stage::CreateDeviceNodes, Stage::EnterPidNamespace),
        in_this_order(trace, Stage::CreateDeviceNodes, Stage::DropPrivileges),
        in_this_order(trace, Stage::JoinNetworkNamespace, Stage::EnterPidNamespace),
        in_this_order(trace, Stage::JoinNetworkNamespace, Stage::DropPrivileges),
        in_this_order(trace, Stage::EnterPidNamespace, Stage::RecordChild),
        in_this_order(trace, Stage::EnterPidNamespace, Stage::DropPrivileges),
        in_this_order(trace, Stage::DropPrivileges, Stage::SanitizeProcess),
        in_this_order(trace, Stage::SanitizeProcess, Stage::ExecCloudHypervisor),
        trace[0] == Stage::RequireRoot,
        forall|i: int, j: int|
            0 <= i < j < trace.len() ==> #[trigger] trace[i] != #[trigger] trace[j],
{
    lemma_first_wanted(manifest, 0);
    assert forall|i: int, j: int| 0 <= i < j < trace.len() implies place(#[trigger] trace[i])
        < place(#[trigger] trace[j]) by {
        launch_keeps_the_order(manifest, trace, i, j);
    }
}

/// A stage that is done leads on to another: a launch ends only with a failure, with the recording
/// of a child, or with the execution. A child goes on with its own launch, its parent records it,
/// and whatever fails, fails the launch. What comes next does not depend on more of the manifest
/// than which namespaces it names.
pub proof fn only_failures_end_a_launch(
    manifest: Manifest,
    other: Manifest,
    stage: Stage,
    outcome: Outcome,
)
    ensures
        next_step(manifest, Progress::Start) == Next::Run(Stage::RequireRoot),
        next_step(manifest, Progress::After(stage, Outcome::Failed)) is Failed,
        stage != Stage::EnterPidNamespace && stage != Stage::RecordChild && stage
            != Stage::ExecCloudHypervisor && outcome !is Failed ==> next_step(
            manifest,
            Progress::After(stage, outcome),
        ) is Run,
        next_step(manifest, Progress::After(Stage::RecordChild, Outcome::Done)) is Launched,
        next_step(manifest, Progress::After(Stage::ExecCloudHypervisor, outcome)) is Failed,
        next_step(manifest, Progress::After(Stage::EnterPidNamespace, Outcome::Done)) is Failed,
        outcome matches Outcome::Forked(pid) ==> next_step(
            manifest,
            Progress::After(Stage::EnterPidNamespace, outcome),
        ) == if pid > 0 {
            Next::Run(Stage::RecordChild)
        } else if pid == 0 {
            Next::Run(Stage::DropPrivileges)
        } else {
            Next::Failed
        },
        manifest.netns is Some == other.netns is Some && manifest.new_pid_namespace
            == other.new_pid_namespace ==> next_step(manifest, Progress::After(stage, outcome))
            == next_step(other, Progress::After(stage, outcome)),
{
    reveal_with_fuel(first_wanted, 5);
}

/// No stage stands behind the execution.
proof fn lemma_place_bound(stage: Stage)
    ensures
        place(stage) <= 15,
{
}

/// Everything that needs the host's file system or `/proc` is behind a process that pivots into
/// the jail; its privileges are still before it.
pub proof fn host_is_used_before_the_pivot(manifest: Manifest, trace: Seq<Stage>, at: int)
    requires
        launch_trace(manifest, trace),
        0 <= at < trace.len(),
        trace[at] == Stage::PivotIntoJail,
    ensures
        manifest.netns is Some ==> trace.take(at).contains(Stage::OpenNetworkNamespace),
        trace.take(at).contains(Stage::ResolveDevices),
        trace.take(at).contains(Stage::PrepareRoot),
        trace.take(at).contains(Stage::EnterMountNamespace),
        trace.take(at).contains(Stage::MountResources),
        trace.take(at).contains(Stage::SetupCgroup),
        trace.take(at).contains(Stage::DropCapabilityBoundingSet),
        !trace.take(at).contains(Stage::DropPrivileges),
        !trace.take(at).contains(Stage::ExecCloudHypervisor),
{
    let before = trace.take(at);
    assert forall|stage: Stage|
        stage != Stage::RecordChild && place(stage) < 9 && wanted(
            manifest,
            stage,
        ) implies #[trigger] before.contains(stage) by {
        launch_skips_nothing(manifest, trace, at, stage);
        let i = choose|i: int| 0 <= i < at && #[trigger] trace[i] == stage;
        assert(before[i] == stage);
    }
    assert forall|i: int| 0 <= i < before.len() implies place(#[trigger] before[i]) < 9 by {
        launch_keeps_the_order(manifest, trace, i, at);
    }
}

/// A process that records a child has forked just before and does nothing afterwards, so it keeps
/// its privileges to itself and never executes Cloud Hypervisor.
pub proof fn recording_ends_the_launch(manifest: Manifest, trace: Seq<Stage>, at: int)
    requires
        launch_trace(manifest, trace),
        0 <= at < trace.len(),
        trace[at] == Stage::RecordChild,
    ensures
        at == trace.len() - 1,
        at > 0,
        trace[at - 1] == Stage::EnterPidNamespace,
        manifest.new_pid_namespace,
        !trace.contains(Stage::ExecCloudHypervisor),
{
    lemma_first_wanted(manifest, 0);
    if at < trace.len() - 1 {
        lemma_step(manifest, trace, at);
    }
    lemma_step(manifest, trace, at - 1);
    lemma_traced_stage_is_wanted(manifest, trace, at - 1);
    assert forall|i: int| 0 <= i < trace.len() implies trace[i] != Stage::ExecCloudHypervisor by {
        if i < at {
            launch_keeps_the_order(manifest, trace, i, at);
        }
    }
}

} // verus!
