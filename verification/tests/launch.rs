use cloud_hypervisor_jailer::launch::{launch, Next, Outcome, Progress, Stage};
use cloud_hypervisor_jailer::manifest::{Cgroup, Manifest, ResourceLimits, SandboxPath};

fn manifest(netns: bool, new_pid_namespace: bool) -> Manifest {
    Manifest {
        version: 1,
        machine_id: "machine-1".into(),
        root: "/jail/root".into(),
        exec_file: "/usr/bin/cloud-hypervisor".into(),
        uid: 123,
        gid: 100,
        netns: if netns { Some("/run/netns/m".into()) } else { None },
        new_pid_namespace,
        daemonize: false,
        arguments: vec![],
        cgroup: Cgroup::default(),
        resource_limits: ResourceLimits::default(),
        api_socket: SandboxPath("run/ch.sock".into()),
        mounts: vec![],
        devices: vec![],
    }
}

fn trace(manifest: &Manifest, fork: i32) -> (Vec<Stage>, Next) {
    let mut stages = Vec::new();
    let mut progress = Progress::Start;
    loop {
        match launch(manifest, progress) {
            Next::Run(stage) => {
                stages.push(stage);
                let outcome = if stage == Stage::EnterPidNamespace {
                    Outcome::Forked(fork)
                } else {
                    Outcome::Done
                };
                progress = Progress::After(stage, outcome);
            }
            end => return (stages, end),
        }
    }
}

#[test]
fn a_launch_with_all_namespaces_runs_every_stage() {
    let (stages, end) = trace(&manifest(true, true), 0);
    assert_eq!(
        stages,
        [
            Stage::RequireRoot,
            Stage::OpenNetworkNamespace,
            Stage::ResolveDevices,
            Stage::PrepareRoot,
            Stage::EnterMountNamespace,
            Stage::MountResources,
            Stage::ApplyLimits,
            Stage::SetupCgroup,
            Stage::DropCapabilityBoundingSet,
            Stage::PivotIntoJail,
            Stage::CreateDeviceNodes,
            Stage::JoinNetworkNamespace,
            Stage::EnterPidNamespace,
            Stage::DropPrivileges,
            Stage::SanitizeProcess,
            Stage::ExecCloudHypervisor,
        ]
    );
    assert_eq!(end, Next::Failed);
}

#[test]
fn a_launch_without_namespaces_skips_their_stages() {
    let (stages, _) = trace(&manifest(false, false), 0);
    assert_eq!(stages.len(), 13);
    assert!(!stages.contains(&Stage::OpenNetworkNamespace));
    assert!(!stages.contains(&Stage::JoinNetworkNamespace));
    assert!(!stages.contains(&Stage::EnterPidNamespace));
    let (stages, _) = trace(&manifest(true, false), 0);
    assert_eq!(stages.len(), 15);
    let (stages, _) = trace(&manifest(false, true), 0);
    assert_eq!(stages.len(), 14);
}

#[test]
fn the_parent_of_a_fork_records_the_child_and_ends() {
    let (stages, end) = trace(&manifest(true, true), 77);
    assert_eq!(stages[stages.len() - 2..], [Stage::EnterPidNamespace, Stage::RecordChild]);
    assert_eq!(end, Next::Launched);
    let (stages, end) = trace(&manifest(false, true), -1);
    assert_eq!(stages.last(), Some(&Stage::EnterPidNamespace));
    assert_eq!(end, Next::Failed);
}

#[test]
fn a_pid_namespace_without_a_fork_ends_the_launch() {
    let progress = Progress::After(Stage::EnterPidNamespace, Outcome::Done);
    assert_eq!(launch(&manifest(false, true), progress), Next::Failed);
}

#[test]
fn a_failed_stage_ends_the_launch() {
    let manifest = manifest(true, true);
    let (stages, _) = trace(&manifest, 0);
    for stage in stages {
        assert_eq!(
            launch(&manifest, Progress::After(stage, Outcome::Failed)),
            Next::Failed
        );
    }
    assert_eq!(
        launch(&manifest, Progress::After(Stage::RecordChild, Outcome::Failed)),
        Next::Failed
    );
}
