use cloud_hypervisor_jailer::manifest::ResourceLimits;
use cloud_hypervisor_jailer::process::{
    apply_limits, close_inherited_fds, drop_capability_bounding_set, drop_privileges,
    enter_pid_namespace, exec_cloud_hypervisor, next_capability_step, pid_record, require_root,
    CapabilityProgress, CapabilityStep, CredentialChange, DescriptorRange, Limit, ProcessError,
    Resource,
};
use cloud_hypervisor_jailer::util::{c_path, syscall_ok, Errno};

#[test]
fn only_root_may_launch() {
    assert!(require_root(0).is_ok());
    let error = require_root(1000).unwrap_err();
    assert_eq!(error.message(), "cloud-hypervisor-jailer launch requires root");
}

#[test]
fn limits_are_set_in_order() {
    assert_eq!(
        apply_limits(&ResourceLimits::default()),
        [Limit { resource: Resource::OpenFiles, value: 2048 }]
    );
    assert_eq!(
        apply_limits(&ResourceLimits { no_file: 64, file_size: Some(1 << 40) }),
        [
            Limit { resource: Resource::OpenFiles, value: 64 },
            Limit { resource: Resource::FileSize, value: 1 << 40 },
        ]
    );
}

#[test]
fn a_fork_fails_below_zero() {
    assert_eq!(enter_pid_namespace(0), Ok(0));
    assert_eq!(enter_pid_namespace(77), Ok(77));
    assert_eq!(enter_pid_namespace(-1), Err(ProcessError::ForkFailed));
    assert_eq!(ProcessError::ForkFailed.message(), "fork PID namespace child");
    assert_eq!(pid_record(4711), "4711\n");
    assert_eq!(pid_record(i32::MAX), "2147483647\n");
}

#[test]
fn the_last_capability_is_read() {
    assert_eq!(
        drop_capability_bounding_set("40\n", CapabilityProgress::Dropped(39)),
        Ok(CapabilityStep::Drop(40))
    );
    assert_eq!(
        drop_capability_bounding_set("40\n", CapabilityProgress::Dropped(40)),
        Ok(CapabilityStep::SetNoNewPrivs)
    );
    for text in ["", "forty", "-1", "18446744073709551616"] {
        let error = drop_capability_bounding_set(text, CapabilityProgress::Start).unwrap_err();
        assert_eq!(error, ProcessError::CapabilityLimit);
        assert_eq!(error.message(), "parse kernel capability limit");
    }
}

#[test]
fn a_recorded_number_reads_back() {
    let record = pid_record(65);
    assert_eq!(
        drop_capability_bounding_set(&record, CapabilityProgress::Dropped(64)),
        Ok(CapabilityStep::Drop(65))
    );
    assert_eq!(
        drop_capability_bounding_set(&record, CapabilityProgress::Dropped(65)),
        Ok(CapabilityStep::SetNoNewPrivs)
    );
}

#[test]
fn every_capability_is_dropped_before_new_privileges_are_ruled_out() {
    let mut progress = CapabilityProgress::Start;
    let mut steps = Vec::new();
    loop {
        let step = next_capability_step(2, progress);
        steps.push(step);
        progress = match step {
            CapabilityStep::Drop(capability) => CapabilityProgress::Dropped(capability),
            CapabilityStep::SetNoNewPrivs => CapabilityProgress::NoNewPrivsSet,
            _ => break,
        };
    }
    assert_eq!(
        steps,
        [
            CapabilityStep::Drop(0),
            CapabilityStep::Drop(1),
            CapabilityStep::Drop(2),
            CapabilityStep::SetNoNewPrivs,
            CapabilityStep::Finished,
        ]
    );
}

#[test]
fn a_capability_that_stays_ends_the_launch() {
    assert_eq!(
        drop_capability_bounding_set("40\n", CapabilityProgress::Failed),
        Ok(CapabilityStep::Failed)
    );
    assert_eq!(
        next_capability_step(u64::MAX, CapabilityProgress::Dropped(u64::MAX)),
        CapabilityStep::SetNoNewPrivs
    );
}

#[test]
fn groups_are_given_up_before_the_user() {
    assert_eq!(
        drop_privileges(123, 100),
        [
            CredentialChange::ClearSupplementaryGroups,
            CredentialChange::SetGroup(100),
            CredentialChange::SetUser(123),
        ]
    );
}

#[test]
fn seccomp_is_turned_on_last() {
    let arguments: Vec<String> = vec!["--api-socket".into(), "/run/ch.sock".into()];
    assert_eq!(
        exec_cloud_hypervisor(&arguments).unwrap(),
        ["/cloud-hypervisor", "--api-socket", "/run/ch.sock", "--seccomp", "true"]
    );
    assert_eq!(
        exec_cloud_hypervisor(&vec![]).unwrap(),
        ["/cloud-hypervisor", "--seccomp", "true"]
    );
    let error = exec_cloud_hypervisor(&vec!["a".into(), "b\0c".into()]).unwrap_err();
    assert_eq!(error.message(), "argument contains NUL");
}

#[test]
fn descriptors_are_closed_one_by_one_on_old_kernels() {
    assert_eq!(close_inherited_fds(0, Errno::Other(9)), Ok(None));
    assert_eq!(
        close_inherited_fds(-1, Errno::NotImplemented),
        Ok(Some(DescriptorRange { first: 3, end: 1_048_576 }))
    );
    assert_eq!(close_inherited_fds(-1, Errno::Other(9)), Err(Errno::Other(9)));
    assert_eq!(close_inherited_fds(-1, Errno::Exists), Err(Errno::Exists));
}

#[test]
fn closing_one_by_one_reaches_the_largest_limit_on_open_files() {
    let range = close_inherited_fds(-1, Errno::NotImplemented).unwrap().unwrap();
    assert!((range.first..range.end).contains(&3));
    assert!((range.first..range.end).contains(&1_048_575));
}

#[test]
fn a_system_call_succeeds_with_zero() {
    assert_eq!(syscall_ok(0, Errno::Other(5)), Ok(()));
    assert_eq!(syscall_ok(-1, Errno::Other(5)), Err(Errno::Other(5)));
    assert_eq!(syscall_ok(1, Errno::Exists), Err(Errno::Exists));
}

#[test]
fn a_path_for_the_kernel_holds_no_nul() {
    assert_eq!(c_path(b"/a/b"), Some(b"/a/b\0".to_vec()));
    assert_eq!(c_path(b""), Some(vec![0]));
    assert_eq!(c_path(b"/\xff"), Some(b"/\xff\0".to_vec()));
    assert_eq!(c_path(b"/a\0b"), None);
    assert_eq!(c_path(b"\0"), None);
}
