use cloud_hypervisor_jailer::manifest::{
    default_nofile_limit, is_clean_absolute_host_path, validate_sandbox_path, validate_vfio_source,
    Cgroup, Device, Manifest, ManifestError, Mount, ResourceLimits, SandboxPath,
};
use cloud_hypervisor_jailer::properties::PropertyMap;

fn values(entries: &[(&str, &str)]) -> PropertyMap {
    let mut map = PropertyMap::new();
    for (name, value) in entries {
        map.insert((*name).into(), (*value).into());
    }
    map
}

fn valid_manifest() -> Manifest {
    Manifest {
        version: 1,
        machine_id: "machine-1".into(),
        root: "/var/lib/machined/ch/cloud-hypervisor/machine_1/root".into(),
        exec_file: "/usr/bin/cloud-hypervisor".into(),
        uid: 123,
        gid: 100,
        netns: Some("/var/run/netns/machine-1".into()),
        new_pid_namespace: true,
        daemonize: false,
        arguments: vec!["--api-socket".into(), "/run/ch.sock".into()],
        cgroup: Cgroup {
            parent: Some(SandboxPath("depot/ch".into())),
            values: values(&[("memory.max", "1073741824")]),
        },
        resource_limits: ResourceLimits::default(),
        api_socket: SandboxPath("run/ch.sock".into()),
        mounts: vec![],
        devices: vec![],
    }
}

fn mount(source: &str, destination: &str) -> Mount {
    Mount {
        source: source.into(),
        destination: SandboxPath(destination.into()),
        read_only: false,
    }
}

fn device(source: &str, destination: &str) -> Device {
    Device {
        source: source.into(),
        destination: SandboxPath(destination.into()),
    }
}

fn refusal(manifest: &Manifest) -> String {
    manifest.validate().unwrap_err().message()
}

#[test]
fn accepts_a_minimal_safe_manifest() {
    valid_manifest().validate().unwrap();
}

#[test]
fn rejects_path_escape() {
    let mut manifest = valid_manifest();
    manifest.api_socket = SandboxPath("../run/ch.sock".into());
    assert!(matches!(
        manifest.validate(),
        Err(ManifestError::UnsafeSandboxPath(_))
    ));
}

#[test]
fn rejects_host_path_traversal() {
    let mut manifest = valid_manifest();
    manifest.exec_file = "/usr/bin/../bin/cloud-hypervisor".into();
    assert!(matches!(
        manifest.validate(),
        Err(ManifestError::InvalidExecFile)
    ));
}

#[test]
fn accepts_api_socket_created_inside_the_jail() {
    let mut manifest = valid_manifest();
    manifest.api_socket = SandboxPath("run/cloud-hypervisor.sock".into());
    manifest.validate().unwrap();
}

#[test]
fn rejects_non_ch_executable_and_unexpected_cgroup_property() {
    let mut manifest = valid_manifest();
    manifest.exec_file = "/usr/bin/bash".into();
    assert!(matches!(
        manifest.validate(),
        Err(ManifestError::InvalidExecFile)
    ));

    let mut manifest = valid_manifest();
    manifest
        .cgroup
        .values
        .insert("cgroup.procs".into(), "1".into());
    assert!(matches!(
        manifest.validate(),
        Err(ManifestError::InvalidCgroupProperty(_))
    ));
}

#[test]
fn rejects_a_privileged_target_identity() {
    let mut manifest = valid_manifest();
    manifest.uid = 0;
    assert!(matches!(
        manifest.validate(),
        Err(ManifestError::PrivilegedIdentity)
    ));
}

#[test]
fn accepts_exact_vfio_control_and_group_devices() {
    let mut manifest = valid_manifest();
    manifest.devices = vec![
        Device {
            source: "/dev/vfio/vfio".into(),
            destination: SandboxPath("dev/vfio/vfio".into()),
        },
        Device {
            source: "/dev/vfio/42".into(),
            destination: SandboxPath("dev/vfio/42".into()),
        },
    ];
    manifest.validate().unwrap();
}

#[test]
fn rejects_arbitrary_devices_and_vfio_path_aliases() {
    for source in [
        "/dev/null",
        "/dev/vfio/../../mem",
        "/dev/vfio/01",
        "/dev/vfio/1/2",
    ] {
        let mut manifest = valid_manifest();
        manifest.devices = vec![Device {
            source: source.into(),
            destination: SandboxPath("dev/vfio/1".into()),
        }];
        assert!(matches!(
            manifest.validate(),
            Err(ManifestError::InvalidDeviceSource(_))
        ));
    }
}

#[test]
fn rejects_destination_remapping_and_missing_control_device() {
    let mut manifest = valid_manifest();
    manifest.devices = vec![Device {
        source: "/dev/vfio/42".into(),
        destination: SandboxPath("dev/vfio/41".into()),
    }];
    assert!(matches!(
        manifest.validate(),
        Err(ManifestError::InvalidDeviceDestination(_))
    ));

    let mut manifest = valid_manifest();
    manifest.devices = vec![Device {
        source: "/dev/vfio/42".into(),
        destination: SandboxPath("dev/vfio/42".into()),
    }];
    assert!(matches!(
        manifest.validate(),
        Err(ManifestError::MissingVFIOControlDevice)
    ));
}

#[test]
fn rejects_mounts_over_the_reserved_device_tree() {
    let mut manifest = valid_manifest();
    manifest.mounts = vec![Mount {
        source: "/var/lib/machined/device-shadow".into(),
        destination: SandboxPath("dev/vfio".into()),
        read_only: false,
    }];
    assert!(matches!(
        manifest.validate(),
        Err(ManifestError::ReservedMountDestination(_))
    ));
}

#[test]
fn names_an_unsupported_version() {
    let mut manifest = valid_manifest();
    manifest.version = 20;
    assert_eq!(refusal(&manifest), "unsupported manifest version 20");
}

#[test]
fn bounds_the_machine_id() {
    let invalid = "machine_id must be non-empty and contain only ascii letters, digits, or '-'";
    for id in ["", "a/b", "..", "machine_1", "m\u{e9}"] {
        let mut manifest = valid_manifest();
        manifest.machine_id = id.into();
        assert_eq!(refusal(&manifest), invalid);
    }
    let mut manifest = valid_manifest();
    manifest.machine_id = "aZ09-".repeat(12) + "abcd";
    assert_eq!(manifest.machine_id.len(), 64);
    manifest.validate().unwrap();
    manifest.machine_id.push('x');
    assert_eq!(refusal(&manifest), "machine_id must not exceed 64 characters");
}

#[test]
fn wants_clean_host_paths() {
    let mut manifest = valid_manifest();
    manifest.root = "var/lib".into();
    assert_eq!(refusal(&manifest), "root must be an absolute path");

    let mut manifest = valid_manifest();
    manifest.netns = Some("/var/run/../netns".into());
    assert_eq!(refusal(&manifest), "network namespace path must be absolute");
    manifest.netns = None;
    manifest.validate().unwrap();

    let mut manifest = valid_manifest();
    manifest.exec_file = "/opt/cloud-hypervisor/ch".into();
    assert_eq!(
        refusal(&manifest),
        "exec_file must be an absolute cloud-hypervisor binary path"
    );
    manifest.exec_file = "/".into();
    assert!(manifest.validate().is_err());
    manifest.exec_file = "/opt/cloud-hypervisor-static-v1/".into();
    manifest.validate().unwrap();

    assert!(is_clean_absolute_host_path("/"));
    assert!(is_clean_absolute_host_path("/a/./b//c/"));
    assert!(!is_clean_absolute_host_path(""));
    assert!(!is_clean_absolute_host_path("./a"));
    assert!(!is_clean_absolute_host_path("/.."));
}

#[test]
fn wants_an_unprivileged_group() {
    let mut manifest = valid_manifest();
    manifest.gid = 0;
    assert_eq!(
        refusal(&manifest),
        "uid and gid must identify an unprivileged account"
    );
}

#[test]
fn bounds_the_number_of_open_files() {
    assert_eq!(default_nofile_limit(), 2048);
    assert_eq!(ResourceLimits::default().no_file, 2048);
    assert_eq!(ResourceLimits::default().file_size, None);
    for (limit, accepted) in [
        (0, false),
        (2, false),
        (3, true),
        (1_048_576, true),
        (1_048_577, false),
    ] {
        let mut manifest = valid_manifest();
        manifest.resource_limits.no_file = limit;
        assert_eq!(manifest.validate().is_ok(), accepted);
        if !accepted {
            assert_eq!(
                refusal(&manifest),
                "resource limit no_file must be between 3 and 1048576"
            );
        }
    }
}

#[test]
fn refuses_to_daemonize() {
    let mut manifest = valid_manifest();
    manifest.daemonize = true;
    assert_eq!(
        refusal(&manifest),
        "daemonize is unsupported: machined must supervise the CH process"
    );
}

#[test]
fn refuses_arguments_that_set_seccomp() {
    for argument in ["--seccomp", "--seccomp=false", "--seccomp="] {
        let mut manifest = valid_manifest();
        manifest.arguments.push(argument.into());
        assert_eq!(
            refusal(&manifest),
            "manifest arguments must not override CH seccomp"
        );
    }
    let mut manifest = valid_manifest();
    manifest.arguments = vec!["--seccompx".into(), "seccomp".into(), " --seccomp".into()];
    manifest.validate().unwrap();
}

#[test]
fn accepts_every_allowed_cgroup_property() {
    let mut manifest = valid_manifest();
    manifest.cgroup.values = values(&[
        ("cpu.max", "max"),
        ("cpu.weight", "100"),
        ("memory.max", "1"),
        ("memory.high", "1"),
        ("pids.max", "1"),
        ("io.max", "1"),
        ("cpuset.cpus", "0"),
        ("cpuset.mems", "0"),
    ]);
    manifest.validate().unwrap();
    manifest.cgroup = Cgroup::default();
    manifest.validate().unwrap();
}

#[test]
fn reports_the_smallest_bad_property() {
    let mut manifest = valid_manifest();
    manifest.cgroup.values = values(&[("zeta", "1"), ("cpu.max", "1"), ("beta.x", "1")]);
    assert_eq!(
        refusal(&manifest),
        "cgroup property beta.x is not an allow-listed cgroup v2 file"
    );
}

#[test]
fn checks_sandbox_paths() {
    for path in ["a", "a/b", "a//b/", "a/./b", "...", ".a", "a b"] {
        assert!(validate_sandbox_path(&SandboxPath(path.into())).is_ok());
    }
    for path in ["", "/", "/a", ".", "./a", "..", "a/..", "a/../b"] {
        let error = validate_sandbox_path(&SandboxPath(path.into())).unwrap_err();
        assert_eq!(
            error.message(),
            format!("sandbox path {path} must be relative, clean, and non-empty")
        );
    }
    let mut manifest = valid_manifest();
    manifest.cgroup.parent = Some(SandboxPath("../escape".into()));
    assert_eq!(
        refusal(&manifest),
        "sandbox path ../escape must be relative, clean, and non-empty"
    );
}

#[test]
fn checks_mounts_in_order() {
    let mut manifest = valid_manifest();
    manifest.mounts = vec![mount("relative", "../x")];
    assert_eq!(refusal(&manifest), "mount source relative must be absolute");
    manifest.mounts = vec![mount("/a", "../x")];
    assert_eq!(
        refusal(&manifest),
        "sandbox path ../x must be relative, clean, and non-empty"
    );
    manifest.mounts = vec![mount("/a", "dev")];
    assert_eq!(
        refusal(&manifest),
        "mount destination dev overlaps the jailer's reserved device tree"
    );
    manifest.mounts = vec![mount("/a", "data"), mount("/b", "devices"), mount("/c", "data")];
    assert_eq!(refusal(&manifest), "duplicate sandbox destination data");
    manifest.mounts = vec![mount("/a", "data"), mount("/b", "data/"), mount("/c", "x/dev")];
    manifest.validate().unwrap();
}

#[test]
fn checks_devices_in_order() {
    let control = || device("/dev/vfio/vfio", "dev/vfio/vfio");
    let mut manifest = valid_manifest();
    manifest.devices = vec![control(), device("/dev/vfio/7", "../dev/vfio/7")];
    assert_eq!(
        refusal(&manifest),
        "sandbox path ../dev/vfio/7 must be relative, clean, and non-empty"
    );
    manifest.devices = vec![control(), device("/dev/vfio/7", "dev/vfio/8")];
    assert_eq!(
        refusal(&manifest),
        "VFIO device destination must match its source: dev/vfio/8"
    );
    manifest.devices = vec![
        control(),
        device("/dev/vfio/7", "dev/vfio/7"),
        device("/dev//vfio/7", "dev/./vfio/7"),
    ];
    assert_eq!(refusal(&manifest), "duplicate VFIO device /dev//vfio/7");
    manifest.devices = vec![device("/dev/kvm", "dev/kvm")];
    assert_eq!(
        refusal(&manifest),
        "device source /dev/kvm is not an allow-listed VFIO path"
    );
    manifest.devices = vec![device("/dev/vfio/7", "dev/vfio/7")];
    assert_eq!(
        refusal(&manifest),
        "VFIO group devices require the /dev/vfio/vfio control device"
    );
    manifest.devices = vec![control()];
    manifest.validate().unwrap();
}

#[test]
fn bounds_the_number_of_devices() {
    let mut manifest = valid_manifest();
    manifest.devices = vec![device("/dev/vfio/vfio", "dev/vfio/vfio")];
    for group in 0..64 {
        manifest.devices.push(device(
            &format!("/dev/vfio/{group}"),
            &format!("dev/vfio/{group}"),
        ));
    }
    assert_eq!(manifest.devices.len(), 65);
    manifest.validate().unwrap();
    manifest.devices.push(device("/dev/vfio/64", "dev/vfio/64"));
    assert_eq!(refusal(&manifest), "a jail may contain at most 65 VFIO devices");
}

#[test]
fn hands_a_vfio_source_back() {
    for source in ["/dev/vfio/vfio", "/dev/vfio/0", "/dev/vfio/10", "/dev//vfio/./42/"] {
        assert_eq!(validate_vfio_source(source).unwrap(), source);
    }
    for source in [
        "",
        "/",
        "/dev/vfio",
        "/dev/vfio/",
        "/dev/vfio/vfio/1",
        "/dev/vfio/00",
        "/dev/vfio/1a",
        "/dev/vfio/\u{661}",
        "dev/vfio/1",
        "/dev/vfio2/1",
    ] {
        assert!(matches!(
            validate_vfio_source(source),
            Err(ManifestError::InvalidDeviceSource(path)) if path == source
        ));
    }
}

#[test]
fn applies_the_rules_in_order() {
    let mut manifest = valid_manifest();
    manifest.mounts = vec![mount("relative", "x")];
    manifest.daemonize = true;
    manifest.gid = 0;
    manifest.version = 3;
    assert_eq!(refusal(&manifest), "unsupported manifest version 3");
    manifest.version = 1;
    assert!(matches!(manifest.validate(), Err(ManifestError::PrivilegedIdentity)));
    manifest.gid = 1;
    assert!(matches!(manifest.validate(), Err(ManifestError::DaemonizeUnsupported)));
    manifest.daemonize = false;
    assert!(matches!(manifest.validate(), Err(ManifestError::SourceNotAbsolute(_))));
}
