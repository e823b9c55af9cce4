use cloud_hypervisor_jailer::jail::{
    artifact_mode, bind_mount, bind_steps, create_character_device, create_device_nodes,
    grant_vmm_access, jail_root_flags, mount_resources, node_created, prepare_root,
    private_tree_flags, resolve_device, resolve_devices, root_steps, Artifact, BindPlan, BindStep,
    DeviceAction, DeviceNode, DeviceStep, FileKind, JailError, MountAction, MountFlags,
    MountProgress, RootStep,
};
use cloud_hypervisor_jailer::manifest::{
    Cgroup, Device, Manifest, Mount, ResourceLimits, SandboxPath,
};
use cloud_hypervisor_jailer::steps::{next_turn, Progress, Turn};
use cloud_hypervisor_jailer::util::Errno;

fn manifest() -> Manifest {
    Manifest {
        version: 1,
        machine_id: "machine-1".into(),
        root: "/jail/root".into(),
        exec_file: "/usr/bin/cloud-hypervisor".into(),
        uid: 123,
        gid: 100,
        netns: None,
        new_pid_namespace: false,
        daemonize: false,
        arguments: vec![],
        cgroup: Cgroup::default(),
        resource_limits: ResourceLimits::default(),
        api_socket: SandboxPath("run/ch.sock".into()),
        mounts: vec![
            Mount {
                source: "/images/disk.raw".into(),
                destination: SandboxPath("disks/disk.raw".into()),
                read_only: true,
            },
            Mount {
                source: "/images/shared".into(),
                destination: SandboxPath("shared".into()),
                read_only: false,
            },
        ],
        devices: vec![],
    }
}

fn bind(recursive: bool) -> MountFlags {
    MountFlags {
        bind: true,
        recursive,
        remount: false,
        read_only: false,
        private: false,
    }
}

#[test]
fn mounted_artifact_modes_are_minimally_permissive() {
    assert_eq!(artifact_mode(false, true), 0o400);
    assert_eq!(artifact_mode(false, false), 0o600);
    assert_eq!(artifact_mode(true, true), 0o500);
    assert_eq!(artifact_mode(true, false), 0o700);
}

#[test]
fn the_root_is_staged() {
    let manifest = manifest();
    manifest.validate().unwrap();
    let plan = prepare_root(&manifest, Some(FileKind::Regular));
    assert_eq!(plan.executable, "/jail/root/cloud-hypervisor");
    assert_eq!(plan.socket_directory, "/jail/root/run");
    assert!(plan.refusal.is_none());
    assert_eq!(
        plan.steps,
        [
            RootStep::CreateRoot,
            RootStep::RestrictRoot { mode: 0o711 },
            RootStep::InspectExecutable,
            RootStep::CopyExecutable,
            RootStep::RestrictExecutable { mode: 0o500 },
            RootStep::OwnExecutable { uid: 123, gid: 100 },
            RootStep::CreateSocketDirectory,
            RootStep::OwnSocketDirectory { uid: 123, gid: 100 },
        ]
    );
    assert_eq!(plan.steps, root_steps(123, 100));
}

#[test]
fn only_a_regular_executable_is_copied() {
    let manifest = manifest();
    for kind in [
        None,
        Some(FileKind::Directory),
        Some(FileKind::Symlink),
        Some(FileKind::CharacterDevice),
        Some(FileKind::Other),
    ] {
        let plan = prepare_root(&manifest, kind);
        assert_eq!(plan.steps, root_steps(123, 100)[..3]);
        match next_turn(&plan.steps, &plan.refusal, Progress::Succeeded(3)) {
            Turn::Refuse(error) => assert_eq!(
                error.message(),
                "cloud-hypervisor executable is not a regular file"
            ),
            _ => panic!("not refused"),
        }
    }
}

#[test]
fn a_socket_without_a_directory_is_refused_behind_the_copy() {
    let mut manifest = manifest();
    manifest.api_socket = SandboxPath("/".into());
    let plan = prepare_root(&manifest, Some(FileKind::Regular));
    assert_eq!(plan.socket_directory, "");
    assert_eq!(plan.steps, root_steps(123, 100)[..6]);
    assert_eq!(plan.refusal.unwrap().message(), "API socket has no parent");
}

#[test]
fn namespaces_are_private_and_the_root_is_bound() {
    let flags = private_tree_flags();
    assert!(flags.private && flags.recursive && !flags.bind && !flags.remount && !flags.read_only);
    assert_eq!(jail_root_flags(), bind(true));
}

fn bound(action: MountAction, place: usize) -> BindPlan {
    match action {
        MountAction::Bind(at, plan) => {
            assert_eq!(at, place);
            plan
        }
        _ => panic!("not bound"),
    }
}

#[test]
fn mounts_are_bound_one_after_the_other() {
    let manifest = manifest();
    assert!(matches!(
        mount_resources(&manifest, MountProgress::Start),
        MountAction::Inspect(0, source) if source == "/images/disk.raw"
    ));
    let inspected = MountProgress::Inspected(0, FileKind::Regular);
    let plan = bound(mount_resources(&manifest, inspected), 0);
    assert_eq!(plan.source, "/images/disk.raw");
    assert_eq!(plan.destination, "/jail/root/disks/disk.raw");
    assert_eq!(plan.parent, "/jail/root/disks");
    assert!(plan.refusal.is_none());
    let remount = MountFlags {
        remount: true,
        read_only: true,
        ..bind(false)
    };
    assert_eq!(
        plan.steps,
        [
            BindStep::ResolveSource,
            BindStep::CreateParent,
            BindStep::CreateFile { mode: 0o600 },
            BindStep::Bind(bind(false)),
            BindStep::HandOver {
                uid: 123,
                gid: 100,
                directory: false,
                read_only: true,
            },
            BindStep::Remount(remount),
        ]
    );
    assert!(matches!(
        mount_resources(&manifest, MountProgress::Bound(0)),
        MountAction::Inspect(1, source) if source == "/images/shared"
    ));
    let inspected = MountProgress::Inspected(1, FileKind::Directory);
    let plan = bound(mount_resources(&manifest, inspected), 1);
    assert_eq!(plan.destination, "/jail/root/shared");
    assert_eq!(plan.parent, "/jail/root");
    assert_eq!(
        plan.steps,
        [
            BindStep::ResolveSource,
            BindStep::CreateParent,
            BindStep::CreateDirectory,
            BindStep::Bind(bind(true)),
            BindStep::HandOver {
                uid: 123,
                gid: 100,
                directory: true,
                read_only: false,
            },
        ]
    );
    assert!(matches!(
        mount_resources(&manifest, MountProgress::Bound(1)),
        MountAction::Finished
    ));
}

#[test]
fn no_mount_is_bound_after_a_failure() {
    let mut manifest = manifest();
    assert!(matches!(
        mount_resources(&manifest, MountProgress::Failed),
        MountAction::Failed
    ));
    assert!(matches!(
        mount_resources(&manifest, MountProgress::Inspected(1, FileKind::Symlink)),
        MountAction::Refuse(JailError::SourceIsSymlink(source)) if source == "/images/shared"
    ));
    assert!(matches!(
        mount_resources(&manifest, MountProgress::Bound(usize::MAX)),
        MountAction::Failed
    ));
    assert!(matches!(
        mount_resources(&manifest, MountProgress::Inspected(2, FileKind::Regular)),
        MountAction::Failed
    ));
    manifest.mounts.clear();
    assert!(matches!(
        mount_resources(&manifest, MountProgress::Start),
        MountAction::Finished
    ));
}

#[test]
fn a_mount_is_refused() {
    let mut mount = Mount {
        source: "/images/link".into(),
        destination: SandboxPath("x".into()),
        read_only: false,
    };
    let error = bind_mount("/jail", &mount, FileKind::Symlink, 1, 2).unwrap_err();
    assert_eq!(error.message(), "mount source must not be a symlink: /images/link");
    mount.destination = SandboxPath("/".into());
    let plan = bind_mount("/jail", &mount, FileKind::Regular, 1, 2).unwrap();
    assert_eq!(plan.parent, "");
    assert_eq!(plan.steps, [BindStep::ResolveSource]);
    assert_eq!(plan.refusal.unwrap().message(), "mount destination has no parent");
}

#[test]
fn access_is_granted_up_to_what_cannot_be_read() {
    let tree = Artifact::Directory(b"/d".to_vec(),
        vec![
            Artifact::File(b"/d/a".to_vec()),
            Artifact::Directory(b"/d/e".to_vec(), vec![Artifact::Unreadable]),
            Artifact::Symlink("/d/l".into()),
        ],
    );
    let mut grants = Vec::new();
    let error = grant_vmm_access(&tree, false, &mut grants).unwrap();
    assert!(matches!(error, JailError::ArtifactUnreadable));
    assert_eq!(error.message(), "mounted artifact cannot be read");
    assert_eq!(grants.len(), 1);
    assert_eq!(grants[0].path, b"/d/a");
    assert_eq!(grants[0].mode, 0o600);
}

#[test]
fn a_failed_hand_over_is_not_followed_by_a_remount() {
    let mount = Mount {
        source: "/images/shared".into(),
        destination: SandboxPath("shared".into()),
        read_only: true,
    };
    let plan = bind_mount("/jail", &mount, FileKind::Directory, 1, 2).unwrap();
    let next = |progress| next_turn(&plan.steps, &plan.refusal, progress);
    assert_eq!(plan.steps.len(), 6);
    assert!(matches!(
        next(Progress::Succeeded(4)),
        Turn::Perform(BindStep::HandOver { uid: 1, gid: 2, directory: true, read_only: true })
    ));
    assert!(matches!(next(Progress::Failed), Turn::Failed));
    assert!(matches!(
        next(Progress::Succeeded(5)),
        Turn::Perform(BindStep::Remount(flags)) if flags.read_only && flags.recursive
    ));
    assert!(matches!(next(Progress::Succeeded(6)), Turn::Finished));
    assert_eq!(bind_steps(true, false, 1, 2).len(), 5);
}

#[test]
fn access_is_granted_from_the_inside_out() {
    let tree = Artifact::Directory(b"/d".to_vec(),
        vec![
            Artifact::File(b"/d/a".to_vec()),
            Artifact::Directory(b"/d/e".to_vec(), vec![Artifact::File(b"/d/e/b".to_vec())]),
        ],
    );
    let mut grants = Vec::new();
    assert!(grant_vmm_access(&tree, true, &mut grants).is_none());
    let list: Vec<(&[u8], u32)> = grants.iter().map(|g| (g.path.as_slice(), g.mode)).collect();
    assert_eq!(
        list,
        [
            (b"/d/a".as_slice(), 0o400),
            (b"/d/e/b".as_slice(), 0o400),
            (b"/d/e".as_slice(), 0o500),
            (b"/d".as_slice(), 0o500),
        ]
    );
}

#[test]
fn access_stops_at_a_symlink() {
    let tree = Artifact::Directory(b"/d".to_vec(),
        vec![
            Artifact::File(b"/d/a".to_vec()),
            Artifact::Directory(b"/d/e".to_vec(),
                vec![Artifact::File(b"/d/e/b".to_vec()), Artifact::Symlink("/d/e/c".into())],
            ),
            Artifact::Symlink("/d/f".into()),
        ],
    );
    let mut grants = Vec::new();
    let error = grant_vmm_access(&tree, false, &mut grants).unwrap();
    assert_eq!(error.message(), "mounted artifact must not contain symlink: /d/e/c");
    let list: Vec<(&[u8], u32)> = grants.iter().map(|g| (g.path.as_slice(), g.mode)).collect();
    assert_eq!(
        list,
        [(b"/d/a".as_slice(), 0o600), (b"/d/e/b".as_slice(), 0o600)]
    );
}

#[test]
fn device_numbers_are_those_of_the_kernel() {
    let kvm = create_character_device("/dev/kvm", 10, 232);
    assert_eq!(kvm.path, "/dev/kvm");
    assert_eq!(kvm.number, 2792);
    for (major, minor) in [(0, 0), (10, 200), (0xfff, 0xff), (0x1000, 0x100), (u32::MAX, 1), (1, u32::MAX)] {
        let node = create_character_device("/x", major, minor);
        assert_eq!(node.number, libc::makedev(major, minor));
        assert_eq!(libc::major(node.number), major);
        assert_eq!(libc::minor(node.number), minor);
    }
    assert_eq!(create_character_device("/x", 0x1002, 0x0304).number, 0x0000_1000_0030_0204);
}

#[test]
fn an_existing_node_counts_as_created() {
    assert_eq!(node_created(0, Errno::Other(1)), Ok(()));
    assert_eq!(node_created(-1, Errno::Exists), Ok(()));
    assert_eq!(node_created(-1, Errno::Other(1)), Err(Errno::Other(1)));
    assert_eq!(node_created(-1, Errno::NotImplemented), Err(Errno::NotImplemented));
}

#[test]
fn only_character_devices_are_resolved() {
    let device = Device {
        source: "/dev/vfio/42".into(),
        destination: SandboxPath("dev/vfio/42".into()),
    };
    let node = resolve_device(&device, FileKind::CharacterDevice, 77).unwrap();
    assert_eq!(node.path, "/dev/vfio/42");
    assert_eq!(node.number, 77);
    assert_eq!(
        resolve_device(&device, FileKind::Symlink, 77).unwrap_err().message(),
        "device source must not be a symlink: /dev/vfio/42"
    );
    assert_eq!(
        resolve_device(&device, FileKind::Regular, 77).unwrap_err().message(),
        "device source is not a character device: /dev/vfio/42"
    );
}

#[test]
fn devices_are_resolved_in_order() {
    let mut manifest = manifest();
    assert!(matches!(
        resolve_devices(&manifest, &vec![]),
        DeviceAction::Resolved(nodes) if nodes.is_empty()
    ));
    for name in ["vfio", "42"] {
        manifest.devices.push(Device {
            source: format!("/dev/vfio/{name}"),
            destination: SandboxPath(format!("dev/vfio/{name}")),
        });
    }
    let mut found = vec![];
    assert!(matches!(
        resolve_devices(&manifest, &found),
        DeviceAction::Inspect(source) if source == "/dev/vfio/vfio"
    ));
    found.push((FileKind::CharacterDevice, 5));
    assert!(matches!(
        resolve_devices(&manifest, &found),
        DeviceAction::Inspect(source) if source == "/dev/vfio/42"
    ));
    found.push((FileKind::CharacterDevice, 6));
    match resolve_devices(&manifest, &found) {
        DeviceAction::Resolved(nodes) => {
            let list: Vec<(&str, u64)> =
                nodes.iter().map(|node| (node.path.as_str(), node.number)).collect();
            assert_eq!(list, [("/dev/vfio/vfio", 5), ("/dev/vfio/42", 6)]);
        }
        _ => panic!("not resolved"),
    }
    let found = vec![(FileKind::Directory, 0), (FileKind::Symlink, 0)];
    assert!(matches!(
        resolve_devices(&manifest, &found),
        DeviceAction::Refuse(JailError::NotCharacterDevice(source)) if source == "/dev/vfio/vfio"
    ));
    let found = vec![(FileKind::CharacterDevice, 5), (FileKind::Symlink, 0)];
    assert!(matches!(
        resolve_devices(&manifest, &found),
        DeviceAction::Refuse(JailError::DeviceIsSymlink(source)) if source == "/dev/vfio/42"
    ));
}

fn described(steps: &[DeviceStep]) -> Vec<String> {
    steps
        .iter()
        .map(|step| match step {
            DeviceStep::CreateDirectory(path) => format!("mkdir {path}"),
            DeviceStep::CreateNode { node, mode } => {
                format!("mknod {} {} {mode:o}", node.path, node.number)
            }
            DeviceStep::Own { path, uid, gid } => format!("chown {path} {uid}:{gid}"),
        })
        .collect()
}

#[test]
fn the_jail_holds_kvm_tun_and_the_declared_devices() {
    assert_eq!(
        described(&create_device_nodes(123, 100, &vec![])),
        [
            "mkdir /dev/net",
            &format!("mknod /dev/kvm {} 600", libc::makedev(10, 232)),
            &format!("mknod /dev/net/tun {} 600", libc::makedev(10, 200)),
            "chown / 123:100",
            "chown /dev/kvm 123:100",
            "chown /dev/net/tun 123:100",
        ]
    );
    let declared = vec![DeviceNode { path: "/dev/vfio/vfio".into(), number: 5 }];
    assert_eq!(
        described(&create_device_nodes(1, 2, &declared)),
        [
            "mkdir /dev/net",
            "mkdir /dev/vfio",
            &format!("mknod /dev/kvm {} 600", libc::makedev(10, 232)),
            &format!("mknod /dev/net/tun {} 600", libc::makedev(10, 200)),
            "mknod /dev/vfio/vfio 5 600",
            "chown / 1:2",
            "chown /dev/kvm 1:2",
            "chown /dev/net/tun 1:2",
            "chown /dev/vfio/vfio 1:2",
        ]
    );
}
