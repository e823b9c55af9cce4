//! The unprivileged, versioned sandbox contract.
//!
//! A manifest is data supplied by the host orchestrator. Validation here is pure: it performs no
//! filesystem, namespace, cgroup, or process mutation. Paths are text, since the JSON form of a
//! manifest can hold no other, and they are read lexically.

use vstd::prelude::*;
use vstd::string::*;

use crate::path;
use crate::path::Component;
use crate::properties::PropertyMap;
use crate::text;

verus! {

/// The sandbox of one Cloud Hypervisor process.
#[derive(Debug)]
pub struct Manifest {
    pub version: u32,
    pub machine_id: String,
    pub root: String,
    pub exec_file: String,
    pub uid: u32,
    pub gid: u32,
    pub netns: Option<String>,
    pub new_pid_namespace: bool,
    pub daemonize: bool,
    pub arguments: Vec<String>,
    pub cgroup: Cgroup,
    pub resource_limits: ResourceLimits,
    pub api_socket: SandboxPath,
    pub mounts: Vec<Mount>,
    pub devices: Vec<Device>,
}

/// The cgroup-v2 group that the process joins.
#[derive(Debug)]
pub struct Cgroup {
    pub parent: Option<SandboxPath>,
    pub values: PropertyMap,
}

impl Default for Cgroup {
    fn default() -> (cgroup: Self)
        ensures
            cgroup.parent is None,
            cgroup.values@ == Map::<Seq<char>, Seq<char>>::empty(),
    {
        Cgroup { parent: None, values: PropertyMap::new() }
    }
}

/// The resource limits that the process runs under.
#[derive(Debug)]
pub struct ResourceLimits {
    pub no_file: u64,
    pub file_size: Option<u64>,
}

impl Default for ResourceLimits {
    fn default() -> (limits: Self)
        ensures
            limits.no_file == 2048,
            limits.file_size is None,
    {
        ResourceLimits { no_file: default_nofile_limit(), file_size: None }
    }
}

/// The number of open files that a process may have where the manifest names none.
pub fn default_nofile_limit() -> (limit: u64)
    ensures
        limit == 2048,
{
    2048
}

/// A host file or directory that is bound into the jail.
#[derive(Debug)]
pub struct Mount {
    pub source: String,
    pub destination: SandboxPath,
    pub read_only: bool,
}

/// A host device that may be recreated inside the jail.
///
/// Only VFIO devices are admitted. The launcher resolves the character-device identity from the
/// trusted host path before pivoting; it never bind-mounts the host `/dev` tree or changes host
/// device ownership.
#[derive(Debug)]
pub struct Device {
    pub source: String,
    pub destination: SandboxPath,
}

/// A path below the root of the jail.
#[derive(Debug)]
pub struct SandboxPath(pub String);

/// Why a manifest is refused.
#[derive(Debug)]
pub enum ManifestError {
    UnsupportedVersion(u32),
    InvalidMachineID,
    MachineIDTooLong,
    RootNotAbsolute,
    InvalidExecFile,
    PrivilegedIdentity,
    NetNSNotAbsolute,
    UnsafeSandboxPath(String),
    SourceNotAbsolute(String),
    DuplicateDestination(String),
    ReservedMountDestination(String),
    InvalidDeviceSource(String),
    InvalidDeviceDestination(String),
    DuplicateDevice(String),
    MissingVFIOControlDevice,
    TooManyDevices,
    InvalidNoFileLimit,
    InvalidCgroupProperty(String),
    DaemonizeUnsupported,
    SeccompOverride,
}

/// The mathematical form of a [`ManifestError`].
pub enum Violation {
    UnsupportedVersion(u32),
    InvalidMachineID,
    MachineIDTooLong,
    RootNotAbsolute,
    InvalidExecFile,
    PrivilegedIdentity,
    NetNSNotAbsolute,
    UnsafeSandboxPath(Seq<char>),
    SourceNotAbsolute(Seq<char>),
    DuplicateDestination(Seq<char>),
    ReservedMountDestination(Seq<char>),
    InvalidDeviceSource(Seq<char>),
    InvalidDeviceDestination(Seq<char>),
    DuplicateDevice(Seq<char>),
    MissingVFIOControlDevice,
    TooManyDevices,
    InvalidNoFileLimit,
    InvalidCgroupProperty(Seq<char>),
    DaemonizeUnsupported,
    SeccompOverride,
}

impl View for ManifestError {
    type V = Violation;

    open spec fn view(&self) -> Violation {
        match self {
            ManifestError::UnsupportedVersion(version) => Violation::UnsupportedVersion(*version),
            ManifestError::InvalidMachineID => Violation::InvalidMachineID,
            ManifestError::MachineIDTooLong => Violation::MachineIDTooLong,
            ManifestError::RootNotAbsolute => Violation::RootNotAbsolute,
            ManifestError::InvalidExecFile => Violation::InvalidExecFile,
            ManifestError::PrivilegedIdentity => Violation::PrivilegedIdentity,
            ManifestError::NetNSNotAbsolute => Violation::NetNSNotAbsolute,
            ManifestError::UnsafeSandboxPath(path) => Violation::UnsafeSandboxPath(path@),
            ManifestError::SourceNotAbsolute(path) => Violation::SourceNotAbsolute(path@),
            ManifestError::DuplicateDestination(path) => Violation::DuplicateDestination(path@),
            ManifestError::ReservedMountDestination(path) => {
                Violation::ReservedMountDestination(path@)
            },
            ManifestError::InvalidDeviceSource(path) => Violation::InvalidDeviceSource(path@),
            ManifestError::InvalidDeviceDestination(path) => {
                Violation::InvalidDeviceDestination(path@)
            },
            ManifestError::DuplicateDevice(path) => Violation::DuplicateDevice(path@),
            ManifestError::MissingVFIOControlDevice => Violation::MissingVFIOControlDevice,
            ManifestError::TooManyDevices => Violation::TooManyDevices,
            ManifestError::InvalidNoFileLimit => Violation::InvalidNoFileLimit,
            ManifestError::InvalidCgroupProperty(name) => Violation::InvalidCgroupProperty(name@),
            ManifestError::DaemonizeUnsupported => Violation::DaemonizeUnsupported,
            ManifestError::SeccompOverride => Violation::SeccompOverride,
        }
    }
}

/// What a violation is called in a report.
pub open spec fn violation_text(violation: Violation) -> Seq<char> {
    match violation {
        Violation::UnsupportedVersion(version) => "unsupported manifest version "@ + text::decimal(version as nat),
        Violation::InvalidMachineID => "machine_id must be non-empty and contain only ascii letters, digits, or '-'"@,
        Violation::MachineIDTooLong => "machine_id must not exceed 64 characters"@,
        Violation::RootNotAbsolute => "root must be an absolute path"@,
        Violation::InvalidExecFile => "exec_file must be an absolute cloud-hypervisor binary path"@,
        Violation::PrivilegedIdentity => "uid and gid must identify an unprivileged account"@,
        Violation::NetNSNotAbsolute => "network namespace path must be absolute"@,
        Violation::UnsafeSandboxPath(path) => "sandbox path "@ + path + " must be relative, clean, and non-empty"@,
        Violation::SourceNotAbsolute(path) => "mount source "@ + path + " must be absolute"@,
        Violation::DuplicateDestination(path) => "duplicate sandbox destination "@ + path,
        Violation::ReservedMountDestination(path) => "mount destination "@ + path + " overlaps the jailer's reserved device tree"@,
        Violation::InvalidDeviceSource(path) => "device source "@ + path + " is not an allow-listed VFIO path"@,
        Violation::InvalidDeviceDestination(path) => "VFIO device destination must match its source: "@ + path,
        Violation::DuplicateDevice(path) => "duplicate VFIO device "@ + path,
        Violation::MissingVFIOControlDevice => "VFIO group devices require the /dev/vfio/vfio control device"@,
        Violation::TooManyDevices => "a jail may contain at most 65 VFIO devices"@,
        Violation::InvalidNoFileLimit => "resource limit no_file must be between 3 and 1048576"@,
        Violation::InvalidCgroupProperty(name) => "cgroup property "@ + name + " is not an allow-listed cgroup v2 file"@,
        Violation::DaemonizeUnsupported => "daemonize is unsupported: machined must supervise the CH process"@,
        Violation::SeccompOverride => "manifest arguments must not override CH seccomp"@,
    }
}

impl ManifestError {
    /// The error as a report puts it.
    pub fn message(&self) -> (message: String)
        ensures
            message@ == violation_text(self@),
    {
        proof {
            reveal_strlit("");
            assert(""@ =~= Seq::empty());
        }
        let message = match self {
            ManifestError::UnsupportedVersion(version) => text::concatenate("unsupported manifest version ", text::decimal_text(*version as u64).as_str(), ""),
            ManifestError::InvalidMachineID => "machine_id must be non-empty and contain only ascii letters, digits, or '-'".to_owned(),
            ManifestError::MachineIDTooLong => "machine_id must not exceed 64 characters".to_owned(),
            ManifestError::RootNotAbsolute => "root must be an absolute path".to_owned(),
            ManifestError::InvalidExecFile => "exec_file must be an absolute cloud-hypervisor binary path".to_owned(),
            ManifestError::PrivilegedIdentity => "uid and gid must identify an unprivileged account".to_owned(),
            ManifestError::NetNSNotAbsolute => "network namespace path must be absolute".to_owned(),
            ManifestError::UnsafeSandboxPath(path) => text::concatenate("sandbox path ", path.as_str(), " must be relative, clean, and non-empty"),
            ManifestError::SourceNotAbsolute(path) => text::concatenate("mount source ", path.as_str(), " must be absolute"),
            ManifestError::DuplicateDestination(path) => text::concatenate("duplicate sandbox destination ", path.as_str(), ""),
            ManifestError::ReservedMountDestination(path) => text::concatenate("mount destination ", path.as_str(), " overlaps the jailer's reserved device tree"),
            ManifestError::InvalidDeviceSource(path) => text::concatenate("device source ", path.as_str(), " is not an allow-listed VFIO path"),
            ManifestError::InvalidDeviceDestination(path) => text::concatenate("VFIO device destination must match its source: ", path.as_str(), ""),
            ManifestError::DuplicateDevice(path) => text::concatenate("duplicate VFIO device ", path.as_str(), ""),
            ManifestError::MissingVFIOControlDevice => "VFIO group devices require the /dev/vfio/vfio control device".to_owned(),
            ManifestError::TooManyDevices => "a jail may contain at most 65 VFIO devices".to_owned(),
            ManifestError::InvalidNoFileLimit => "resource limit no_file must be between 3 and 1048576".to_owned(),
            ManifestError::InvalidCgroupProperty(name) => text::concatenate("cgroup property ", name.as_str(), " is not an allow-listed cgroup v2 file"),
            ManifestError::DaemonizeUnsupported => "daemonize is unsupported: machined must supervise the CH process".to_owned(),
            ManifestError::SeccompOverride => "manifest arguments must not override CH seccomp".to_owned(),
        };
        assert(message@ =~= violation_text(self@));
        message
    }
}

/// An absolute host path without `..`.
pub open spec fn clean_host_path(path: Seq<char>) -> bool {
    &&& path::absolute(path)
    &&& forall|i: int|
        0 <= i < path::segments(path).len() ==> {
            &&& #[trigger] path::segments(path)[i] != path::Segment::CurDir
            &&& path::segments(path)[i] != path::Segment::ParentDir
        }
}

/// A path that holds nothing but names, and at least some text.
pub open spec fn safe_sandbox_path(path: Seq<char>) -> bool {
    &&& path.len() > 0
    &&& !path::absolute(path)
    &&& forall|i: int|
        0 <= i < path::segments(path).len() ==> #[trigger] path::segments(path)[i]
            is Normal
}

/// Whether `path` is absolute and free of `..`.
pub fn is_clean_absolute_host_path(path: &str) -> (clean: bool)
    ensures
        clean == clean_host_path(path@),
{
    if !path::is_absolute(path) {
        return false;
    }
    let list = path::components(path);
    let ghost all = path::segments(path@);
    let mut i: usize = 0;
    while i < list.len()
        invariant
            i <= list@.len(),
            all == path::segments(path@),
            all == path::segment_list(list@),
            forall|k: int|
                0 <= k < i ==> #[trigger] all[k] != path::Segment::CurDir && all[k]
                    != path::Segment::ParentDir,
        decreases list@.len() - i,
    {
        assert(all[i as int] == list@[i as int]@);
        match &list[i] {
            Component::CurDir | Component::ParentDir => {
                return false;
            },
            _ => {},
        }
        i += 1;
    }
    true
}

/// Accepts a path that is relative, clean and not empty.
pub fn validate_sandbox_path(path: &SandboxPath) -> (result: Result<(), ManifestError>)
    ensures
        match result {
            Ok(()) => safe_sandbox_path(path.0@),
            Err(error) => !safe_sandbox_path(path.0@) && error@ == Violation::UnsafeSandboxPath(
                path.0@,
            ),
        },
{
    let raw = path.0.as_str();
    if raw.is_empty() || path::is_absolute(raw) {
        return Err(ManifestError::UnsafeSandboxPath(path.0.clone()));
    }
    let list = path::components(raw);
    let ghost all = path::segments(path.0@);
    let mut i: usize = 0;
    while i < list.len()
        invariant
            i <= list@.len(),
            all == path::segments(path.0@),
            all == path::segment_list(list@),
            forall|k: int| 0 <= k < i ==> #[trigger] all[k] is Normal,
        decreases list@.len() - i,
    {
        assert(all[i as int] == list@[i as int]@);
        match &list[i] {
            Component::Normal(_) => {},
            _ => {
                return Err(ManifestError::UnsafeSandboxPath(path.0.clone()));
            },
        }
        i += 1;
    }
    Ok(())
}

/// The number of a VFIO group, written without leading zeros.
pub open spec fn group_number(name: Seq<char>) -> bool {
    &&& name.len() > 0
    &&& text::all_digits(name)
    &&& name.len() > 1 ==> name[0] != '0'
}

/// The components of `/dev/vfio`.
pub open spec fn vfio_directory() -> Seq<path::Segment> {
    seq![
        path::Segment::RootDir,
        path::Segment::Normal("dev"@),
        path::Segment::Normal("vfio"@),
    ]
}

/// The VFIO control device, `/dev/vfio/vfio`.
pub open spec fn vfio_control(path: Seq<char>) -> bool {
    path::segments(path) == vfio_directory().push(path::Segment::Normal("vfio"@))
}

/// The device of a numbered VFIO group below `/dev/vfio`.
pub open spec fn vfio_group(path: Seq<char>) -> bool {
    exists|name: Seq<char>| #[trigger]
        group_number(name) && path::segments(path) == vfio_directory().push(
            path::Segment::Normal(name),
        )
}

/// An allow-listed VFIO device.
pub open spec fn vfio_source(path: Seq<char>) -> bool {
    clean_host_path(path) && (vfio_control(path) || vfio_group(path))
}

/// Whether a name is the number of a VFIO group.
fn is_group_number(name: &str) -> (result: bool)
    ensures
        result == group_number(name@),
{
    let chars = text::char_vec(name);
    if chars.len() == 0 || (chars.len() > 1 && chars[0] == '0') {
        return false;
    }
    let mut i: usize = 0;
    while i < chars.len()
        invariant
            i <= chars@.len(),
            chars@ == name@,
            forall|k: int| 0 <= k < i ==> text::digit(#[trigger] name@[k]),
        decreases chars@.len() - i,
    {
        if !('0' <= chars[i] && chars[i] <= '9') {
            assert(!text::digit(name@[i as int]));
            return false;
        }
        i += 1;
    }
    true
}

/// The name of the device directly below `/dev/vfio`, if the components name one.
fn vfio_name(list: Vec<Component>) -> (name: Option<String>)
    ensures
        match name {
            Some(name) => path::segment_list(list@) == vfio_directory().push(
                path::Segment::Normal(name@),
            ),
            None => forall|name: Seq<char>|
                path::segment_list(list@) != #[trigger] vfio_directory().push(
                    path::Segment::Normal(name),
                ),
        },
{
    let ghost all = path::segment_list(list@);
    proof {
        assert forall|name: Seq<char>|
            all == #[trigger] vfio_directory().push(path::Segment::Normal(name)) implies {
            &&& list@.len() == 4
            &&& list@[0]@ == path::Segment::RootDir
            &&& list@[1]@ == path::Segment::Normal("dev"@)
            &&& list@[2]@ == path::Segment::Normal("vfio"@)
            &&& list@[3]@ == path::Segment::Normal(name)
        } by {
            let expected = vfio_directory().push(path::Segment::Normal(name));
            assert(all.len() == list@.len());
            assert(expected.len() == 4);
            assert(all[0] == list@[0]@ && all[1] == list@[1]@);
            assert(all[2] == list@[2]@ && all[3] == list@[3]@);
        }
    }
    if list.len() != 4 {
        return None;
    }
    match (&list[0], &list[1], &list[2], &list[3]) {
        (
            Component::RootDir,
            Component::Normal(first),
            Component::Normal(second),
            Component::Normal(name),
        ) => {
            if text::same_text(first.as_str(), "dev") && text::same_text(second.as_str(), "vfio") {
                assert(all =~= vfio_directory().push(path::Segment::Normal(name@)));
                Some(name.clone())
            } else {
                None
            }
        },
        _ => None,
    }
}

/// Accepts the source of a VFIO device, and hands it back.
pub fn validate_vfio_source(path: &str) -> (result: Result<&str, ManifestError>)
    ensures
        match result {
            Ok(source) => vfio_source(path@) && source@ == path@,
            Err(error) => !vfio_source(path@) && error@ == Violation::InvalidDeviceSource(path@),
        },
{
    if !is_clean_absolute_host_path(path) {
        return Err(ManifestError::InvalidDeviceSource(path.to_owned()));
    }
    match vfio_name(path::components(path)) {
        Some(name) => {
            let control = text::same_text(name.as_str(), "vfio");
            let group = is_group_number(name.as_str());
            proof {
                let whole = vfio_directory().push(path::Segment::Normal(name@));
                assert(path::segments(path@) == whole);
                assert(whole.last() == path::Segment::Normal(name@));
                if vfio_control(path@) {
                    assert(vfio_directory().push(path::Segment::Normal("vfio"@)).last()
                        == path::Segment::Normal("vfio"@));
                    assert(name@ == "vfio"@);
                }
                if vfio_group(path@) {
                    let other = choose|other: Seq<char>| #[trigger]
                        group_number(other) && path::segments(path@) == vfio_directory().push(
                            path::Segment::Normal(other),
                        );
                    assert(vfio_directory().push(path::Segment::Normal(other)).last()
                        == path::Segment::Normal(other));
                    assert(other == name@);
                }
            }
            if control || group {
                Ok(path)
            } else {
                Err(ManifestError::InvalidDeviceSource(path.to_owned()))
            }
        },
        None => Err(ManifestError::InvalidDeviceSource(path.to_owned())),
    }
}

/// Every character is an ASCII letter, an ASCII digit or a dash.
pub open spec fn machine_id_text(id: Seq<char>) -> bool {
    forall|i: int|
        0 <= i < id.len() ==> text::alphanumeric(#[trigger] id[i]) || id[i] == '-'
}

/// A clean host path whose final name holds `cloud-hypervisor`.
pub open spec fn hypervisor_executable(path: Seq<char>) -> bool {
    &&& clean_host_path(path)
    &&& path::final_name(path) is Some
    &&& text::contains_text(path::final_name(path)->0, "cloud-hypervisor"@)
}

/// An argument that sets the seccomp mode of Cloud Hypervisor.
pub open spec fn seccomp_argument(argument: Seq<char>) -> bool {
    argument == "--seccomp"@ || text::begins_with(argument, "--seccomp="@)
}

/// A cgroup-v2 file that a manifest may set.
pub open spec fn allowed_property(name: Seq<char>) -> bool {
    ||| name == "cpu.max"@
    ||| name == "cpu.weight"@
    ||| name == "memory.max"@
    ||| name == "memory.high"@
    ||| name == "pids.max"@
    ||| name == "io.max"@
    ||| name == "cpuset.cpus"@
    ||| name == "cpuset.mems"@
}

/// A sandbox path in the device tree that the jailer builds itself.
pub open spec fn reserved_destination(path: Seq<char>) -> bool {
    path::segments(path).len() > 0 && path::segments(path)[0] == path::Segment::Normal("dev"@)
}

impl Manifest {
    /// A mount before the one at `at` has the same destination text.
    pub open spec fn mounted_before(&self, destination: Seq<char>, at: int) -> bool {
        exists|i: int| 0 <= i < at && #[trigger] self.mounts@[i].destination.0@ == destination
    }

    /// A device before the one at `at` has the same destination text.
    pub open spec fn device_placed_before(&self, destination: Seq<char>, at: int) -> bool {
        exists|i: int| 0 <= i < at && #[trigger] self.devices@[i].destination.0@ == destination
    }

    /// A device before the one at `at` has a source with the same components.
    pub open spec fn device_named_before(&self, source: Seq<char>, at: int) -> bool {
        exists|i: int|
            0 <= i < at && path::segments(#[trigger] self.devices@[i].source@) == path::segments(
                source,
            )
    }

    /// What is wrong with the mount at `at`, given those before it.
    pub open spec fn mount_violation(&self, at: int) -> Option<Violation> {
        let source = self.mounts@[at].source@;
        let destination = self.mounts@[at].destination.0@;
        if !clean_host_path(source) {
            Some(Violation::SourceNotAbsolute(source))
        } else if !safe_sandbox_path(destination) {
            Some(Violation::UnsafeSandboxPath(destination))
        } else if reserved_destination(destination) {
            Some(Violation::ReservedMountDestination(destination))
        } else if self.mounted_before(destination, at) {
            Some(Violation::DuplicateDestination(destination))
        } else {
            None
        }
    }

    /// What is wrong with the device at `at`, given the mounts and the devices before it.
    pub open spec fn device_violation(&self, at: int) -> Option<Violation> {
        let source = self.devices@[at].source@;
        let destination = self.devices@[at].destination.0@;
        if !vfio_source(source) {
            Some(Violation::InvalidDeviceSource(source))
        } else if !safe_sandbox_path(destination) {
            Some(Violation::UnsafeSandboxPath(destination))
        } else if path::segments(destination) != path::segments(source).skip(1) {
            Some(Violation::InvalidDeviceDestination(destination))
        } else if self.device_named_before(source, at) {
            Some(Violation::DuplicateDevice(source))
        } else if self.mounted_before(destination, self.mounts@.len() as int)
            || self.device_placed_before(destination, at) {
            Some(Violation::DuplicateDestination(destination))
        } else {
            None
        }
    }

    /// What is wrong with the first bad mount from `from` on.
    pub open spec fn mounts_violation(&self, from: int) -> Option<Violation>
        decreases self.mounts@.len() - from,
    {
        if from >= self.mounts@.len() {
            None
        } else if self.mount_violation(from) is Some {
            self.mount_violation(from)
        } else {
            self.mounts_violation(from + 1)
        }
    }

    /// What is wrong with the first bad device from `from` on.
    pub open spec fn devices_violation(&self, from: int) -> Option<Violation>
        decreases self.devices@.len() - from,
    {
        if from >= self.devices@.len() {
            None
        } else if self.device_violation(from) is Some {
            self.device_violation(from)
        } else {
            self.devices_violation(from + 1)
        }
    }

    /// The first cgroup property, in ascending order from place `from` on, that no manifest may
    /// set.
    pub open spec fn properties_violation(&self, from: int) -> Option<Violation>
        decreases self.cgroup.values.name_list().len() - from,
    {
        let names = self.cgroup.values.name_list();
        if from >= names.len() {
            None
        } else if !allowed_property(names[from]) {
            Some(Violation::InvalidCgroupProperty(names[from]))
        } else {
            self.properties_violation(from + 1)
        }
    }

    /// An argument sets the seccomp mode.
    pub open spec fn overrides_seccomp(&self) -> bool {
        exists|i: int|
            0 <= i < self.arguments@.len() && seccomp_argument(#[trigger] self.arguments@[i]@)
    }

    /// A group device is declared, but not the control device.
    pub open spec fn lacks_control_device(&self) -> bool {
        &&& exists|i: int|
            0 <= i < self.devices@.len() && !vfio_control(#[trigger] self.devices@[i].source@)
        &&& forall|i: int|
            0 <= i < self.devices@.len() ==> !vfio_control(#[trigger] self.devices@[i].source@)
    }

    /// The first rule that the manifest breaks, in the order in which the rules are applied.
    pub open spec fn violation(&self) -> Option<Violation> {
        if self.version != 1 {
            Some(Violation::UnsupportedVersion(self.version))
        } else if self.machine_id@.len() == 0 || !machine_id_text(self.machine_id@) {
            Some(Violation::InvalidMachineID)
        } else if self.machine_id@.len() > 64 {
            Some(Violation::MachineIDTooLong)
        } else if !clean_host_path(self.root@) {
            Some(Violation::RootNotAbsolute)
        } else if !hypervisor_executable(self.exec_file@) {
            Some(Violation::InvalidExecFile)
        } else if self.uid == 0 || self.gid == 0 {
            Some(Violation::PrivilegedIdentity)
        } else if self.netns is Some && !clean_host_path(self.netns->0@) {
            Some(Violation::NetNSNotAbsolute)
        } else if !(3 <= self.resource_limits.no_file <= 1_048_576) {
            Some(Violation::InvalidNoFileLimit)
        } else if self.daemonize {
            Some(Violation::DaemonizeUnsupported)
        } else if self.overrides_seccomp() {
            Some(Violation::SeccompOverride)
        } else if self.cgroup.parent is Some && !safe_sandbox_path((self.cgroup.parent->0).0@) {
            Some(Violation::UnsafeSandboxPath((self.cgroup.parent->0).0@))
        } else if self.properties_violation(0) is Some {
            self.properties_violation(0)
        } else if !safe_sandbox_path(self.api_socket.0@) {
            Some(Violation::UnsafeSandboxPath(self.api_socket.0@))
        } else if self.mounts_violation(0) is Some {
            self.mounts_violation(0)
        } else if self.devices@.len() > 65 {
            Some(Violation::TooManyDevices)
        } else if self.devices_violation(0) is Some {
            self.devices_violation(0)
        } else if self.lacks_control_device() {
            Some(Violation::MissingVFIOControlDevice)
        } else {
            None
        }
    }

    /// The manifest keeps every rule.
    pub open spec fn acceptable(&self) -> bool {
        &&& self.version == 1
        &&& 0 < self.machine_id@.len() <= 64
        &&& machine_id_text(self.machine_id@)
        &&& clean_host_path(self.root@)
        &&& hypervisor_executable(self.exec_file@)
        &&& self.uid != 0
        &&& self.gid != 0
        &&& self.netns is Some ==> clean_host_path(self.netns->0@)
        &&& 3 <= self.resource_limits.no_file <= 1_048_576
        &&& !self.daemonize
        &&& forall|i: int|
            0 <= i < self.arguments@.len() ==> !seccomp_argument(#[trigger] self.arguments@[i]@)
        &&& self.cgroup.parent is Some ==> safe_sandbox_path((self.cgroup.parent->0).0@)
        &&& forall|i: int|
            0 <= i < self.cgroup.values.name_list().len() ==> allowed_property(
                #[trigger] self.cgroup.values.name_list()[i],
            )
        &&& safe_sandbox_path(self.api_socket.0@)
        &&& forall|i: int| 0 <= i < self.mounts@.len() ==> #[trigger] self.mount_is_sound(i)
        &&& forall|i: int, j: int|
            0 <= i < j < self.mounts@.len() ==> (#[trigger] self.mounts@[i]).destination.0@ != (
            #[trigger] self.mounts@[j]).destination.0@
        &&& self.devices@.len() <= 65
        &&& forall|i: int| 0 <= i < self.devices@.len() ==> #[trigger] self.device_is_sound(i)
        &&& forall|i: int, j: int|
            0 <= i < j < self.devices@.len() ==> path::segments(
                (#[trigger] self.devices@[i]).source@,
            ) != path::segments((#[trigger] self.devices@[j]).source@)
        &&& self.devices@.len() > 0 ==> exists|i: int|
            0 <= i < self.devices@.len() && vfio_control(#[trigger] self.devices@[i].source@)
    }

    /// The mount at `at` binds a clean host path to a safe place outside the device tree.
    pub open spec fn mount_is_sound(&self, at: int) -> bool {
        &&& clean_host_path(self.mounts@[at].source@)
        &&& safe_sandbox_path(self.mounts@[at].destination.0@)
        &&& !reserved_destination(self.mounts@[at].destination.0@)
    }

    /// The device at `at` is an allow-listed VFIO device that keeps its name in the jail.
    pub open spec fn device_is_sound(&self, at: int) -> bool {
        let source = self.devices@[at].source@;
        let destination = self.devices@[at].destination.0@;
        &&& vfio_source(source)
        &&& safe_sandbox_path(destination)
        &&& path::segments(destination) == path::segments(source).skip(1)
    }

    /// No mount from `from` on is bad exactly if each of them is good.
    proof fn lemma_mounts(&self, from: int)
        requires
            0 <= from,
        ensures
            self.mounts_violation(from) is None <==> forall|i: int|
                from <= i < self.mounts@.len() ==> #[trigger] self.mount_violation(i) is None,
        decreases self.mounts@.len() - from,
    {
        if from < self.mounts@.len() {
            self.lemma_mounts(from + 1);
        }
    }

    /// No device from `from` on is bad exactly if each of them is good.
    proof fn lemma_devices(&self, from: int)
        requires
            0 <= from,
        ensures
            self.devices_violation(from) is None <==> forall|i: int|
                from <= i < self.devices@.len() ==> #[trigger] self.device_violation(i) is None,
        decreases self.devices@.len() - from,
    {
        if from < self.devices@.len() {
            self.lemma_devices(from + 1);
        }
    }

    /// No property from `from` on is refused exactly if each of them is allowed.
    proof fn lemma_properties(&self, from: int)
        requires
            0 <= from,
        ensures
            self.properties_violation(from) is None <==> forall|i: int|
                from <= i < self.cgroup.values.name_list().len() ==> allowed_property(
                    #[trigger] self.cgroup.values.name_list()[i],
                ),
        decreases self.cgroup.values.name_list().len() - from,
    {
        if from < self.cgroup.values.name_list().len() {
            self.lemma_properties(from + 1);
        }
    }

    /// A device that keeps its name lies in the reserved device tree, and its destination gives
    /// its source back.
    pub proof fn device_destination_is_reserved(&self, at: int)
        requires
            self.device_is_sound(at),
        ensures
            reserved_destination(self.devices@[at].destination.0@),
            path::segments(self.devices@[at].source@) == seq![path::Segment::RootDir]
                + path::segments(self.devices@[at].destination.0@),
    {
        let source = path::segments(self.devices@[at].source@);
        let name = if vfio_control(self.devices@[at].source@) {
            "vfio"@
        } else {
            choose|name: Seq<char>| #[trigger]
                group_number(name) && source == vfio_directory().push(path::Segment::Normal(name))
        };
        assert(source == vfio_directory().push(path::Segment::Normal(name)));
        assert(source.skip(1)[0] == path::Segment::Normal("dev"@));
        assert(source =~= seq![path::Segment::RootDir] + source.skip(1));
    }

    /// A device whose source and destination are good and whose source is new never finds its
    /// destination taken: no mount lies in the device tree, and no other device has its name.
    pub proof fn device_destination_is_free(&self, at: int)
        requires
            0 <= at < self.devices@.len(),
            self.mounts_violation(0) is None,
            forall|i: int| 0 <= i < at ==> #[trigger] self.device_violation(i) is None,
        ensures
            self.device_violation(at) != Some(
                Violation::DuplicateDestination(self.devices@[at].destination.0@),
            ),
    {
        let destination = self.devices@[at].destination.0@;
        let source = self.devices@[at].source@;
        if self.device_is_sound(at) && !self.device_named_before(source, at) {
            self.device_destination_is_reserved(at);
            self.lemma_mounts(0);
            if self.mounted_before(destination, self.mounts@.len() as int) {
                let i = choose|i: int|
                    0 <= i < self.mounts@.len() && #[trigger] self.mounts@[i].destination.0@
                        == destination;
                assert(self.mount_violation(i) is None);
            }
            if self.device_placed_before(destination, at) {
                let i = choose|i: int|
                    0 <= i < at && #[trigger] self.devices@[i].destination.0@ == destination;
                assert(self.device_violation(i) is None);
                self.device_destination_is_reserved(i);
                assert(path::segments(self.devices@[i].source@) == path::segments(source));
            }
        }
    }

    /// A manifest is accepted exactly if it keeps every rule, whatever the order of the rules.
    pub proof fn accepted_exactly_if_acceptable(&self)
        ensures
            self.violation() is None <==> self.acceptable(),
    {
        self.lemma_mounts(0);
        self.lemma_devices(0);
        self.lemma_properties(0);
        if self.violation() is None {
            assert forall|i: int| 0 <= i < self.mounts@.len() implies #[trigger] self.mount_is_sound(
                i,
            ) by {
                assert(self.mount_violation(i) is None);
            }
            assert forall|i: int, j: int| 0 <= i < j < self.mounts@.len() implies (
            #[trigger] self.mounts@[i]).destination.0@ != (
            #[trigger] self.mounts@[j]).destination.0@ by {
                assert(self.mount_violation(j) is None);
            }
            assert forall|i: int| 0 <= i < self.devices@.len() implies
                #[trigger] self.device_is_sound(i) by {
                assert(self.device_violation(i) is None);
            }
            assert forall|i: int, j: int| 0 <= i < j < self.devices@.len() implies path::segments(
                (#[trigger] self.devices@[i]).source@,
            ) != path::segments((#[trigger] self.devices@[j]).source@) by {
                assert(self.device_violation(j) is None);
            }
            if self.devices@.len() > 0 {
                if forall|i: int|
                    0 <= i < self.devices@.len() ==> !vfio_control(
                        #[trigger] self.devices@[i].source@,
                    ) {
                    assert(!vfio_control(self.devices@[0].source@));
                    assert(self.lacks_control_device());
                }
            }
        }
        if self.acceptable() {
            assert forall|i: int| 0 <= i < self.mounts@.len() implies
                #[trigger] self.mount_violation(i) is None by {
                assert(self.mount_is_sound(i));
            }
            self.lemma_all_devices_pass(self.devices@.len() as int);
        }
    }

    /// The devices of an acceptable manifest pass, up to `count`.
    proof fn lemma_all_devices_pass(&self, count: int)
        requires
            self.acceptable(),
            self.mounts_violation(0) is None,
            0 <= count <= self.devices@.len(),
        ensures
            forall|i: int| 0 <= i < count ==> #[trigger] self.device_violation(i) is None,
        decreases count,
    {
        if count > 0 {
            self.lemma_all_devices_pass(count - 1);
            assert(self.device_is_sound(count - 1));
            self.device_destination_is_free(count - 1);
        }
    }

    /// Whether the machine's name holds only the characters that it may.
    fn has_machine_id_text(&self) -> (result: bool)
        ensures
            result == machine_id_text(self.machine_id@),
    {
        let chars = text::char_vec(self.machine_id.as_str());
        let mut i: usize = 0;
        while i < chars.len()
            invariant
                i <= chars@.len(),
                chars@ == self.machine_id@,
                forall|k: int|
                    0 <= k < i ==> text::alphanumeric(#[trigger] chars@[k]) || chars@[k] == '-',
            decreases chars@.len() - i,
        {
            let c = chars[i];
            if !(('0' <= c && c <= '9') || ('a' <= c && c <= 'z') || ('A' <= c && c <= 'Z') || c
                == '-') {
                assert(!text::alphanumeric(self.machine_id@[i as int]));
                return false;
            }
            i += 1;
        }
        true
    }

    /// Whether the executable is a clean host path that names Cloud Hypervisor.
    fn has_hypervisor_executable(&self) -> (result: bool)
        ensures
            result == hypervisor_executable(self.exec_file@),
    {
        if !is_clean_absolute_host_path(self.exec_file.as_str()) {
            return false;
        }
        match path::file_name(self.exec_file.as_str()) {
            Some(name) => text::contains(name.as_str(), "cloud-hypervisor"),
            None => false,
        }
    }

    /// Whether an argument sets the seccomp mode.
    fn has_seccomp_argument(&self) -> (result: bool)
        ensures
            result == self.overrides_seccomp(),
    {
        let mut i: usize = 0;
        while i < self.arguments.len()
            invariant
                i <= self.arguments@.len(),
                forall|k: int| 0 <= k < i ==> !seccomp_argument(#[trigger] self.arguments@[k]@),
            decreases self.arguments@.len() - i,
        {
            let argument = self.arguments[i].as_str();
            if text::same_text(argument, "--seccomp") || text::starts_with(
                argument,
                "--seccomp=",
            ) {
                assert(seccomp_argument(self.arguments@[i as int]@));
                return true;
            }
            i += 1;
        }
        false
    }

    /// Refuses a cgroup property that no manifest may set.
    fn validate_properties(&self) -> (result: Result<(), ManifestError>)
        ensures
            match result {
                Ok(()) => self.properties_violation(0) is None,
                Err(error) => self.properties_violation(0) == Some(error@),
            },
    {
        let values = &self.cgroup.values;
        let count = values.len();
        let mut i: usize = 0;
        while i < count
            invariant
                *values == self.cgroup.values,
                count == values.name_list().len(),
                i <= count,
                self.properties_violation(0) == self.properties_violation(i as int),
            decreases count - i,
        {
            let name = values.name(i);
            if !is_allowed_property(name) {
                return Err(ManifestError::InvalidCgroupProperty(name.to_owned()));
            }
            i += 1;
        }
        Ok(())
    }

    /// Whether one of the first `count` mounts has the destination text.
    fn has_mount_at(&self, destination: &String, count: usize) -> (result: bool)
        requires
            count <= self.mounts@.len(),
        ensures
            result == self.mounted_before(destination@, count as int),
    {
        let mut i: usize = 0;
        while i < count
            invariant
                i <= count <= self.mounts@.len(),
                forall|k: int|
                    0 <= k < i ==> #[trigger] self.mounts@[k].destination.0@ != destination@,
            decreases count - i,
        {
            if self.mounts[i].destination.0 == *destination {
                assert(self.mounts@[i as int].destination.0@ == destination@);
                return true;
            }
            i += 1;
        }
        false
    }

    /// Whether one of the first `count` devices has the destination text.
    fn has_device_at(&self, destination: &String, count: usize) -> (result: bool)
        requires
            count <= self.devices@.len(),
        ensures
            result == self.device_placed_before(destination@, count as int),
    {
        let mut i: usize = 0;
        while i < count
            invariant
                i <= count <= self.devices@.len(),
                forall|k: int|
                    0 <= k < i ==> #[trigger] self.devices@[k].destination.0@ != destination@,
            decreases count - i,
        {
            if self.devices[i].destination.0 == *destination {
                assert(self.devices@[i as int].destination.0@ == destination@);
                return true;
            }
            i += 1;
        }
        false
    }

    /// Whether one of the first `count` devices has a source with the same components.
    fn has_device_from(&self, source: &str, count: usize) -> (result: bool)
        requires
            count <= self.devices@.len(),
        ensures
            result == self.device_named_before(source@, count as int),
    {
        let mut i: usize = 0;
        while i < count
            invariant
                i <= count <= self.devices@.len(),
                forall|k: int|
                    0 <= k < i ==> path::segments(#[trigger] self.devices@[k].source@)
                        != path::segments(source@),
            decreases count - i,
        {
            if path::same_path(self.devices[i].source.as_str(), source) {
                assert(path::segments(self.devices@[i as int].source@) == path::segments(
                    source@,
                ));
                return true;
            }
            i += 1;
        }
        false
    }

    /// Refuses a mount with a bad source, or with a destination that is unsafe, reserved or taken.
    fn validate_mounts(&self) -> (result: Result<(), ManifestError>)
        ensures
            match result {
                Ok(()) => self.mounts_violation(0) is None,
                Err(error) => self.mounts_violation(0) == Some(error@),
            },
    {
        let mut i: usize = 0;
        while i < self.mounts.len()
            invariant
                i <= self.mounts@.len(),
                self.mounts_violation(0) == self.mounts_violation(i as int),
            decreases self.mounts@.len() - i,
        {
            let mount = &self.mounts[i];
            if !is_clean_absolute_host_path(mount.source.as_str()) {
                return Err(ManifestError::SourceNotAbsolute(mount.source.clone()));
            }
            match validate_sandbox_path(&mount.destination) {
                Ok(()) => {},
                Err(error) => {
                    return Err(error);
                },
            }
            if is_reserved_destination(mount.destination.0.as_str()) {
                return Err(ManifestError::ReservedMountDestination(mount.destination.0.clone()));
            }
            if self.has_mount_at(&mount.destination.0, i) {
                return Err(ManifestError::DuplicateDestination(mount.destination.0.clone()));
            }
            i += 1;
        }
        Ok(())
    }

    /// Refuses a device that is not an allow-listed VFIO device, is placed elsewhere than at its
    /// own name, or is declared twice.
    fn validate_devices(&self) -> (result: Result<(), ManifestError>)
        ensures
            match result {
                Ok(()) => self.devices_violation(0) is None,
                Err(error) => self.devices_violation(0) == Some(error@),
            },
    {
        let mut i: usize = 0;
        while i < self.devices.len()
            invariant
                i <= self.devices@.len(),
                self.devices_violation(0) == self.devices_violation(i as int),
            decreases self.devices@.len() - i,
        {
            let device = &self.devices[i];
            let source = match validate_vfio_source(device.source.as_str()) {
                Ok(source) => source,
                Err(error) => {
                    return Err(error);
                },
            };
            match validate_sandbox_path(&device.destination) {
                Ok(()) => {},
                Err(error) => {
                    return Err(error);
                },
            }
            if !is_below_root(source, device.destination.0.as_str()) {
                return Err(
                    ManifestError::InvalidDeviceDestination(device.destination.0.clone()),
                );
            }
            if self.has_device_from(source, i) {
                return Err(ManifestError::DuplicateDevice(device.source.clone()));
            }
            if self.has_mount_at(&device.destination.0, self.mounts.len()) || self.has_device_at(
                &device.destination.0,
                i,
            ) {
                return Err(ManifestError::DuplicateDestination(device.destination.0.clone()));
            }
            i += 1;
        }
        Ok(())
    }

    /// Whether a group device is declared without the control device.
    fn has_no_control_device(&self) -> (result: bool)
        ensures
            result == self.lacks_control_device(),
    {
        let mut has_control = false;
        let mut has_group = false;
        let mut i: usize = 0;
        while i < self.devices.len()
            invariant
                i <= self.devices@.len(),
                has_control <==> exists|k: int|
                    0 <= k < i && vfio_control(#[trigger] self.devices@[k].source@),
                has_group <==> exists|k: int|
                    0 <= k < i && !vfio_control(#[trigger] self.devices@[k].source@),
            decreases self.devices@.len() - i,
        {
            if is_vfio_control(self.devices[i].source.as_str()) {
                assert(vfio_control(self.devices@[i as int].source@));
                has_control = true;
            } else {
                assert(!vfio_control(self.devices@[i as int].source@));
                has_group = true;
            }
            i += 1;
        }
        has_group && !has_control
    }

    /// Accepts a manifest that keeps every rule, and names the first rule that a refused one
    /// breaks.
    pub fn validate(&self) -> (result: Result<(), ManifestError>)
        ensures
            match result {
                Ok(()) => self.violation() is None,
                Err(error) => self.violation() == Some(error@),
            },
            result is Ok <==> self.acceptable(),
    {
        proof {
            self.accepted_exactly_if_acceptable();
        }
        if self.version != 1 {
            return Err(ManifestError::UnsupportedVersion(self.version));
        }
        if self.machine_id.as_str().is_empty() || !self.has_machine_id_text() {
            return Err(ManifestError::InvalidMachineID);
        }
        if self.machine_id.as_str().unicode_len() > 64 {
            return Err(ManifestError::MachineIDTooLong);
        }
        if !is_clean_absolute_host_path(self.root.as_str()) {
            return Err(ManifestError::RootNotAbsolute);
        }
        if !self.has_hypervisor_executable() {
            return Err(ManifestError::InvalidExecFile);
        }
        if self.uid == 0 || self.gid == 0 {
            return Err(ManifestError::PrivilegedIdentity);
        }
        if let Some(netns) = &self.netns {
            if !is_clean_absolute_host_path(netns.as_str()) {
                return Err(ManifestError::NetNSNotAbsolute);
            }
        }
        if !(3 <= self.resource_limits.no_file && self.resource_limits.no_file <= 1_048_576) {
            return Err(ManifestError::InvalidNoFileLimit);
        }
        if self.daemonize {
            return Err(ManifestError::DaemonizeUnsupported);
        }
        if self.has_seccomp_argument() {
            return Err(ManifestError::SeccompOverride);
        }
        if let Some(parent) = &self.cgroup.parent {
            match validate_sandbox_path(parent) {
                Ok(()) => {},
                Err(error) => {
                    return Err(error);
                },
            }
        }
        match self.validate_properties() {
            Ok(()) => {},
            Err(error) => {
                return Err(error);
            },
        }
        match validate_sandbox_path(&self.api_socket) {
            Ok(()) => {},
            Err(error) => {
                return Err(error);
            },
        }
        match self.validate_mounts() {
            Ok(()) => {},
            Err(error) => {
                return Err(error);
            },
        }
        if self.devices.len() > 65 {
            return Err(ManifestError::TooManyDevices);
        }
        match self.validate_devices() {
            Ok(()) => {},
            Err(error) => {
                return Err(error);
            },
        }
        if self.has_no_control_device() {
            return Err(ManifestError::MissingVFIOControlDevice);
        }
        Ok(())
    }
}

/// Whether a manifest may set the cgroup-v2 file.
fn is_allowed_property(name: &str) -> (result: bool)
    ensures
        result == allowed_property(name@),
{
    text::same_text(name, "cpu.max") || text::same_text(name, "cpu.weight") || text::same_text(
        name,
        "memory.max",
    ) || text::same_text(name, "memory.high") || text::same_text(name, "pids.max")
        || text::same_text(name, "io.max") || text::same_text(name, "cpuset.cpus")
        || text::same_text(name, "cpuset.mems")
}

/// Whether a sandbox path lies in the device tree that the jailer builds itself.
fn is_reserved_destination(path: &str) -> (result: bool)
    ensures
        result == reserved_destination(path@),
{
    proof {
        reveal_strlit("dev");
        assert(!"dev"@.contains('/'));
        path::plain_name_is_one_component("dev"@);
        let list = path::segments(path@);
        if list.len() > 0 {
            assert(list.subrange(0, 1) =~= seq![list[0]]);
            assert(seq![list[0]][0] == list[0]);
            assert(seq![path::Segment::Normal("dev"@)][0] == path::Segment::Normal("dev"@));
        }
    }
    path::starts_with(path, "dev")
}

/// Whether a path is that of the VFIO control device.
fn is_vfio_control(path: &str) -> (result: bool)
    ensures
        result == vfio_control(path@),
{
    match vfio_name(path::components(path)) {
        Some(name) => {
            proof {
                assert(vfio_directory().push(path::Segment::Normal(name@)).last()
                    == path::Segment::Normal(name@));
                assert(vfio_directory().push(path::Segment::Normal("vfio"@)).last()
                    == path::Segment::Normal("vfio"@));
            }
            text::same_text(name.as_str(), "vfio")
        },
        None => false,
    }
}

/// Whether `path` has the components that follow the root in an absolute path.
fn is_below_root(source: &str, path: &str) -> (result: bool)
    requires
        path::absolute(source@),
    ensures
        result == (path::segments(path@) == path::segments(source@).skip(1)),
{
    proof {
        reveal_strlit("/");
        assert("/"@ =~= seq!['/']);
        path::shortest_paths();
        assert(path::segments(source@).subrange(0, 1) =~= seq![path::Segment::RootDir]);
    }
    match path::strip_prefix(source, "/") {
        Some(rest) => path::same_components(&path::components(path), &rest),
        None => false,
    }
}

/// A safe sandbox path names at least one thing.
pub proof fn safe_path_names_something(path: Seq<char>)
    requires
        safe_sandbox_path(path),
    ensures
        path::segments(path).len() > 0,
        !path::begins_with_dot(path),
{
    if path::begins_with_dot(path) {
        assert(path::segments(path)[0] == path::Segment::CurDir);
    }
    path::relative_path_names_something(path);
}

/// A safe sandbox path that is joined to a directory stays properly below it.
pub proof fn safe_path_stays_below(base: Seq<char>, path: Seq<char>)
    requires
        safe_sandbox_path(path),
    ensures
        path::strictly_below(base, path::joined(base, path)),
        path::segments(path::joined(base, path)) == path::segments(base) + path::segments(path),
{
    safe_path_names_something(path);
    path::join_appends_components(base, path);
    let whole = path::segments(path::joined(base, path));
    let first = path::segments(base).len() as int;
    assert(whole.subrange(0, first) =~= path::segments(base));
    assert forall|i: int| first <= i < whole.len() implies #[trigger] whole[i] is Normal by {
        assert(whole[i] == path::segments(path)[i - first]);
    }
}

/// The control device and every numbered group directly below `/dev/vfio` are allow-listed.
pub proof fn vfio_paths_are_allowed(number: Seq<char>)
    requires
        group_number(number),
    ensures
        vfio_control("/dev/vfio/vfio"@),
        vfio_source("/dev/vfio/vfio"@),
        vfio_group("/dev/vfio/"@ + number),
        vfio_source("/dev/vfio/"@ + number),
{
    reveal_strlit("/");
    reveal_strlit("dev");
    reveal_strlit("vfio");
    reveal_strlit("/dev");
    reveal_strlit("/dev/vfio");
    reveal_strlit("/dev/vfio/");
    reveal_strlit("/dev/vfio/vfio");
    path::shortest_paths();
    assert("/"@ =~= seq!['/']);
    assert(!"dev"@.contains('/') && !"vfio"@.contains('/'));
    path::plain_name_is_one_component("dev"@);
    path::plain_name_is_one_component("vfio"@);
    assert(!number.contains('/')) by {
        if number.contains('/') {
            let i = choose|i: int| 0 <= i < number.len() && number[i] == '/';
            assert(text::digit(number[i]));
        }
    }
    assert(text::digit(number[0]));
    path::plain_name_is_one_component(number);
    assert(path::joined("/"@, "dev"@) =~= "/dev"@);
    path::join_appends_components("/"@, "dev"@);
    assert(path::joined("/dev"@, "vfio"@) =~= "/dev/vfio"@);
    path::join_appends_components("/dev"@, "vfio"@);
    assert(path::segments("/dev/vfio"@) =~= vfio_directory());
    assert(path::joined("/dev/vfio"@, "vfio"@) =~= "/dev/vfio/vfio"@);
    path::join_appends_components("/dev/vfio"@, "vfio"@);
    assert(path::segments("/dev/vfio/vfio"@) =~= vfio_directory().push(
        path::Segment::Normal("vfio"@),
    ));
    assert(path::joined("/dev/vfio"@, number) =~= "/dev/vfio/"@ + number);
    path::join_appends_components("/dev/vfio"@, number);
    assert(path::segments("/dev/vfio/"@ + number) =~= vfio_directory().push(
        path::Segment::Normal(number),
    ));
}

/// The name of an accepted machine is a single path component.
pub proof fn machine_id_is_one_name(id: Seq<char>)
    requires
        id.len() > 0,
        machine_id_text(id),
    ensures
        path::segments(id) == seq![path::Segment::Normal(id)],
        safe_sandbox_path(id),
{
    assert(!id.contains('/')) by {
        if id.contains('/') {
            let i = choose|i: int| 0 <= i < id.len() && id[i] == '/';
            assert(text::alphanumeric(id[i]) || id[i] == '-');
        }
    }
    assert(text::alphanumeric(id[0]) || id[0] == '-');
    path::plain_name_is_one_component(id);
}

impl Manifest {
    /// Every place that an accepted manifest names in the jail lies properly below the jail's root.
    pub proof fn accepted_paths_stay_in_the_jail(&self)
        requires
            self.acceptable(),
        ensures
            path::strictly_below(self.root@, path::joined(self.root@, self.api_socket.0@)),
            forall|i: int|
                0 <= i < self.mounts@.len() ==> path::strictly_below(
                    self.root@,
                    path::joined(self.root@, #[trigger] self.mounts@[i].destination.0@),
                ),
            forall|i: int|
                0 <= i < self.devices@.len() ==> path::strictly_below(
                    self.root@,
                    path::joined(self.root@, #[trigger] self.devices@[i].destination.0@),
                ),
    {
        safe_path_stays_below(self.root@, self.api_socket.0@);
        assert forall|i: int| 0 <= i < self.mounts@.len() implies path::strictly_below(
            self.root@,
            path::joined(self.root@, #[trigger] self.mounts@[i].destination.0@),
        ) by {
            assert(self.mount_is_sound(i));
            safe_path_stays_below(self.root@, self.mounts@[i].destination.0@);
        }
        assert forall|i: int| 0 <= i < self.devices@.len() implies path::strictly_below(
            self.root@,
            path::joined(self.root@, #[trigger] self.devices@[i].destination.0@),
        ) by {
            assert(self.device_is_sound(i));
            safe_path_stays_below(self.root@, self.devices@[i].destination.0@);
        }
    }

    /// No two destinations of an accepted manifest, of mounts or of devices, have the same text,
    /// and no two devices have destinations with the same components.
    pub proof fn accepted_destinations_differ(&self)
        requires
            self.acceptable(),
        ensures
            forall|i: int, j: int|
                0 <= i < j < self.mounts@.len() ==> (#[trigger] self.mounts@[i]).destination.0@ != (
                #[trigger] self.mounts@[j]).destination.0@,
            forall|i: int, j: int|
                0 <= i < self.mounts@.len() && 0 <= j < self.devices@.len() ==> path::segments(
                    (#[trigger] self.mounts@[i]).destination.0@,
                ) != path::segments((#[trigger] self.devices@[j]).destination.0@),
            forall|i: int, j: int|
                0 <= i < j < self.devices@.len() ==> path::segments(
                    (#[trigger] self.devices@[i]).destination.0@,
                ) != path::segments((#[trigger] self.devices@[j]).destination.0@),
    {
        assert forall|i: int, j: int|
            0 <= i < self.mounts@.len() && 0 <= j < self.devices@.len() implies path::segments(
            (#[trigger] self.mounts@[i]).destination.0@,
        ) != path::segments((#[trigger] self.devices@[j]).destination.0@) by {
            assert(self.mount_is_sound(i));
            assert(self.device_is_sound(j));
            self.device_destination_is_reserved(j);
        }
        assert forall|i: int, j: int| 0 <= i < j < self.devices@.len() implies path::segments(
            (#[trigger] self.devices@[i]).destination.0@,
        ) != path::segments((#[trigger] self.devices@[j]).destination.0@) by {
            assert(self.device_is_sound(i));
            assert(self.device_is_sound(j));
            self.device_destination_is_reserved(i);
            self.device_destination_is_reserved(j);
        }
    }

    /// A manifest that is refused for a destination named twice names it for two mounts.
    pub proof fn duplicate_destination_means_two_mounts(&self, destination: Seq<char>)
        requires
            self.violation() == Some(Violation::DuplicateDestination(destination)),
        ensures
            exists|i: int, j: int|
                0 <= i < j < self.mounts@.len() && (#[trigger] self.mounts@[i]).destination.0@
                    == destination && (#[trigger] self.mounts@[j]).destination.0@ == destination,
    {
        self.lemma_properties_kind(0);
        if self.mounts_violation(0) is Some {
            let j = self.lemma_first_bad_mount(0);
            let i = choose|i: int|
                0 <= i < j && #[trigger] self.mounts@[i].destination.0@ == destination;
            assert(self.mounts@[i].destination.0@ == self.mounts@[j].destination.0@);
        } else {
            let j = self.lemma_first_bad_device(0);
            self.device_destination_is_free(j);
        }
    }

    /// A refused property is reported as a property.
    proof fn lemma_properties_kind(&self, from: int)
        ensures
            self.properties_violation(from) is Some ==> self.properties_violation(from)->0
                is InvalidCgroupProperty,
        decreases self.cgroup.values.name_list().len() - from,
    {
        if from < self.cgroup.values.name_list().len() {
            self.lemma_properties_kind(from + 1);
        }
    }

    /// What is wrong with the mounts is wrong with the first bad one.
    proof fn lemma_first_bad_mount(&self, from: int) -> (at: int)
        requires
            self.mounts_violation(from) is Some,
        ensures
            from <= at < self.mounts@.len(),
            self.mount_violation(at) == self.mounts_violation(from),
        decreases self.mounts@.len() - from,
    {
        if self.mount_violation(from) is Some {
            from
        } else {
            self.lemma_first_bad_mount(from + 1)
        }
    }

    /// What is wrong with the devices is wrong with the first bad one.
    proof fn lemma_first_bad_device(&self, from: int) -> (at: int)
        requires
            0 <= from,
            self.devices_violation(from) is Some,
            forall|i: int| 0 <= i < from ==> #[trigger] self.device_violation(i) is None,
        ensures
            from <= at < self.devices@.len(),
            self.device_violation(at) == self.devices_violation(from),
            forall|i: int| 0 <= i < at ==> #[trigger] self.device_violation(i) is None,
        decreases self.devices@.len() - from,
    {
        if self.device_violation(from) is Some {
            from
        } else {
            self.lemma_first_bad_device(from + 1)
        }
    }
}

} // verus!
