//! What the jail holds: its root, its bind mounts, the access to them, and its device nodes.

use vstd::prelude::*;
use vstd::string::*;

use crate::manifest;
use crate::manifest::{Device, Manifest, Mount};
use crate::path;
use crate::steps;
use crate::text;
use crate::util::Errno;

verus! {

/// What stands at a path, without following a symbolic link there.
#[derive(Debug, Clone, Copy, PartialEq, Eq, Structural)]
pub enum FileKind {
    Regular,
    Directory,
    Symlink,
    CharacterDevice,
    Other,
}

/// Why the jail cannot be built.
#[derive(Debug)]
pub enum JailError {
    /// The executable is something else than a file.
    ExecutableNotRegular,
    /// The API socket would stand at the root of the file system.
    SocketHasNoParent,
    /// A mount source is a symbolic link.
    SourceIsSymlink(String),
    /// A mount destination is the root of the file system.
    DestinationHasNoParent,
    /// A mounted directory holds a symbolic link.
    ArtifactIsSymlink(String),
    /// A part of a mounted directory cannot be read.
    ArtifactUnreadable,
    /// A device source is a symbolic link.
    DeviceIsSymlink(String),
    /// A device source is no character device.
    NotCharacterDevice(String),
}

impl JailError {
    /// The error as a report puts it.
    pub open spec fn text(&self) -> Seq<char> {
        match self {
            JailError::ExecutableNotRegular => {
                "cloud-hypervisor executable is not a regular file"@
            },
            JailError::SocketHasNoParent => "API socket has no parent"@,
            JailError::SourceIsSymlink(path) => "mount source must not be a symlink: "@ + path@,
            JailError::DestinationHasNoParent => "mount destination has no parent"@,
            JailError::ArtifactIsSymlink(path) => "mounted artifact must not contain symlink: "@
                + path@,
            JailError::ArtifactUnreadable => "mounted artifact cannot be read"@,
            JailError::DeviceIsSymlink(path) => "device source must not be a symlink: "@ + path@,
            JailError::NotCharacterDevice(path) => "device source is not a character device: "@
                + path@,
        }
    }

    /// The error as a report puts it.
    pub fn message(&self) -> (message: String)
        ensures
            message@ == self.text(),
    {
        proof {
            reveal_strlit("");
        }
        let message = match self {
            JailError::ExecutableNotRegular => {
                "cloud-hypervisor executable is not a regular file".to_owned()
            },
            JailError::SocketHasNoParent => "API socket has no parent".to_owned(),
            JailError::SourceIsSymlink(path) => {
                text::concatenate("mount source must not be a symlink: ", path.as_str(), "")
            },
            JailError::DestinationHasNoParent => "mount destination has no parent".to_owned(),
            JailError::ArtifactIsSymlink(path) => {
                text::concatenate("mounted artifact must not contain symlink: ", path.as_str(), "")
            },
            JailError::ArtifactUnreadable => "mounted artifact cannot be read".to_owned(),
            JailError::DeviceIsSymlink(path) => {
                text::concatenate("device source must not be a symlink: ", path.as_str(), "")
            },
            JailError::NotCharacterDevice(path) => {
                text::concatenate("device source is not a character device: ", path.as_str(), "")
            },
        };
        assert(message@ =~= self.text());
        message
    }
}

/// One step of preparing the root of the jail.
#[derive(Debug, Clone, Copy, PartialEq, Eq, Structural)]
pub enum RootStep {
    /// Create the root directory.
    CreateRoot,
    /// Give the root directory these permissions.
    RestrictRoot { mode: u32 },
    /// Find out where the executable really lies, and what it is.
    InspectExecutable,
    /// Copy the executable into the root.
    CopyExecutable,
    /// Give the copy these permissions.
    RestrictExecutable { mode: u32 },
    /// Hand the copy to the user and group.
    OwnExecutable { uid: u32, gid: u32 },
    /// Create the directory of the API socket.
    CreateSocketDirectory,
    /// Hand that directory to the user and group.
    OwnSocketDirectory { uid: u32, gid: u32 },
}

/// The steps of preparing the root. Others may pass through it but not list it, and nobody may
/// write the copy of the executable, which the user and group own like the socket's directory.
pub open spec fn root_order(uid: u32, gid: u32) -> Seq<RootStep> {
    seq![
        RootStep::CreateRoot,
        RootStep::RestrictRoot { mode: 0o711 },
        RootStep::InspectExecutable,
        RootStep::CopyExecutable,
        RootStep::RestrictExecutable { mode: 0o500 },
        RootStep::OwnExecutable { uid, gid },
        RootStep::CreateSocketDirectory,
        RootStep::OwnSocketDirectory { uid, gid },
    ]
}

/// The steps of preparing the root for the user and group that own the jail.
pub fn root_steps(uid: u32, gid: u32) -> (steps: Vec<RootStep>)
    ensures
        steps@ == root_order(uid, gid),
{
    let mut steps: Vec<RootStep> = Vec::new();
    steps.push(RootStep::CreateRoot);
    steps.push(RootStep::RestrictRoot { mode: 0o711 });
    steps.push(RootStep::InspectExecutable);
    steps.push(RootStep::CopyExecutable);
    steps.push(RootStep::RestrictExecutable { mode: 0o500 });
    steps.push(RootStep::OwnExecutable { uid, gid });
    steps.push(RootStep::CreateSocketDirectory);
    steps.push(RootStep::OwnSocketDirectory { uid, gid });
    assert(steps@ =~= root_order(uid, gid));
    steps
}

/// How the root of the jail is prepared.
#[derive(Debug)]
pub struct RootPlan {
    /// Where the executable is copied to.
    pub executable: String,
    /// The directory in which Cloud Hypervisor creates its API socket; empty where there is none.
    pub socket_directory: String,
    /// What to do, in this order and up to the first failure.
    pub steps: Vec<RootStep>,
    /// What is refused behind the steps.
    pub refusal: Option<JailError>,
}

/// The place of the API socket, as the host sees it.
pub open spec fn socket_path(manifest: Manifest) -> Seq<char> {
    path::joined(manifest.root@, manifest.api_socket.0@)
}

impl RootPlan {
    /// The plan prepares the root for the manifest, given what the executable is. Anything but a
    /// regular file is refused once it is inspected, and a socket without a directory once the
    /// executable is staged.
    pub open spec fn prepares(&self, manifest: Manifest, executable: Option<FileKind>) -> bool {
        let order = root_order(manifest.uid, manifest.gid);
        let socket = socket_path(manifest);
        &&& self.executable@ == path::joined(manifest.root@, "cloud-hypervisor"@)
        &&& self.socket_directory@ == if path::has_parent(socket) {
            path::parent_text(socket)
        } else {
            ""@
        }
        &&& if executable != Some(FileKind::Regular) {
            &&& self.steps@ == order.take(3)
            &&& self.refusal == Some(JailError::ExecutableNotRegular)
        } else if !path::has_parent(socket) {
            &&& self.steps@ == order.take(6)
            &&& self.refusal == Some(JailError::SocketHasNoParent)
        } else {
            &&& self.steps@ == order
            &&& self.refusal is None
        }
    }
}

/// How to prepare the root of the jail, given what the executable of the manifest is, where it has
/// been inspected already. The steps up to the inspection are the same in any case.
pub fn prepare_root(manifest: &Manifest, executable: Option<FileKind>) -> (plan: RootPlan)
    ensures
        plan.prepares(*manifest, executable),
{
    let mut steps = root_steps(manifest.uid, manifest.gid);
    let ghost order = root_order(manifest.uid, manifest.gid);
    let regular = match executable {
        Some(FileKind::Regular) => true,
        _ => false,
    };
    let target = path::join(manifest.root.as_str(), "cloud-hypervisor");
    let socket = path::join(manifest.root.as_str(), manifest.api_socket.0.as_str());
    let parent = path::parent(socket.as_str());
    let refusal = if !regular {
        steps.truncate(3);
        assert(steps@ =~= order.take(3));
        Some(JailError::ExecutableNotRegular)
    } else if parent.is_none() {
        steps.truncate(6);
        assert(steps@ =~= order.take(6));
        Some(JailError::SocketHasNoParent)
    } else {
        None
    };
    let socket_directory = match parent {
        Some(directory) => directory,
        None => "".to_owned(),
    };
    RootPlan { executable: target, socket_directory, steps, refusal }
}

/// In every run of the steps that prepare the root, finished or not: the executable is copied only
/// if it is a regular file, and only once the root is restricted; the socket's directory is created
/// only once the copy is restricted and handed over. A run that is finished has done it all, and
/// then the executable is a regular file and the socket has a directory. Where that is not so, it is
/// refused once the steps before have succeeded.
pub proof fn root_is_restricted_before_it_is_filled(
    plan: &RootPlan,
    manifest: Manifest,
    executable: Option<FileKind>,
    outcomes: Seq<bool>,
)
    requires
        plan.prepares(manifest, executable),
        steps::run(plan.steps@, plan.refusal, outcomes),
    ensures
        ({
            let order = root_order(manifest.uid, manifest.gid);
            let next = steps::turn(plan.steps@, plan.refusal, steps::reached(outcomes));
            let regular = executable == Some(FileKind::Regular);
            let placed = path::has_parent(socket_path(manifest));
            &&& order.take(3).is_prefix_of(plan.steps@)
            &&& plan.steps@.is_prefix_of(order)
            &&& outcomes.len() <= plan.steps@.len()
            &&& forall|i: int| 0 <= i < outcomes.len() - 1 ==> #[trigger] outcomes[i]
            &&& outcomes.len() > 3 ==> regular
            &&& outcomes.len() > 6 ==> placed
            &&& next is Finished ==> regular && placed && plan.steps@ == order && outcomes
                == Seq::new(8, |i: int| true)
            &&& next is Refuse ==> if regular {
                !placed && outcomes == Seq::new(6, |i: int| true)
            } else {
                outcomes == Seq::new(3, |i: int| true)
            }
        }),
{
    steps::steps_stop_at_the_first_failure(plan.steps@, plan.refusal, outcomes);
}

/// The place of a step among the others when the root is prepared.
pub open spec fn root_rank(step: RootStep) -> int {
    match step {
        RootStep::CreateRoot => 0,
        RootStep::RestrictRoot { .. } => 1,
        RootStep::InspectExecutable => 2,
        RootStep::CopyExecutable => 3,
        RootStep::RestrictExecutable { .. } => 4,
        RootStep::OwnExecutable { .. } => 5,
        RootStep::CreateSocketDirectory => 6,
        RootStep::OwnSocketDirectory { .. } => 7,
    }
}

/// What preparing the root consists of: it is created and restricted to 0o711 whatever the
/// executable is; the executable is copied, restricted to 0o500 and handed to the user and group of
/// the manifest exactly if it is a regular file; and then the socket's directory is created and
/// handed to them exactly if it has one. These steps come in this order, and no others. The copy
/// stands directly in the root under the name `cloud-hypervisor`.
pub proof fn staged_files_belong_to_the_jail(
    plan: &RootPlan,
    manifest: Manifest,
    executable: Option<FileKind>,
    mode: u32,
    uid: u32,
    gid: u32,
)
    requires
        plan.prepares(manifest, executable),
    ensures
        ({
            let steps = plan.steps@;
            let regular = executable matches Some(kind) && kind is Regular;
            let placed = path::has_parent(path::joined(manifest.root@, manifest.api_socket.0@));
            let owned = uid == manifest.uid && gid == manifest.gid;
            &&& steps.contains(RootStep::CreateRoot)
            &&& steps.contains(RootStep::RestrictRoot { mode }) <==> mode == 0o711
            &&& steps.contains(RootStep::InspectExecutable)
            &&& steps.contains(RootStep::CopyExecutable) <==> regular
            &&& steps.contains(RootStep::RestrictExecutable { mode }) <==> regular && mode == 0o500
            &&& steps.contains(RootStep::OwnExecutable { uid, gid }) <==> regular && owned
            &&& steps.contains(RootStep::CreateSocketDirectory) <==> regular && placed
            &&& steps.contains(RootStep::OwnSocketDirectory { uid, gid }) <==> regular && placed
                && owned
            &&& forall|i: int, j: int|
                0 <= i < j < steps.len() ==> root_rank(#[trigger] steps[i]) < root_rank(
                    #[trigger] steps[j],
                )
            &&& plan.refusal is None <==> regular && placed
            &&& !regular ==> plan.refusal == Some(JailError::ExecutableNotRegular)
            &&& regular && !placed ==> plan.refusal == Some(JailError::SocketHasNoParent)
            &&& placed ==> plan.socket_directory@ == path::parent_text(
                path::joined(manifest.root@, manifest.api_socket.0@),
            )
        }),
        path::segments(plan.executable@) == path::segments(manifest.root@).push(
            path::Segment::Normal("cloud-hypervisor"@),
        ),
{
    let steps = plan.steps@;
    let order = root_order(manifest.uid, manifest.gid);
    assert forall|i: int| 0 <= i < steps.len() implies #[trigger] steps[i] == order[i]
        && root_rank(steps[i]) == i by {}
    assert(steps[0] is CreateRoot);
    assert(steps[1] == RootStep::RestrictRoot { mode: 0o711 });
    assert(steps[2] is InspectExecutable);
    if executable == Some(FileKind::Regular) {
        assert(steps[3] is CopyExecutable);
        assert(steps[4] == RootStep::RestrictExecutable { mode: 0o500 });
        assert(steps[5] is OwnExecutable);
        if path::has_parent(socket_path(manifest)) {
            assert(steps[6] is CreateSocketDirectory);
            assert(steps[7] is OwnSocketDirectory);
        }
    }
    let name = "cloud-hypervisor"@;
    reveal_strlit("cloud-hypervisor");
    assert(path::plain_name(name)) by {
        assert(name.len() != seq!['.'].len() && name.len() != seq!['.', '.'].len());
    }
    path::lone_components(name);
    path::join_appends_components(manifest.root@, name);
    assert(path::segments(manifest.root@) + seq![path::Segment::Normal(name)] =~= path::segments(
        manifest.root@,
    ).push(path::Segment::Normal(name)));
}

/// How a file system is mounted.
#[derive(Debug, Clone, Copy, PartialEq, Eq, Structural)]
pub struct MountFlags {
    pub bind: bool,
    pub recursive: bool,
    pub remount: bool,
    pub read_only: bool,
    pub private: bool,
}

/// How the whole tree is mounted in the new mount namespace: nothing propagates out of it.
pub fn private_tree_flags() -> (flags: MountFlags)
    ensures
        flags == (MountFlags {
            bind: false,
            recursive: true,
            remount: false,
            read_only: false,
            private: true,
        }),
{
    MountFlags { bind: false, recursive: true, remount: false, read_only: false, private: true }
}

/// How the root of the jail is bound to itself before it becomes the root of the process.
pub fn jail_root_flags() -> (flags: MountFlags)
    ensures
        flags == bind_flags(true),
{
    MountFlags { bind: true, recursive: true, remount: false, read_only: false, private: false }
}

/// How a source is bound: a directory with all that is mounted below it.
pub open spec fn bind_flags(directory: bool) -> MountFlags {
    MountFlags {
        bind: true,
        recursive: directory,
        remount: false,
        read_only: false,
        private: false,
    }
}

/// How a bound source is made read-only.
pub open spec fn read_only_flags(directory: bool) -> MountFlags {
    MountFlags {
        bind: true,
        recursive: directory,
        remount: true,
        read_only: true,
        private: false,
    }
}

/// One step of binding a mount into the jail.
#[derive(Debug, Clone, Copy, PartialEq, Eq, Structural)]
pub enum BindStep {
    /// Find out where the source really lies.
    ResolveSource,
    /// Create the directory of the mount point.
    CreateParent,
    /// Create a directory as the mount point.
    CreateDirectory,
    /// Create a file with these permissions as the mount point.
    CreateFile { mode: u32 },
    /// Bind the source to the mount point.
    Bind(MountFlags),
    /// Hand the mounted artifact to the jail's own user, with the permissions of an artifact.
    HandOver { uid: u32, gid: u32, directory: bool, read_only: bool },
    /// Change the flags of the mount.
    Remount(MountFlags),
}

/// The steps of binding a mount. The artifact is handed over behind the bind, and before the mount
/// becomes read-only: afterwards its permissions can no longer change.
pub open spec fn bind_order(directory: bool, read_only: bool, uid: u32, gid: u32) -> Seq<BindStep> {
    let steps = seq![
        BindStep::ResolveSource,
        BindStep::CreateParent,
        if directory {
            BindStep::CreateDirectory
        } else {
            BindStep::CreateFile { mode: 0o600 }
        },
        BindStep::Bind(bind_flags(directory)),
        BindStep::HandOver { uid, gid, directory, read_only },
    ];
    if read_only {
        steps.push(BindStep::Remount(read_only_flags(directory)))
    } else {
        steps
    }
}

/// The steps of binding a mount for the user and group that own the jail.
pub fn bind_steps(directory: bool, read_only: bool, uid: u32, gid: u32) -> (steps: Vec<BindStep>)
    ensures
        steps@ == bind_order(directory, read_only, uid, gid),
{
    let flags = MountFlags {
        bind: true,
        recursive: directory,
        remount: false,
        read_only: false,
        private: false,
    };
    let mut steps: Vec<BindStep> = Vec::new();
    steps.push(BindStep::ResolveSource);
    steps.push(BindStep::CreateParent);
    if directory {
        steps.push(BindStep::CreateDirectory);
    } else {
        steps.push(BindStep::CreateFile { mode: 0o600 });
    }
    steps.push(BindStep::Bind(flags));
    steps.push(BindStep::HandOver { uid, gid, directory, read_only });
    if read_only {
        steps.push(
            BindStep::Remount(
                MountFlags {
                    bind: true,
                    recursive: directory,
                    remount: true,
                    read_only: true,
                    private: false,
                },
            ),
        );
    }
    assert(steps@ =~= bind_order(directory, read_only, uid, gid));
    steps
}

/// How one mount of the manifest is bound into the jail.
#[derive(Debug)]
pub struct BindPlan {
    /// The source, as the manifest names it.
    pub source: String,
    /// The place in the jail, as the host sees it.
    pub destination: String,
    /// The directory of that place; empty where there is none.
    pub parent: String,
    /// What to do, in this order and up to the first failure.
    pub steps: Vec<BindStep>,
    /// What is refused behind the steps.
    pub refusal: Option<JailError>,
}

impl BindPlan {
    /// The plan binds the mount below `root`, given what its source is, and hands it to the user
    /// and group. A destination without a directory is refused once the source is resolved.
    pub open spec fn binds(
        &self,
        root: Seq<char>,
        mount: Mount,
        kind: FileKind,
        uid: u32,
        gid: u32,
    ) -> bool {
        let order = bind_order(kind == FileKind::Directory, mount.read_only, uid, gid);
        &&& self.source@ == mount.source@
        &&& self.destination@ == path::joined(root, mount.destination.0@)
        &&& if path::has_parent(self.destination@) {
            &&& self.parent@ == path::parent_text(self.destination@)
            &&& self.steps@ == order
            &&& self.refusal is None
        } else {
            &&& self.parent@ == ""@
            &&& self.steps@ == order.take(1)
            &&& self.refusal == Some(JailError::DestinationHasNoParent)
        }
    }
}

/// The result plans how a mount is bound, or refuses a symbolic link.
pub open spec fn bind_answer(
    root: Seq<char>,
    mount: Mount,
    kind: FileKind,
    uid: u32,
    gid: u32,
    result: Result<BindPlan, JailError>,
) -> bool {
    match result {
        Ok(plan) => kind != FileKind::Symlink && plan.binds(root, mount, kind, uid, gid),
        Err(error) => {
            &&& kind == FileKind::Symlink
            &&& error matches JailError::SourceIsSymlink(path) && path@ == mount.source@
        },
    }
}

/// Whatever the mount is, it is planned exactly if its source is no symbolic link, for just the user
/// and group that are asked for; a symbolic link is refused by its own path.
pub proof fn every_source_but_a_link_is_bound(
    root: Seq<char>,
    mount: Mount,
    kind: FileKind,
    uid: u32,
    gid: u32,
    result: Result<BindPlan, JailError>,
)
    requires
        bind_answer(root, mount, kind, uid, gid, result),
    ensures
        result is Err <==> kind is Symlink,
        result matches Err(error) ==> (error matches JailError::SourceIsSymlink(path) && path@
            == mount.source@),
        result matches Ok(plan) ==> plan.binds(root, mount, kind, uid, gid),
{
}

/// How a mount is bound below `root`, given what its source is, and handed to the user and group.
/// A symbolic link is refused before anything is done.
pub fn bind_mount(root: &str, mount: &Mount, kind: FileKind, uid: u32, gid: u32) -> (result: Result<
    BindPlan,
    JailError,
>)
    ensures
        bind_answer(root@, *mount, kind, uid, gid, result),
{
    let directory = match kind {
        FileKind::Symlink => {
            return Err(JailError::SourceIsSymlink(mount.source.clone()));
        },
        FileKind::Directory => true,
        _ => false,
    };
    let source = mount.source.clone();
    let destination = path::join(root, mount.destination.0.as_str());
    let mut steps = bind_steps(directory, mount.read_only, uid, gid);
    match path::parent(destination.as_str()) {
        Some(parent) => Ok(BindPlan { source, destination, parent, steps, refusal: None }),
        None => {
            let ghost order = steps@;
            steps.truncate(1);
            assert(steps@ =~= order.take(1));
            let refusal = Some(JailError::DestinationHasNoParent);
            Ok(BindPlan { source, destination, parent: "".to_owned(), steps, refusal })
        },
    }
}

/// In every run of the steps of a mount, finished or not: the artifact is handed over only once it
/// is bound, and the mount becomes read-only, where it does, only once the artifact has been handed
/// over. So a hand-over that fails leaves the flags of the mount as they were. A run that is
/// finished has bound the artifact and handed it over, and has remounted it exactly if the jail may
/// only read it. Where the destination has no directory nothing is bound, and no run is finished.
pub proof fn artifact_is_handed_over_before_the_remount(
    plan: &BindPlan,
    root: Seq<char>,
    mount: Mount,
    kind: FileKind,
    uid: u32,
    gid: u32,
    outcomes: Seq<bool>,
    at: int,
)
    requires
        plan.binds(root, mount, kind, uid, gid),
        steps::run(plan.steps@, plan.refusal, outcomes),
        0 <= at < outcomes.len(),
    ensures
        ({
            let steps = plan.steps@;
            let directory = kind == FileKind::Directory;
            let bind = BindStep::Bind(bind_flags(directory));
            let hand_over = BindStep::HandOver { uid, gid, directory, read_only: mount.read_only };
            let remount = BindStep::Remount(read_only_flags(directory));
            let next = steps::turn(steps, plan.refusal, steps::reached(outcomes));
            &&& at < steps.len()
            &&& steps[at] is Bind ==> steps[at] == bind
            &&& steps[at] is HandOver ==> steps[at] == hand_over && exists|bound: int|
                0 <= bound < at && #[trigger] outcomes[bound] && steps[bound] == bind
            &&& steps[at] is Remount ==> mount.read_only && steps[at] == remount && exists|
                handed: int,
            |
                0 <= handed < at && #[trigger] outcomes[handed] && steps[handed] == hand_over
            &&& !outcomes[at] ==> at == outcomes.len() - 1 && next is Failed
            &&& next is Finished ==> {
                &&& path::has_parent(plan.destination@)
                &&& outcomes == Seq::new(steps.len(), |i: int| true)
                &&& steps.contains(bind)
                &&& steps.contains(hand_over)
                &&& mount.read_only <==> steps.contains(remount)
            }
            &&& next is Refuse ==> !path::has_parent(plan.destination@) && outcomes.len() == 1
        }),
{
    let steps = plan.steps@;
    steps::steps_stop_at_the_first_failure(steps, plan.refusal, outcomes);
    if path::has_parent(plan.destination@) {
        assert(steps[3] is Bind);
        assert(steps[4] is HandOver);
        if at > 3 {
            assert(outcomes[3]);
        }
        if at > 4 {
            assert(outcomes[4]);
            assert(steps[5] is Remount);
        }
        if mount.read_only {
            assert(steps[5] is Remount);
        }
    }
    if !outcomes[at] {
        assert(at == outcomes.len() - 1);
        assert(outcomes.last() == outcomes[at]);
    }
}

/// The place of a step among the others when a mount is bound.
pub open spec fn bind_rank(step: BindStep) -> int {
    match step {
        BindStep::ResolveSource => 0,
        BindStep::CreateParent => 1,
        BindStep::CreateDirectory => 2,
        BindStep::CreateFile { .. } => 2,
        BindStep::Bind(_) => 3,
        BindStep::HandOver { .. } => 4,
        BindStep::Remount(_) => 5,
    }
}

/// What binding a mount consists of, whether it is read-only or not: the source is resolved, the
/// directory of the mount point is created, and the mount point is a directory exactly if the
/// source is one, and a file that its owner alone may use exactly if it is not. Then the source is
/// bound, with all that is mounted below it exactly if it is a directory; it is handed to the user
/// and group that are asked for; and it is remounted exactly if it is to be read-only, with the same
/// flags and those of a read-only remount. These steps come in this order, and no others. Nothing
/// is bound where the destination has no directory.
pub proof fn mount_points_suit_their_sources(
    plan: &BindPlan,
    root: Seq<char>,
    mount: Mount,
    kind: FileKind,
    uid: u32,
    gid: u32,
    flags: MountFlags,
    number: u32,
)
    requires
        plan.binds(root, mount, kind, uid, gid),
    ensures
        plan.source@ == mount.source@,
        plan.destination@ == path::joined(root, mount.destination.0@),
        ({
            let steps = plan.steps@;
            let bound = path::has_parent(path::joined(root, mount.destination.0@));
            &&& plan.refusal is None <==> bound
            &&& plan.refusal matches Some(error) ==> error is DestinationHasNoParent
            &&& bound ==> plan.parent@ == path::parent_text(plan.destination@)
            &&& steps.contains(BindStep::ResolveSource)
            &&& steps.contains(BindStep::CreateParent) <==> bound
            &&& steps.contains(BindStep::CreateDirectory) <==> bound && kind is Directory
            &&& steps.contains(BindStep::CreateFile { mode: number }) <==> bound
                && kind !is Directory && number == 0o600
            &&& steps.contains(BindStep::Bind(flags)) <==> bound && flags.bind && flags.recursive
                == (kind is Directory) && !flags.remount && !flags.read_only && !flags.private
            &&& steps.contains(BindStep::Remount(flags)) <==> bound && mount.read_only && flags.bind
                && flags.recursive == (kind is Directory) && flags.remount && flags.read_only
                && !flags.private
            &&& forall|i: int, j: int|
                0 <= i < j < steps.len() ==> bind_rank(#[trigger] steps[i]) < bind_rank(
                    #[trigger] steps[j],
                )
            &&& forall|i: int|
                0 <= i < steps.len() ==> (#[trigger] steps[i] matches BindStep::HandOver {
                    uid: user,
                    gid: group,
                    directory,
                    read_only,
                } ==> user == uid && group == gid && directory == (kind is Directory) && read_only
                    == mount.read_only)
            &&& bound ==> exists|i: int| 0 <= i < steps.len() && #[trigger] steps[i] is HandOver
        }),
{
    let steps = plan.steps@;
    let bound = path::has_parent(plan.destination@);
    assert(steps[0] is ResolveSource);
    if bound {
        assert(steps[1] is CreateParent);
        assert(steps[2] is CreateDirectory || steps[2] == BindStep::CreateFile { mode: 0o600 });
        assert(steps[3] is Bind);
        assert(steps[4] is HandOver);
        if mount.read_only {
            assert(steps[5] is Remount);
        }
    }
    assert forall|i: int| 0 <= i < steps.len() implies bind_rank(#[trigger] steps[i]) == i by {}
    if steps.contains(BindStep::Bind(flags)) {
        let i = choose|i: int| 0 <= i < steps.len() && steps[i] == BindStep::Bind(flags);
        assert(bind_rank(steps[i]) == i);
    }
    if steps.contains(BindStep::Remount(flags)) {
        let i = choose|i: int| 0 <= i < steps.len() && steps[i] == BindStep::Remount(flags);
        assert(bind_rank(steps[i]) == i);
    }
    if bound && flags == bind_flags(kind == FileKind::Directory) {
        assert(steps[3] == BindStep::Bind(flags));
    }
    if bound && mount.read_only && flags == read_only_flags(kind == FileKind::Directory) {
        assert(steps[5] == BindStep::Remount(flags));
    }
}

/// How far the mounts of a manifest have come.
#[derive(Debug, Clone, Copy, PartialEq, Eq, Structural)]
pub enum MountProgress {
    Start,
    /// The source of the mount at this place has been found to be of this kind.
    Inspected(usize, FileKind),
    /// The mount at this place has been bound.
    Bound(usize),
    /// The last thing to do has failed.
    Failed,
}

/// The next thing to do while the mounts of a manifest are bound.
#[derive(Debug)]
pub enum MountAction {
    /// Find out what the source of the mount at this place is.
    Inspect(usize, String),
    /// Bind the mount at this place.
    Bind(usize, BindPlan),
    /// Give up: a source is not admitted.
    Refuse(JailError),
    /// Every mount is bound.
    Finished,
    /// Give up: the last thing to do has failed.
    Failed,
}

/// The next thing to do, by the place of the mount in the manifest.
pub enum MountTurn {
    Inspect(int),
    Bind(int),
    Refuse(int),
    Finished,
    Failed,
}

/// The mount at a place is inspected, where there is one.
pub open spec fn mount_turn_at(count: nat, at: int) -> MountTurn {
    if at < count {
        MountTurn::Inspect(at)
    } else {
        MountTurn::Finished
    }
}

/// What comes next when `count` mounts are to be bound: each is inspected and then bound, one after
/// the other. A symbolic link is refused, and the first failure ends it.
pub open spec fn mount_turn(count: nat, progress: MountProgress) -> MountTurn {
    match progress {
        MountProgress::Start => mount_turn_at(count, 0),
        MountProgress::Inspected(at, kind) => if at >= count {
            MountTurn::Failed
        } else if kind == FileKind::Symlink {
            MountTurn::Refuse(at as int)
        } else {
            MountTurn::Bind(at as int)
        },
        MountProgress::Bound(at) => if at >= count {
            MountTurn::Failed
        } else {
            mount_turn_at(count, at + 1)
        },
        MountProgress::Failed => MountTurn::Failed,
    }
}

/// The action is what comes next for the mounts of the manifest.
pub open spec fn mount_answer(
    manifest: Manifest,
    progress: MountProgress,
    action: MountAction,
) -> bool {
    let mounts = manifest.mounts@;
    let turn = mount_turn(mounts.len(), progress);
    match action {
        MountAction::Inspect(at, path) => {
            &&& turn == MountTurn::Inspect(at as int)
            &&& path@ == mounts[at as int].source@
        },
        MountAction::Bind(at, plan) => {
            &&& turn == MountTurn::Bind(at as int)
            &&& plan.binds(
                manifest.root@,
                mounts[at as int],
                progress->Inspected_1,
                manifest.uid,
                manifest.gid,
            )
        },
        MountAction::Refuse(error) => {
            &&& turn matches MountTurn::Refuse(at)
            &&& error matches JailError::SourceIsSymlink(path)
            &&& path@ == mounts[at].source@
        },
        MountAction::Finished => turn is Finished,
        MountAction::Failed => turn is Failed,
    }
}

/// What to do next to bind the mounts of the manifest.
pub fn mount_resources(manifest: &Manifest, progress: MountProgress) -> (action: MountAction)
    ensures
        mount_answer(*manifest, progress, action),
{
    let count = manifest.mounts.len();
    let next: usize = match progress {
        MountProgress::Start => 0,
        MountProgress::Inspected(at, kind) => {
            if at >= count {
                return MountAction::Failed;
            }
            let mount = &manifest.mounts[at];
            return match bind_mount(
                manifest.root.as_str(),
                mount,
                kind,
                manifest.uid,
                manifest.gid,
            ) {
                Ok(plan) => MountAction::Bind(at, plan),
                Err(error) => MountAction::Refuse(error),
            };
        },
        MountProgress::Bound(at) => {
            if at >= count {
                return MountAction::Failed;
            }
            at + 1
        },
        MountProgress::Failed => {
            return MountAction::Failed;
        },
    };
    if next < count {
        MountAction::Inspect(next, manifest.mounts[next].source.clone())
    } else {
        MountAction::Finished
    }
}

/// How far the mounts can have come once a thing to do is done, or has failed.
pub open spec fn mount_outcome(turn: MountTurn, progress: MountProgress) -> bool {
    match turn {
        MountTurn::Inspect(at) => progress is Failed || (progress matches MountProgress::Inspected(
            place,
            _,
        ) && place == at),
        MountTurn::Bind(at) => progress is Failed || (progress matches MountProgress::Bound(place)
            && place == at),
        _ => false,
    }
}

/// What stands behind place `at` of a trace is what comes next after what stands at `at`, for some
/// outcome of that.
pub open spec fn mount_follows(count: nat, trace: Seq<MountTurn>, at: int) -> bool {
    exists|progress: MountProgress|
        mount_outcome(trace[at], progress) && #[trigger] mount_turn(count, progress) == trace[at
            + 1]
}

/// What is done to bind the mounts, whatever the outcomes: the first is what comes at the start,
/// and each other one what comes next after the one before.
pub open spec fn mount_trace(count: nat, trace: Seq<MountTurn>) -> bool {
    &&& trace.len() > 0
    &&& trace[0] == mount_turn(count, MountProgress::Start)
    &&& forall|i: int| 0 <= i < trace.len() - 1 ==> #[trigger] mount_follows(count, trace, i)
}

/// What stands at place `at` of a trace that is not at its end: each mount in turn is inspected and
/// then bound.
pub open spec fn mount_order(at: int) -> MountTurn {
    if at % 2 == 0 {
        MountTurn::Inspect(at / 2)
    } else {
        MountTurn::Bind(at / 2)
    }
}

proof fn lemma_mount_order(count: nat, trace: Seq<MountTurn>, at: int)
    requires
        mount_trace(count, trace),
        0 <= at < trace.len(),
    ensures
        at < trace.len() - 1 ==> trace[at] == mount_order(at),
        trace[at] is Inspect || trace[at] is Bind ==> trace[at] == mount_order(at) && at < 2
            * count,
        trace[at] is Finished ==> at == 2 * count,
        trace[at] is Refuse ==> at % 2 == 1 && trace[at] == MountTurn::Refuse(at / 2) && at < 2
            * count,
        trace[at] is Failed ==> at > 0,
    decreases at,
{
    if at > 0 {
        lemma_mount_order(count, trace, at - 1);
        assert(mount_follows(count, trace, at - 1));
    }
    if at < trace.len() - 1 {
        assert(mount_follows(count, trace, at));
    }
}

/// Whatever the outcomes, the mounts are bound in the order of the list, each once its own source
/// has been inspected and every mount before it has been bound. The end is reached only once every
/// mount has been bound, and nothing is done after a refusal or a failure.
pub proof fn mounts_are_bound_in_order(count: nat, trace: Seq<MountTurn>, at: int)
    requires
        mount_trace(count, trace),
        0 <= at < trace.len(),
    ensures
        trace[at] matches MountTurn::Bind(place) ==> at == 2 * place + 1 && 0 <= place < count
            && trace[at - 1] == MountTurn::Inspect(place),
        trace[at] matches MountTurn::Inspect(place) ==> at == 2 * place && 0 <= place < count,
        forall|place: int|
            0 <= place && 2 * place + 1 < at ==> #[trigger] trace[2 * place + 1]
                == MountTurn::Bind(place),
        trace[at] is Finished ==> at == 2 * count,
        trace[at] matches MountTurn::Refuse(place) ==> 0 <= place < count && trace[at - 1]
            == MountTurn::Inspect(place),
        trace[at] is Refuse || trace[at] is Finished || trace[at] is Failed ==> at == trace.len()
            - 1,
        mount_turn(count, MountProgress::Failed) is Failed,
{
    lemma_mount_order(count, trace, at);
    if at > 0 {
        lemma_mount_order(count, trace, at - 1);
    }
    assert forall|place: int| 0 <= place && 2 * place + 1 < at implies #[trigger] trace[2 * place
        + 1] == MountTurn::Bind(place) by {
        lemma_mount_order(count, trace, 2 * place + 1);
    }
}

/// Each mount is inspected and bound by itself: its own source is inspected, and it is bound by its
/// own plan, given what its own source was found to be, below the root of the manifest and for the
/// user and group of the manifest. A symbolic link is refused by its own path. The mounts are
/// finished exactly if the last one is bound or there are none.
pub proof fn each_mount_is_bound_by_itself(
    manifest: Manifest,
    progress: MountProgress,
    action: MountAction,
)
    requires
        mount_answer(manifest, progress, action),
    ensures
        ({
            let mounts = manifest.mounts@;
            &&& action matches MountAction::Inspect(at, path) ==> at < mounts.len() && path@
                == mounts[at as int].source@ && (progress is Start && at == 0 || (progress
                matches MountProgress::Bound(before) && at == before + 1))
            &&& action matches MountAction::Bind(at, plan) ==> at < mounts.len() && (progress
                matches MountProgress::Inspected(place, kind) && place == at && kind !is Symlink
                && plan.binds(
                manifest.root@,
                mounts[at as int],
                kind,
                manifest.uid,
                manifest.gid,
            ))
            &&& action matches MountAction::Refuse(error) ==> (progress
                matches MountProgress::Inspected(place, kind) && place < mounts.len()
                && kind is Symlink && (error matches JailError::SourceIsSymlink(path) && path@
                == mounts[place as int].source@))
            &&& action is Finished <==> progress is Start && mounts.len() == 0 || (progress
                matches MountProgress::Bound(before) && before + 1 == mounts.len())
            &&& action is Failed ==> progress is Failed || (progress matches MountProgress::Bound(
                place,
            ) && place >= mounts.len()) || (progress matches MountProgress::Inspected(place, _)
                && place >= mounts.len())
        }),
{
}

/// Success leads on: a mount that is inspected is bound unless it is a symbolic link, which is refused
/// whatever comes before or behind it, and one that is bound is followed by the inspection of the
/// next, or by the end if it was the last.
pub proof fn only_links_and_failures_keep_mounts_out(count: nat, at: usize, kind: FileKind)
    requires
        at < count,
    ensures
        mount_turn(count, MountProgress::Start) == MountTurn::Inspect(0),
        mount_turn(count, MountProgress::Inspected(at, kind)) is Refuse <==> kind is Symlink,
        kind !is Symlink ==> mount_turn(count, MountProgress::Inspected(at, kind))
            == MountTurn::Bind(at as int),
        at + 1 < count ==> mount_turn(count, MountProgress::Bound(at)) == MountTurn::Inspect(at
            + 1),
        at + 1 == count ==> mount_turn(count, MountProgress::Bound(at)) is Finished,
        mount_turn(0, MountProgress::Start) is Finished,
{
}

/// A safe sandbox path below a directory has a parent that is the directory or lies below it.
pub proof fn safe_path_has_parent(base: Seq<char>, path: Seq<char>)
    requires
        manifest::safe_sandbox_path(path),
    ensures
        path::has_parent(path::joined(base, path)),
        path::segments(base).is_prefix_of(
            path::segments(path::parent_text(path::joined(base, path))),
        ),
{
    let whole = path::joined(base, path);
    manifest::safe_path_stays_below(base, path);
    assert(path::segments(whole).last() is Normal);
    path::parent_drops_last_component(whole);
    let first = path::segments(base).len() as int;
    assert(path::segments(whole).drop_last().subrange(0, first) =~= path::segments(base));
}

/// The API socket of an accepted manifest has a directory, which lies in the jail, so nothing but the
/// executable can be refused while the root is prepared.
pub proof fn accepted_root_is_prepared(manifest: &Manifest)
    requires
        manifest.acceptable(),
    ensures
        path::has_parent(socket_path(*manifest)),
        path::segments(manifest.root@).is_prefix_of(
            path::segments(path::parent_text(socket_path(*manifest))),
        ),
{
    safe_path_has_parent(manifest.root@, manifest.api_socket.0@);
}

/// A mount of an accepted manifest whose source is no symbolic link is always bound, at a place
/// properly below the root of the jail and outside its device tree.
pub proof fn accepted_mount_is_bound(manifest: &Manifest, at: int)
    requires
        manifest.acceptable(),
        0 <= at < manifest.mounts@.len(),
    ensures
        path::has_parent(path::joined(manifest.root@, manifest.mounts@[at].destination.0@)),
        path::strictly_below(
            manifest.root@,
            path::joined(manifest.root@, manifest.mounts@[at].destination.0@),
        ),
        path::segments(
            path::joined(manifest.root@, manifest.mounts@[at].destination.0@),
        )[path::segments(manifest.root@).len() as int] != path::Segment::Normal("dev"@),
{
    assert(manifest.mount_is_sound(at));
    let destination = manifest.mounts@[at].destination.0@;
    safe_path_has_parent(manifest.root@, destination);
    manifest::safe_path_stays_below(manifest.root@, destination);
    manifest::safe_path_names_something(destination);
}

/// The permissions of a mounted artifact: as little as the jail's own user needs.
pub open spec fn mode_of(is_directory: bool, read_only: bool) -> u32 {
    let search: u32 = if is_directory {
        0o100
    } else {
        0
    };
    let write: u32 = if read_only {
        0
    } else {
        0o200
    };
    (0o400 + write + search) as u32
}

/// The permissions of a mounted artifact.
pub fn artifact_mode(is_directory: bool, read_only: bool) -> (mode: u32)
    ensures
        mode == mode_of(is_directory, read_only),
{
    match (is_directory, read_only) {
        (true, true) => 0o500,
        (true, false) => 0o700,
        (false, true) => 0o400,
        (false, false) => 0o600,
    }
}

/// The owner may always read an artifact, may write it exactly if it is not read-only, and may
/// search exactly directories; nobody else may do anything.
pub proof fn artifact_mode_is_minimal(is_directory: bool, read_only: bool)
    ensures
        mode_of(is_directory, read_only) & 0o7077 == 0,
        mode_of(is_directory, read_only) < 0o1000,
        mode_of(is_directory, read_only) & 0o400 != 0,
        (mode_of(is_directory, read_only) & 0o200 != 0) == !read_only,
        (mode_of(is_directory, read_only) & 0o100 != 0) == is_directory,
{
    let mode = mode_of(is_directory, read_only);
    assert(0o400u32 & 0o7077 == 0 && 0o600u32 & 0o7077 == 0 && 0o500u32 & 0o7077 == 0 && 0o700u32
        & 0o7077 == 0) by (bit_vector);
    assert(0o400u32 & 0o400 != 0 && 0o600u32 & 0o400 != 0 && 0o500u32 & 0o400 != 0 && 0o700u32
        & 0o400 != 0) by (bit_vector);
    assert(0o400u32 & 0o200 == 0 && 0o600u32 & 0o200 != 0 && 0o500u32 & 0o200 == 0 && 0o700u32
        & 0o200 != 0) by (bit_vector);
    assert(0o400u32 & 0o100 == 0 && 0o600u32 & 0o100 == 0 && 0o500u32 & 0o100 != 0 && 0o700u32
        & 0o100 != 0) by (bit_vector);
}

/// What a mount shows in the jail.
#[derive(Debug)]
pub enum Artifact {
    /// Anything but a directory or a symbolic link, by the bytes of its path.
    File(Vec<u8>),
    /// A symbolic link, by the path that a report shows.
    Symlink(String),
    /// Something that cannot be read.
    Unreadable,
    /// A directory, by the bytes of its path, and its entries, in the order in which they are read.
    Directory(Vec<u8>, Vec<Artifact>),
}

/// A path that is handed to the jail's user with the given permissions.
#[derive(Debug)]
pub struct Grant {
    pub path: Vec<u8>,
    pub mode: u32,
}

/// The paths and permissions of a list of grants.
pub open spec fn grant_list(grants: Seq<Grant>) -> Seq<(Seq<u8>, u32)> {
    Seq::new(grants.len(), |i: int| (grants[i].path@, grants[i].mode))
}

/// What keeps an artifact from being granted whole.
pub enum Obstacle {
    Symlink(Seq<char>),
    Unreadable,
}

/// The first obstacle in an artifact.
pub open spec fn first_obstacle(artifact: Artifact) -> Option<Obstacle>
    decreases artifact, 0int,
{
    match artifact {
        Artifact::File(_) => None,
        Artifact::Symlink(path) => Some(Obstacle::Symlink(path@)),
        Artifact::Unreadable => Some(Obstacle::Unreadable),
        Artifact::Directory(_, entries) => first_obstacle_in(entries@, entries@.len() as int),
    }
}

/// The first obstacle in the first `count` entries of a directory.
pub open spec fn first_obstacle_in(entries: Seq<Artifact>, count: int) -> Option<Obstacle>
    decreases entries, count,
    when 0 <= count <= entries.len()
{
    if count == 0 {
        None
    } else if first_obstacle_in(entries, count - 1) is Some {
        first_obstacle_in(entries, count - 1)
    } else {
        first_obstacle(entries[count - 1])
    }
}

/// The grants for an artifact, up to the first obstacle: the entries of a directory come before the
/// directory itself.
pub open spec fn grants_for(artifact: Artifact, read_only: bool) -> Seq<(Seq<u8>, u32)>
    decreases artifact, 0int,
{
    match artifact {
        Artifact::File(path) => seq![(path@, mode_of(false, read_only))],
        Artifact::Symlink(_) | Artifact::Unreadable => Seq::empty(),
        Artifact::Directory(path, entries) => {
            let inner = grants_in(entries@, entries@.len() as int, read_only);
            if first_obstacle_in(entries@, entries@.len() as int) is Some {
                inner
            } else {
                inner.push((path@, mode_of(true, read_only)))
            }
        },
    }
}

/// The grants for the first `count` entries of a directory, up to the first obstacle.
pub open spec fn grants_in(entries: Seq<Artifact>, count: int, read_only: bool) -> Seq<
    (Seq<u8>, u32),
>
    decreases entries, count,
    when 0 <= count <= entries.len()
{
    if count == 0 {
        Seq::empty()
    } else if first_obstacle_in(entries, count - 1) is Some {
        grants_in(entries, count - 1, read_only)
    } else {
        grants_in(entries, count - 1, read_only) + grants_for(entries[count - 1], read_only)
    }
}

/// Adds the grants for an artifact to a list, and returns the first obstacle, at which it stops.
pub fn grant_vmm_access(artifact: &Artifact, read_only: bool, grants: &mut Vec<Grant>) -> (refused:
    Option<JailError>)
    ensures
        grant_list(final(grants)@) == grant_list(old(grants)@) + grants_for(*artifact, read_only),
        match refused {
            Some(error) => match first_obstacle(*artifact) {
                Some(Obstacle::Symlink(link)) => error matches JailError::ArtifactIsSymlink(path)
                    && path@ == link,
                Some(Obstacle::Unreadable) => error is ArtifactUnreadable,
                None => false,
            },
            None => first_obstacle(*artifact) is None,
        },
    decreases artifact,
{
    let ghost start = grant_list(grants@);
    match artifact {
        Artifact::File(path) => {
            let own = path.clone();
            assert(own@ =~= path@);
            grants.push(Grant { path: own, mode: artifact_mode(false, read_only) });
            assert(grant_list(grants@) =~= start + grants_for(*artifact, read_only));
            None
        },
        Artifact::Symlink(path) => {
            assert(grant_list(grants@) =~= start + grants_for(*artifact, read_only));
            Some(JailError::ArtifactIsSymlink(path.clone()))
        },
        Artifact::Unreadable => {
            assert(grant_list(grants@) =~= start + grants_for(*artifact, read_only));
            Some(JailError::ArtifactUnreadable)
        },
        Artifact::Directory(path, entries) => {
            assert(grant_list(grants@) =~= start + grants_in(entries@, 0, read_only));
            let mut i: usize = 0;
            while i < entries.len()
                invariant
                    i <= entries@.len(),
                    *artifact == Artifact::Directory(*path, *entries),
                    start == grant_list(old(grants)@),
                    first_obstacle_in(entries@, i as int) is None,
                    grant_list(grants@) == start + grants_in(entries@, i as int, read_only),
                decreases entries@.len() - i,
            {
                let refused = grant_vmm_access(&entries[i], read_only, grants);
                assert(grant_list(grants@) =~= start + grants_in(entries@, i + 1, read_only));
                if refused.is_some() {
                    proof {
                        lemma_after_obstacle(entries@, i + 1, entries@.len() as int, read_only);
                    }
                    return refused;
                }
                i += 1;
            }
            let ghost before = grant_list(grants@);
            let own = path.clone();
            assert(own@ =~= path@);
            grants.push(Grant { path: own, mode: artifact_mode(true, read_only) });
            assert(grant_list(grants@) =~= before.push((path@, mode_of(true, read_only))));
            assert(grant_list(grants@) =~= start + grants_for(*artifact, read_only));
            None
        },
    }
}

/// Entries behind an obstacle change nothing.
proof fn lemma_after_obstacle(entries: Seq<Artifact>, from: int, to: int, read_only: bool)
    requires
        0 <= from <= to <= entries.len(),
        first_obstacle_in(entries, from) is Some,
    ensures
        first_obstacle_in(entries, to) == first_obstacle_in(entries, from),
        grants_in(entries, to, read_only) == grants_in(entries, from, read_only),
    decreases to - from,
{
    if from < to {
        lemma_after_obstacle(entries, from, to - 1, read_only);
    }
}

/// A file or directory at `path` stands in an artifact.
pub open spec fn holds(artifact: Artifact, path: Seq<u8>) -> bool
    decreases artifact, 0int,
{
    match artifact {
        Artifact::File(own) => own@ == path,
        Artifact::Symlink(_) | Artifact::Unreadable => false,
        Artifact::Directory(own, entries) => own@ == path || holds_in(
            entries@,
            entries@.len() as int,
            path,
        ),
    }
}

/// A file or directory at `path` stands in one of the first `count` entries of a directory.
pub open spec fn holds_in(entries: Seq<Artifact>, count: int, path: Seq<u8>) -> bool
    decreases entries, count,
    when 0 <= count <= entries.len()
{
    count > 0 && (holds_in(entries, count - 1, path) || holds(entries[count - 1], path))
}

/// One of the grants is for `path`.
pub open spec fn granted(grants: Seq<(Seq<u8>, u32)>, path: Seq<u8>) -> bool {
    exists|i: int| 0 <= i < grants.len() && (#[trigger] grants[i]).0 == path
}

/// An artifact without obstacles is itself granted last, with the permissions of what it is:
/// a directory behind all that it holds.
pub proof fn artifact_itself_is_granted_last(artifact: Artifact, read_only: bool)
    requires
        first_obstacle(artifact) is None,
    ensures
        match artifact {
            Artifact::File(path) => grants_for(artifact, read_only).last() == (
                path@,
                mode_of(false, read_only),
            ),
            Artifact::Directory(path, _) => grants_for(artifact, read_only).last() == (
                path@,
                mode_of(true, read_only),
            ),
            Artifact::Symlink(_) | Artifact::Unreadable => false,
        },
{
}

/// A file is granted, a symbolic link or something unreadable is not and is an obstacle, and a
/// directory is granted behind its entries: those before the first obstacle in them whole, the one
/// that holds the obstacle up to there, and those behind it not at all, in which case the directory
/// is not granted either and the obstacle is that of the entry.
pub proof fn grants_go_entry_by_entry(
    path: Vec<u8>,
    link: String,
    entries: Vec<Artifact>,
    at: int,
    read_only: bool,
)
    requires
        0 <= at <= entries@.len(),
        forall|i: int| 0 <= i < at ==> first_obstacle(#[trigger] entries@[i]) is None,
        at < entries@.len() ==> first_obstacle(entries@[at]) is Some,
    ensures
        first_obstacle(Artifact::File(path)) is None,
        first_obstacle(Artifact::Symlink(link)) == Some(Obstacle::Symlink(link@)),
        first_obstacle(Artifact::Unreadable) == Some(Obstacle::Unreadable),
        grants_for(Artifact::File(path), read_only).len() == 1,
        grants_for(Artifact::Symlink(link), read_only).len() == 0,
        grants_for(Artifact::Unreadable, read_only).len() == 0,
        grants_in(entries@, 0, read_only).len() == 0,
        forall|i: int|
            0 <= i < at ==> #[trigger] grants_in(entries@, i + 1, read_only) == grants_in(
                entries@,
                i,
                read_only,
            ) + grants_for(entries@[i], read_only),
        ({
            let whole = Artifact::Directory(path, entries);
            let before = grants_in(entries@, at, read_only);
            if at < entries@.len() {
                &&& first_obstacle(whole) == first_obstacle(entries@[at])
                &&& grants_for(whole, read_only) == before + grants_for(entries@[at], read_only)
            } else {
                &&& first_obstacle(whole) is None
                &&& grants_for(whole, read_only).drop_last() == before
                &&& grants_for(whole, read_only).last().0 == path@
            }
        }),
{
    lemma_no_obstacle(entries@, at);
    assert forall|i: int| 0 <= i < at implies #[trigger] grants_in(entries@, i + 1, read_only)
        == grants_in(entries@, i, read_only) + grants_for(entries@[i], read_only) by {
        lemma_no_obstacle(entries@, i);
    }
    let whole = Artifact::Directory(path, entries);
    if at < entries@.len() {
        assert(first_obstacle_in(entries@, at + 1) == first_obstacle(entries@[at]));
        lemma_after_obstacle(entries@, at + 1, entries@.len() as int, read_only);
    } else {
        assert(grants_for(whole, read_only).drop_last() =~= grants_in(entries@, at, read_only));
    }
}

/// Entries without obstacles make none.
proof fn lemma_no_obstacle(entries: Seq<Artifact>, count: int)
    requires
        0 <= count <= entries.len(),
        forall|i: int| 0 <= i < count ==> first_obstacle(#[trigger] entries[i]) is None,
    ensures
        first_obstacle_in(entries, count) is None,
    decreases count,
{
    if count > 0 {
        lemma_no_obstacle(entries, count - 1);
        assert(first_obstacle(entries[count - 1]) is None);
    }
}

/// Every grant gives the minimal permissions of a file or of a directory; and an artifact without
/// obstacles is granted whole: what stands in it, and nothing else.
pub proof fn grants_are_minimal_and_complete(artifact: Artifact, read_only: bool, path: Seq<u8>)
    ensures
        forall|i: int|
            0 <= i < grants_for(artifact, read_only).len() ==> {
                let mode = (#[trigger] grants_for(artifact, read_only)[i]).1;
                mode == mode_of(true, read_only) || mode == mode_of(false, read_only)
            },
        first_obstacle(artifact) is None ==> (granted(grants_for(artifact, read_only), path)
            <==> holds(artifact, path)),
    decreases artifact, 0int,
{
    match artifact {
        Artifact::File(own) => {
            let all = grants_for(artifact, read_only);
            assert(all[0].0 == own@);
        },
        Artifact::Symlink(_) | Artifact::Unreadable => {},
        Artifact::Directory(own, entries) => {
            let count = entries@.len() as int;
            lemma_grants_in(entries@, count, read_only, path);
            let inner = grants_in(entries@, count, read_only);
            let all = grants_for(artifact, read_only);
            if first_obstacle(artifact) is None {
                assert(all.last() == (own@, mode_of(true, read_only)));
                if granted(inner, path) {
                    let i = choose|i: int| 0 <= i < inner.len() && (#[trigger] inner[i]).0 == path;
                    assert(all[i].0 == path);
                }
                if granted(all, path) && own@ != path {
                    let i = choose|i: int| 0 <= i < all.len() && (#[trigger] all[i]).0 == path;
                    assert(inner[i].0 == path);
                }
                if own@ == path {
                    assert(all[all.len() - 1].0 == path);
                }
            }
        },
    }
}

/// The same for the first `count` entries of a directory.
proof fn lemma_grants_in(entries: Seq<Artifact>, count: int, read_only: bool, path: Seq<u8>)
    requires
        0 <= count <= entries.len(),
    ensures
        forall|i: int|
            0 <= i < grants_in(entries, count, read_only).len() ==> {
                let mode = (#[trigger] grants_in(entries, count, read_only)[i]).1;
                mode == mode_of(true, read_only) || mode == mode_of(false, read_only)
            },
        first_obstacle_in(entries, count) is None ==> (granted(
            grants_in(entries, count, read_only),
            path,
        ) <==> holds_in(entries, count, path)),
    decreases entries, count,
{
    if count > 0 {
        lemma_grants_in(entries, count - 1, read_only, path);
        grants_are_minimal_and_complete(entries[count - 1], read_only, path);
        let before = grants_in(entries, count - 1, read_only);
        let last = grants_for(entries[count - 1], read_only);
        let all = grants_in(entries, count, read_only);
        if first_obstacle_in(entries, count) is None {
            if granted(before, path) {
                let i = choose|i: int| 0 <= i < before.len() && (#[trigger] before[i]).0 == path;
                assert(all[i].0 == path);
            }
            if granted(last, path) {
                let i = choose|i: int| 0 <= i < last.len() && (#[trigger] last[i]).0 == path;
                assert(all[before.len() + i].0 == path);
            }
            if granted(all, path) {
                let i = choose|i: int| 0 <= i < all.len() && (#[trigger] all[i]).0 == path;
                if i < before.len() {
                    assert(before[i].0 == path);
                } else {
                    assert(last[i - before.len()].0 == path);
                }
            }
        }
    }
}

/// The number by which the kernel knows a device.
pub open spec fn device_bits(major: u32, minor: u32) -> u64 {
    ((major as u64 & 0x0000_0fff) << 8) | ((major as u64 & 0xffff_f000) << 32) | (minor as u64
        & 0x0000_00ff) | ((minor as u64 & 0xffff_ff00) << 12)
}

/// Calls `libc::makedev`. Believed of it: on Linux it puts the lower 12 bits of the major number
/// at bit 8 and the others at bit 44, and the lower 8 bits of the minor number at bit 0 and the
/// others at bit 20.
#[verifier::external_body]
fn device_number(major: u32, minor: u32) -> (number: u64)
    ensures
        number == device_bits(major, minor),
{
    libc::makedev(major, minor)
}

/// The number of a device is its major number times 256 and its minor number, as long as these fit
/// in the bits that the kernel first had for them.
pub proof fn small_device_numbers(major: u32, minor: u32)
    requires
        major < 4096,
        minor < 256,
    ensures
        device_bits(major, minor) == major * 256 + minor,
{
    assert(((major as u64 & 0x0000_0fff) << 8) | ((major as u64 & 0xffff_f000) << 32) | (minor
        as u64 & 0x0000_00ff) | ((minor as u64 & 0xffff_ff00) << 12) == major as u64 * 256 + minor
        as u64) by (bit_vector)
        requires
            major < 4096,
            minor < 256,
    ;
}

/// Different devices have different numbers.
pub proof fn device_numbers_differ(major: u32, minor: u32, other_major: u32, other_minor: u32)
    requires
        device_bits(major, minor) == device_bits(other_major, other_minor),
    ensures
        major == other_major,
        minor == other_minor,
{
    assert(((major as u64 & 0x0000_0fff) << 8) | ((major as u64 & 0xffff_f000) << 32) | (minor
        as u64 & 0x0000_00ff) | ((minor as u64 & 0xffff_ff00) << 12) == ((other_major as u64
        & 0x0000_0fff) << 8) | ((other_major as u64 & 0xffff_f000) << 32) | (other_minor as u64
        & 0x0000_00ff) | ((other_minor as u64 & 0xffff_ff00) << 12) ==> major == other_major
        && minor == other_minor) by (bit_vector);
}

/// A character device in the jail.
#[derive(Debug)]
pub struct DeviceNode {
    pub path: String,
    pub number: u64,
}

/// A character device by its path and its major and minor numbers.
pub fn create_character_device(path: &str, major: u32, minor: u32) -> (node: DeviceNode)
    ensures
        node.path@ == path@,
        node.number == device_bits(major, minor),
{
    DeviceNode { path: path.to_owned(), number: device_number(major, minor) }
}

/// What a call to create a node that returned `result` and left `errno` behind has come to.
pub open spec fn creation_outcome(result: i32, errno: Errno) -> Result<(), Errno> {
    if result == 0 || errno == Errno::Exists {
        Ok(())
    } else {
        Err(errno)
    }
}

/// A node that is there already counts as created, and so does one that the call has created; every
/// other error is handed on.
pub proof fn existing_nodes_count_as_created(result: i32, errno: Errno)
    ensures
        creation_outcome(0, errno) is Ok,
        creation_outcome(result, Errno::Exists) is Ok,
        result != 0 && errno !is Exists ==> creation_outcome(result, errno) == Err::<(), Errno>(
            errno,
        ),
{
}

/// A node that is there already counts as created.
pub fn node_created(result: i32, errno: Errno) -> (outcome: Result<(), Errno>)
    ensures
        outcome == creation_outcome(result, errno),
{
    if result == 0 {
        return Ok(());
    }
    match errno {
        Errno::Exists => Ok(()),
        _ => Err(errno),
    }
}

/// The node in the jail for a declared device, given what its source on the host is and the
/// number that it has there. Nothing but a character device is admitted.
pub fn resolve_device(device: &Device, kind: FileKind, number: u64) -> (result: Result<
    DeviceNode,
    JailError,
>)
    ensures
        match result {
            Ok(node) => {
                &&& kind == FileKind::CharacterDevice
                &&& node.path@ == path::joined("/"@, device.destination.0@)
                &&& node.number == number
            },
            Err(error) => refuses_device(*device, kind, error),
        },
{
    match kind {
        FileKind::CharacterDevice => Ok(
            DeviceNode { path: path::join("/", device.destination.0.as_str()), number },
        ),
        FileKind::Symlink => Err(JailError::DeviceIsSymlink(device.source.clone())),
        _ => Err(JailError::NotCharacterDevice(device.source.clone())),
    }
}

/// A declared device of an accepted manifest stands at the same path in the jail as on the host.
pub proof fn device_keeps_its_path(manifest: &Manifest, at: int)
    requires
        manifest.acceptable(),
        0 <= at < manifest.devices@.len(),
    ensures
        path::segments(path::joined("/"@, manifest.devices@[at].destination.0@)) == path::segments(
            manifest.devices@[at].source@,
        ),
{
    assert(manifest.device_is_sound(at));
    manifest.device_destination_is_reserved(at);
    manifest::safe_path_stays_below("/"@, manifest.devices@[at].destination.0@);
    reveal_strlit("/");
    assert("/"@ =~= seq!['/']);
    path::shortest_paths();
}

/// The nodes stand for the devices in order: each has its path in the jail and the number that was
/// found, and all that was found are character devices.
pub open spec fn resolved(
    devices: Seq<Device>,
    found: Seq<(FileKind, u64)>,
    nodes: Seq<DeviceNode>,
) -> bool {
    &&& nodes.len() == devices.len() <= found.len()
    &&& forall|i: int|
        0 <= i < devices.len() ==> {
            &&& found[i].0 == FileKind::CharacterDevice
            &&& (#[trigger] nodes[i]).path@ == path::joined("/"@, devices[i].destination.0@)
            &&& nodes[i].number == found[i].1
        }
}

/// The first `count` devices have been found to be character devices.
pub open spec fn admitted(found: Seq<(FileKind, u64)>, count: int) -> bool {
    forall|i: int| 0 <= i < count ==> (#[trigger] found[i]).0 == FileKind::CharacterDevice
}

/// The error refuses a device, given what its source is.
pub open spec fn refuses_device(device: Device, kind: FileKind, error: JailError) -> bool {
    if kind == FileKind::Symlink {
        error matches JailError::DeviceIsSymlink(path) && path@ == device.source@
    } else {
        &&& kind != FileKind::CharacterDevice
        &&& error matches JailError::NotCharacterDevice(path) && path@ == device.source@
    }
}

/// Character devices are never refused and are admitted whatever their number; a symbolic link and
/// anything else are refused, each by its own error, which names the source.
pub proof fn only_character_devices_are_admitted(
    device: Device,
    kind: FileKind,
    error: JailError,
    found: Seq<(FileKind, u64)>,
    count: int,
)
    requires
        0 <= count <= found.len(),
    ensures
        refuses_device(device, kind, error) ==> kind !is CharacterDevice,
        refuses_device(device, kind, error) && kind is Symlink ==> (error
            matches JailError::DeviceIsSymlink(path) && path@ == device.source@),
        refuses_device(device, kind, error) && kind !is Symlink ==> (error
            matches JailError::NotCharacterDevice(path) && path@ == device.source@),
        admitted(found, count) <==> forall|i: int|
            0 <= i < count ==> (#[trigger] found[i]).0 is CharacterDevice,
{
}

/// The next thing to do while the declared devices are resolved.
#[derive(Debug)]
pub enum DeviceAction {
    /// Find out what the source of the next device is, and its number.
    Inspect(String),
    /// Give up.
    Refuse(JailError),
    /// Every device has its node.
    Resolved(Vec<DeviceNode>),
}

/// The action is what comes next for the devices of the manifest, given the kinds and numbers that
/// were found of the first of them.
pub open spec fn device_answer(
    devices: Seq<Device>,
    found: Seq<(FileKind, u64)>,
    action: DeviceAction,
) -> bool {
    match action {
        DeviceAction::Inspect(path) => {
            &&& found.len() < devices.len()
            &&& admitted(found, found.len() as int)
            &&& path@ == devices[found.len() as int].source@
        },
        DeviceAction::Refuse(error) => exists|i: int|
            {
                &&& 0 <= i < found.len()
                &&& i < devices.len()
                &&& admitted(found, i)
                &&& #[trigger] refuses_device(devices[i], found[i].0, error)
            },
        DeviceAction::Resolved(nodes) => resolved(devices, found, nodes@),
    }
}

/// As long as all that was found are character devices, the next source is inspected, or all have
/// their nodes if there is none left; the first other thing that was found is refused by its own
/// path, whatever was found behind it. Every node has the path of its device in the jail and the
/// number that was found of it.
pub proof fn devices_are_resolved_one_by_one(
    devices: Seq<Device>,
    found: Seq<(FileKind, u64)>,
    action: DeviceAction,
    at: int,
)
    requires
        device_answer(devices, found, action),
        0 <= at <= found.len(),
        at <= devices.len(),
        forall|i: int| 0 <= i < at ==> (#[trigger] found[i]).0 is CharacterDevice,
    ensures
        at == devices.len() ==> action is Resolved,
        at == found.len() && at < devices.len() ==> (action matches DeviceAction::Inspect(path)
            && path@ == devices[at].source@),
        at < found.len() && at < devices.len() && found[at].0 is Symlink ==> (action
            matches DeviceAction::Refuse(error) && (error matches JailError::DeviceIsSymlink(path)
            && path@ == devices[at].source@)),
        at < found.len() && at < devices.len() && found[at].0 !is Symlink && found[at].0
            !is CharacterDevice ==> (action matches DeviceAction::Refuse(error) && (error
            matches JailError::NotCharacterDevice(path) && path@ == devices[at].source@)),
        action matches DeviceAction::Resolved(nodes) ==> {
            &&& nodes@.len() == devices.len()
            &&& forall|i: int|
                0 <= i < devices.len() ==> (#[trigger] nodes@[i]).number == found[i].1
                    && nodes@[i].path@ == path::joined(seq!['/'], devices[i].destination.0@)
        },
{
    reveal_strlit("/");
    assert("/"@ =~= seq!['/']);
    if let DeviceAction::Refuse(error) = action {
        let i = choose|i: int|
            {
                &&& 0 <= i < found.len()
                &&& i < devices.len()
                &&& admitted(found, i)
                &&& #[trigger] refuses_device(devices[i], found[i].0, error)
            };
        if i < at {
            assert(found[i].0 is CharacterDevice);
        }
        if at < i {
            assert(found[at].0 == FileKind::CharacterDevice);
        }
    }
    if let DeviceAction::Inspect(_) = action {
        if at < found.len() {
            assert(found[at].0 == FileKind::CharacterDevice);
        }
    }
    if let DeviceAction::Resolved(nodes) = action {
        if at < devices.len() && at < found.len() {
            assert(nodes@[at].number == found[at].1);
        }
    }
}

/// What to do next to resolve the devices of the manifest, given the kinds and numbers that were
/// found of the first of them.
pub fn resolve_devices(manifest: &Manifest, found: &Vec<(FileKind, u64)>) -> (action: DeviceAction)
    ensures
        device_answer(manifest.devices@, found@, action),
{
    let count = manifest.devices.len();
    let mut nodes: Vec<DeviceNode> = Vec::new();
    let mut i: usize = 0;
    while i < count
        invariant
            count == manifest.devices@.len(),
            i <= count,
            i <= found@.len(),
            nodes@.len() == i,
            admitted(found@, i as int),
            forall|k: int|
                0 <= k < i ==> {
                    &&& (#[trigger] nodes@[k]).path@ == path::joined(
                        "/"@,
                        manifest.devices@[k].destination.0@,
                    )
                    &&& nodes@[k].number == found@[k].1
                },
        decreases count - i,
    {
        let device = &manifest.devices[i];
        if i >= found.len() {
            return DeviceAction::Inspect(device.source.clone());
        }
        let (kind, number) = found[i];
        match resolve_device(device, kind, number) {
            Ok(node) => nodes.push(node),
            Err(error) => {
                assert(refuses_device(manifest.devices@[i as int], found@[i as int].0, error));
                return DeviceAction::Refuse(error);
            },
        }
        i += 1;
    }
    DeviceAction::Resolved(nodes)
}

/// One step of creating the devices of the jail.
#[derive(Debug)]
pub enum DeviceStep {
    /// Create a directory.
    CreateDirectory(String),
    /// Create a node with these permissions.
    CreateNode { node: DeviceNode, mode: u32 },
    /// Hand what stands at a path to the user and group.
    Own { path: String, uid: u32, gid: u32 },
}

/// A step of creating the devices, in terms of the texts and numbers that it names.
pub enum NodeStep {
    CreateDirectory(Seq<char>),
    CreateNode { path: Seq<char>, number: u64, mode: u32 },
    Own { path: Seq<char>, uid: u32, gid: u32 },
}

impl View for DeviceStep {
    type V = NodeStep;

    open spec fn view(&self) -> NodeStep {
        match self {
            DeviceStep::CreateDirectory(path) => NodeStep::CreateDirectory(path@),
            DeviceStep::CreateNode { node, mode } => NodeStep::CreateNode {
                path: node.path@,
                number: node.number,
                mode: *mode,
            },
            DeviceStep::Own { path, uid, gid } => NodeStep::Own {
                path: path@,
                uid: *uid,
                gid: *gid,
            },
        }
    }
}

/// The steps, in terms of the texts and numbers that they name.
pub open spec fn node_step_list(steps: Seq<DeviceStep>) -> Seq<NodeStep> {
    Seq::new(steps.len(), |i: int| steps[i]@)
}

/// The paths and numbers of a list of device nodes.
pub open spec fn node_list(nodes: Seq<DeviceNode>) -> Seq<(Seq<char>, u64)> {
    Seq::new(nodes.len(), |i: int| (nodes[i].path@, nodes[i].number))
}

/// The nodes of a jail: KVM, TUN, and the declared ones behind them.
pub open spec fn jail_nodes(declared: Seq<(Seq<char>, u64)>) -> Seq<(Seq<char>, u64)> {
    seq![("/dev/kvm"@, device_bits(10, 232)), ("/dev/net/tun"@, device_bits(10, 200))] + declared
}

/// The directories in which the nodes of a jail stand.
pub open spec fn device_directories(declared: bool) -> Seq<NodeStep> {
    if declared {
        seq![
            NodeStep::CreateDirectory("/dev/net"@),
            NodeStep::CreateDirectory("/dev/vfio"@),
        ]
    } else {
        seq![NodeStep::CreateDirectory("/dev/net"@)]
    }
}

/// The steps that create nodes, for their owner alone to read and write.
pub open spec fn node_creations(nodes: Seq<(Seq<char>, u64)>) -> Seq<NodeStep> {
    Seq::new(
        nodes.len(),
        |i: int| NodeStep::CreateNode { path: nodes[i].0, number: nodes[i].1, mode: 0o600 },
    )
}

/// The steps that hand nodes to the user and group.
pub open spec fn node_grants(nodes: Seq<(Seq<char>, u64)>, uid: u32, gid: u32) -> Seq<NodeStep> {
    Seq::new(nodes.len(), |i: int| NodeStep::Own { path: nodes[i].0, uid, gid })
}

/// The steps of creating the devices of a jail: the directories, the nodes, and then what the user
/// and group own, which is the root of the jail and every node.
pub open spec fn device_order(declared: Seq<(Seq<char>, u64)>, uid: u32, gid: u32) -> Seq<
    NodeStep,
> {
    let nodes = jail_nodes(declared);
    device_directories(declared.len() > 0) + node_creations(nodes) + seq![
        NodeStep::Own { path: "/"@, uid, gid },
    ] + node_grants(nodes, uid, gid)
}

/// The steps of creating the devices of a jail, with the declared nodes behind KVM and TUN.
pub fn create_device_nodes(uid: u32, gid: u32, declared: &Vec<DeviceNode>) -> (steps: Vec<
    DeviceStep,
>)
    ensures
        node_step_list(steps@) == device_order(node_list(declared@), uid, gid),
{
    let ghost list = node_list(declared@);
    let ghost all = jail_nodes(list);
    let ghost directories = device_directories(list.len() > 0);
    let mut nodes: Vec<DeviceNode> = Vec::new();
    nodes.push(create_character_device("/dev/kvm", 10, 232));
    nodes.push(create_character_device("/dev/net/tun", 10, 200));
    assert(node_list(nodes@) =~= all.take(2));
    let mut i: usize = 0;
    while i < declared.len()
        invariant
            i <= declared@.len(),
            list == node_list(declared@),
            all == jail_nodes(list),
            node_list(nodes@) == all.take(i + 2),
        decreases declared@.len() - i,
    {
        let ghost before = node_list(nodes@);
        nodes.push(DeviceNode { path: declared[i].path.clone(), number: declared[i].number });
        assert(node_list(nodes@) =~= before.push(list[i as int]));
        assert(node_list(nodes@) =~= all.take(i + 3));
        i += 1;
    }
    assert(all.take(all.len() as int) =~= all);
    assert(nodes@.len() == all.len());

    let mut owned: Vec<DeviceStep> = Vec::new();
    owned.push(DeviceStep::Own { path: "/".to_owned(), uid, gid });
    let ghost root = seq![NodeStep::Own { path: "/"@, uid, gid }];
    assert(node_step_list(owned@) =~= root + node_grants(all.take(0), uid, gid));
    let mut i: usize = 0;
    while i < nodes.len()
        invariant
            i <= nodes@.len(),
            all == node_list(nodes@),
            node_step_list(owned@) == root + node_grants(all.take(i as int), uid, gid),
        decreases nodes@.len() - i,
    {
        let ghost before = node_step_list(owned@);
        owned.push(DeviceStep::Own { path: nodes[i].path.clone(), uid, gid });
        assert(node_step_list(owned@) =~= before.push(owned@.last()@));
        assert(all[i as int].0 == nodes@[i as int].path@);
        assert(node_step_list(owned@) =~= root + node_grants(all.take(i + 1), uid, gid));
        i += 1;
    }
    assert(all.take(all.len() as int) =~= all);

    let mut steps: Vec<DeviceStep> = Vec::new();
    steps.push(DeviceStep::CreateDirectory("/dev/net".to_owned()));
    if declared.len() > 0 {
        steps.push(DeviceStep::CreateDirectory("/dev/vfio".to_owned()));
    }
    assert(node_step_list(steps@) =~= directories + node_creations(all.take(0)));
    let mut i: usize = 0;
    while i < nodes.len()
        invariant
            i <= nodes@.len(),
            all == node_list(nodes@),
            node_step_list(steps@) == directories + node_creations(all.take(i as int)),
        decreases nodes@.len() - i,
    {
        let ghost before = node_step_list(steps@);
        let node = DeviceNode { path: nodes[i].path.clone(), number: nodes[i].number };
        steps.push(DeviceStep::CreateNode { node, mode: 0o600 });
        assert(node_step_list(steps@) =~= before.push(steps@.last()@));
        assert(all[i as int] == (nodes@[i as int].path@, nodes@[i as int].number));
        assert(node_step_list(steps@) =~= directories + node_creations(all.take(i + 1)));
        i += 1;
    }
    assert(all.take(all.len() as int) =~= all);
    let ghost created = steps@;
    let ghost handed = owned@;
    steps.append(&mut owned);
    assert(node_step_list(steps@) =~= node_step_list(created) + node_step_list(handed));
    assert(node_step_list(steps@) =~= device_order(list, uid, gid));
    steps
}

/// A node with these attributes is one that a jail for the manifest may hold: KVM, TUN, or a
/// declared device, which is a character device with the same number on the host.
pub open spec fn belongs_in_jail(
    devices: Seq<Device>,
    found: Seq<(FileKind, u64)>,
    path: Seq<char>,
    number: u64,
) -> bool {
    ||| path == "/dev/kvm"@ && number == device_bits(10, 232)
    ||| path == "/dev/net/tun"@ && number == device_bits(10, 200)
    ||| exists|i: int|
        {
            &&& 0 <= i < devices.len()
            &&& path == path::joined("/"@, (#[trigger] devices[i]).destination.0@)
            &&& found[i] == (FileKind::CharacterDevice, number)
        }
}

/// The nodes that are created in a jail are KVM, TUN and the declared devices of its manifest, and
/// no others. Each is for its owner alone to read and write, and is handed to the user and group
/// later on.
pub proof fn jail_holds_only_declared_devices(
    manifest: Manifest,
    found: Seq<(FileKind, u64)>,
    declared: Seq<DeviceNode>,
    uid: u32,
    gid: u32,
    path: Seq<char>,
    number: u64,
)
    requires
        resolved(manifest.devices@, found, declared),
    ensures
        ({
            let order = device_order(node_list(declared), uid, gid);
            &&& belongs_in_jail(manifest.devices@, found, path, number) <==> order.contains(
                NodeStep::CreateNode { path, number, mode: 0o600 },
            )
            &&& forall|i: int|
                0 <= i < order.len() && #[trigger] order[i] is CreateNode ==> {
                    &&& order[i]->mode == 0o600
                    &&& exists|j: int|
                        i < j < order.len() && #[trigger] order[j] == (NodeStep::Own {
                            path: order[i]->CreateNode_path,
                            uid,
                            gid,
                        })
                }
            &&& forall|i: int|
                0 <= i < order.len() && #[trigger] order[i] is Own ==> order[i]->uid == uid
                    && order[i]->gid == gid
        }),
{
    let devices = manifest.devices@;
    let list = node_list(declared);
    let nodes = jail_nodes(list);
    let order = device_order(list, uid, gid);
    let first = device_directories(list.len() > 0).len() as int;
    let count = nodes.len() as int;
    let step = NodeStep::CreateNode { path, number, mode: 0o600 };
    assert forall|k: int| 0 <= k < count implies #[trigger] order[first + k]
        == (NodeStep::CreateNode { path: nodes[k].0, number: nodes[k].1, mode: 0o600 })
        && order[first + count + 1 + k] == (NodeStep::Own { path: nodes[k].0, uid, gid }) by {}
    if belongs_in_jail(devices, found, path, number) {
        if path == "/dev/kvm"@ && number == device_bits(10, 232) {
            assert(order[first] == step);
        } else if path == "/dev/net/tun"@ && number == device_bits(10, 200) {
            assert(order[first + 1] == step);
        } else {
            let i = choose|i: int|
                {
                    &&& 0 <= i < devices.len()
                    &&& path == path::joined("/"@, (#[trigger] devices[i]).destination.0@)
                    &&& found[i] == (FileKind::CharacterDevice, number)
                };
            assert(declared[i].path@ == path);
            assert(nodes[i + 2] == list[i]);
            assert(order[first + (i + 2)] == step);
        }
    }
    if order.contains(step) {
        let at = choose|at: int| 0 <= at < order.len() && order[at] == step;
        let k = at - first;
        assert(0 <= k < count);
        assert(order[first + k] == step);
        if k >= 2 {
            assert(nodes[k] == list[k - 2]);
            assert(declared[k - 2].path@ == path);
            assert(found[k - 2].1 == number);
            assert(devices[k - 2].destination.0@ == devices[k - 2].destination.0@);
        }
    }
    assert forall|i: int| 0 <= i < order.len() && #[trigger] order[i] is CreateNode implies {
        &&& order[i]->mode == 0o600
        &&& exists|j: int|
            i < j < order.len() && #[trigger] order[j] == (NodeStep::Own {
                path: order[i]->CreateNode_path,
                uid,
                gid,
            })
    } by {
        let k = i - first;
        assert(0 <= k < count);
        assert(order[first + k] is CreateNode);
        assert(order[first + count + 1 + k] is Own);
    }
}

/// Something stands in one of two lists exactly if it stands in the two, one behind the other.
proof fn lemma_contains_either<T>(first: Seq<T>, second: Seq<T>, item: T)
    ensures
        (first + second).contains(item) <==> first.contains(item) || second.contains(item),
{
    let both = first + second;
    if first.contains(item) {
        let i = choose|i: int| 0 <= i < first.len() && first[i] == item;
        assert(both[i] == item);
    }
    if second.contains(item) {
        let i = choose|i: int| 0 <= i < second.len() && second[i] == item;
        assert(both[first.len() + i] == item);
    }
    if both.contains(item) {
        let i = choose|i: int| 0 <= i < both.len() && both[i] == item;
        if i < first.len() {
            assert(first[i] == item);
        } else {
            assert(second[i - first.len()] == item);
        }
    }
}

/// The place of a step among the others when the devices are created.
pub open spec fn device_rank(step: NodeStep) -> int {
    match step {
        NodeStep::CreateDirectory(_) => 0,
        NodeStep::CreateNode { .. } => 1,
        NodeStep::Own { .. } => 2,
    }
}

/// What creating the devices consists of, whoever the user and group are: `/dev/net` is created, and
/// `/dev/vfio` exactly if devices are declared; then KVM with the number 2792, TUN with the number
/// 2760 and each declared node with its own number, for their owner alone; and then the root of the
/// jail and each of these nodes is handed to the user and group. There are no other steps.
pub proof fn devices_are_created_and_handed_over(
    declared: Seq<(Seq<char>, u64)>,
    uid: u32,
    gid: u32,
    path: Seq<char>,
    number: u64,
    mode: u32,
    user: u32,
    group: u32,
)
    ensures
        ({
            let order = device_order(declared, uid, gid);
            let node = |path: Seq<char>, number: u64|
                {
                    ||| path == "/dev/kvm"@ && number == 2792
                    ||| path == "/dev/net/tun"@ && number == 2760
                    ||| declared.contains((path, number))
                };
            &&& order.contains(NodeStep::CreateDirectory(path)) <==> path == "/dev/net"@ || (path
                == "/dev/vfio"@ && declared.len() > 0)
            &&& order.contains(NodeStep::CreateNode { path, number, mode }) <==> mode == 0o600
                && node(path, number)
            &&& order.contains(NodeStep::Own { path, uid: user, gid: group }) ==> user == uid
                && group == gid && (path == "/"@ || exists|other: u64| #[trigger]
                node(path, other))
            &&& path == "/"@ || node(path, number) ==> order.contains(
                NodeStep::Own { path, uid, gid },
            )
            &&& forall|i: int, j: int|
                0 <= i < j < order.len() ==> device_rank(#[trigger] order[i]) <= device_rank(
                    #[trigger] order[j],
                )
        }),
{
    let nodes = jail_nodes(declared);
    let directories = device_directories(declared.len() > 0);
    let creations = node_creations(nodes);
    let root = seq![NodeStep::Own { path: "/"@, uid, gid }];
    let grants = node_grants(nodes, uid, gid);
    let order = device_order(declared, uid, gid);
    let node = |path: Seq<char>, number: u64|
        {
            ||| path == "/dev/kvm"@ && number == 2792
            ||| path == "/dev/net/tun"@ && number == 2760
            ||| declared.contains((path, number))
        };
    small_device_numbers(10, 232);
    small_device_numbers(10, 200);
    assert(nodes[0] == ("/dev/kvm"@, 2792u64));
    assert(nodes[1] == ("/dev/net/tun"@, 2760u64));
    assert forall|other: Seq<char>, value: u64| #[trigger] node(other, value) <==> nodes.contains(
        (other, value),
    ) by {
        if declared.contains((other, value)) {
            let i = choose|i: int| 0 <= i < declared.len() && declared[i] == (other, value);
            assert(nodes[i + 2] == (other, value));
        }
        if nodes.contains((other, value)) {
            let i = choose|i: int| 0 <= i < nodes.len() && nodes[i] == (other, value);
            if i >= 2 {
                assert(declared[i - 2] == (other, value));
            }
        }
    }
    let parts = |step: NodeStep|
        {
            ||| directories.contains(step)
            ||| creations.contains(step)
            ||| root.contains(step)
            ||| grants.contains(step)
        };
    assert forall|step: NodeStep| #[trigger] order.contains(step) <==> parts(step) by {
        lemma_contains_either(directories, creations, step);
        lemma_contains_either(directories + creations, root, step);
        lemma_contains_either(directories + creations + root, grants, step);
    }
    let make = NodeStep::CreateDirectory(path);
    assert(directories[0] == NodeStep::CreateDirectory("/dev/net"@));
    if declared.len() > 0 {
        assert(directories[1] == NodeStep::CreateDirectory("/dev/vfio"@));
    }
    assert(order.contains(make) <==> parts(make));
    let create = NodeStep::CreateNode { path, number, mode };
    assert(order.contains(create) <==> parts(create));
    assert(node(path, number) <==> nodes.contains((path, number)));
    if nodes.contains((path, number)) {
        let i = choose|i: int| 0 <= i < nodes.len() && nodes[i] == (path, number);
        assert(creations[i] == (NodeStep::CreateNode { path, number, mode: 0o600 }));
        assert(grants[i] == (NodeStep::Own { path, uid, gid }));
    }
    if creations.contains(create) {
        let i = choose|i: int| 0 <= i < creations.len() && creations[i] == create;
        assert(nodes[i] == (path, number));
    }
    let own = NodeStep::Own { path, uid: user, gid: group };
    assert(order.contains(own) <==> parts(own));
    if grants.contains(own) {
        let i = choose|i: int| 0 <= i < grants.len() && grants[i] == own;
        let value = nodes[i].1;
        assert(nodes[i] == (path, value));
        assert(nodes.contains((path, value)));
        assert(node(path, value));
    }
    let given = NodeStep::Own { path, uid, gid };
    assert(order.contains(given) <==> parts(given));
    assert(root[0] == (NodeStep::Own { path: "/"@, uid, gid }));
    let first = directories.len() as int;
    let second = first + creations.len();
    assert forall|i: int| 0 <= i < order.len() implies device_rank(#[trigger] order[i]) == if i
        < first {
        0int
    } else if i < second {
        1
    } else {
        2
    } by {}
}

/// A report on a path names the path.
pub proof fn reports_name_their_paths(error: JailError)
    ensures
        error matches JailError::SourceIsSymlink(own) ==> text::contains_text(error.text(), own@),
        error matches JailError::ArtifactIsSymlink(own) ==> text::contains_text(error.text(), own@),
        error matches JailError::DeviceIsSymlink(own) ==> text::contains_text(error.text(), own@),
        error matches JailError::NotCharacterDevice(own) ==> text::contains_text(
            error.text(),
            own@,
        ),
{
    let nothing = Seq::<char>::empty();
    match error {
        JailError::SourceIsSymlink(own) => {
            let before = "mount source must not be a symlink: "@;
            text::containing_means_standing_between(before, own@, nothing);
            assert(before + own@ + nothing =~= before + own@);
        },
        JailError::ArtifactIsSymlink(own) => {
            let before = "mounted artifact must not contain symlink: "@;
            text::containing_means_standing_between(before, own@, nothing);
            assert(before + own@ + nothing =~= before + own@);
        },
        JailError::DeviceIsSymlink(own) => {
            let before = "device source must not be a symlink: "@;
            text::containing_means_standing_between(before, own@, nothing);
            assert(before + own@ + nothing =~= before + own@);
        },
        JailError::NotCharacterDevice(own) => {
            let before = "device source is not a character device: "@;
            text::containing_means_standing_between(before, own@, nothing);
            assert(before + own@ + nothing =~= before + own@);
        },
        _ => {},
    }
}

} // verus!
