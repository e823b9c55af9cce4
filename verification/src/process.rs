//! Process lifecycle: limits, credentials, capabilities, descriptors and the command line.

use vstd::prelude::*;
use vstd::string::*;

use crate::manifest;
use crate::manifest::{Manifest, ResourceLimits};
use crate::properties;
use crate::text;
use crate::util::Errno;

verus! {

/// Why the process cannot be prepared or replaced.
#[derive(Debug, PartialEq, Eq, Structural)]
pub enum ProcessError {
    /// The launcher does not run as root.
    NotRoot,
    /// No process could be forked.
    ForkFailed,
    /// The kernel's last capability is not a number.
    CapabilityLimit,
    /// An argument holds a NUL.
    ArgumentHasNul,
}

impl ProcessError {
    /// The error as a report puts it.
    pub open spec fn text(&self) -> Seq<char> {
        match self {
            ProcessError::NotRoot => "cloud-hypervisor-jailer launch requires root"@,
            ProcessError::ForkFailed => "fork PID namespace child"@,
            ProcessError::CapabilityLimit => "parse kernel capability limit"@,
            ProcessError::ArgumentHasNul => "argument contains NUL"@,
        }
    }

    /// The error as a report puts it.
    pub fn message(&self) -> (message: &'static str)
        ensures
            message@ == self.text(),
    {
        match self {
            ProcessError::NotRoot => "cloud-hypervisor-jailer launch requires root",
            ProcessError::ForkFailed => "fork PID namespace child",
            ProcessError::CapabilityLimit => "parse kernel capability limit",
            ProcessError::ArgumentHasNul => "argument contains NUL",
        }
    }
}

/// What a process with this effective user is told.
pub open spec fn root_check(euid: u32) -> Result<(), ProcessError> {
    if euid == 0 {
        Ok(())
    } else {
        Err(ProcessError::NotRoot)
    }
}

/// Only a process whose effective user is root may launch.
pub fn require_root(euid: u32) -> (result: Result<(), ProcessError>)
    ensures
        result == root_check(euid),
{
    if euid != 0 {
        return Err(ProcessError::NotRoot);
    }
    Ok(())
}

/// Root may launch, and every other user is told that root is required.
pub proof fn nobody_but_root_may_launch(euid: u32)
    ensures
        root_check(euid) is Ok <==> euid < 1,
        root_check(euid) is Err ==> root_check(euid)->Err_0 is NotRoot,
{
}

/// A resource whose use is limited.
#[derive(Debug, Clone, Copy, PartialEq, Eq, Structural)]
pub enum Resource {
    /// The number of open files.
    OpenFiles,
    /// The size of a file that is written.
    FileSize,
}

/// A limit on a resource, soft and hard alike.
#[derive(Debug, Clone, Copy, PartialEq, Eq, Structural)]
pub struct Limit {
    pub resource: Resource,
    pub value: u64,
}

/// The limits to set, in order: always that on open files, and that on file sizes where one is
/// given.
pub open spec fn limit_list(limits: ResourceLimits) -> Seq<Limit> {
    let open_files = seq![Limit { resource: Resource::OpenFiles, value: limits.no_file }];
    match limits.file_size {
        Some(size) => open_files.push(Limit { resource: Resource::FileSize, value: size }),
        None => open_files,
    }
}

/// The limits to set, in order.
pub fn apply_limits(limits: &ResourceLimits) -> (list: Vec<Limit>)
    ensures
        list@ == limit_list(*limits),
{
    let mut list: Vec<Limit> = Vec::new();
    list.push(Limit { resource: Resource::OpenFiles, value: limits.no_file });
    if let Some(size) = limits.file_size {
        list.push(Limit { resource: Resource::FileSize, value: size });
    }
    assert(list@ =~= limit_list(*limits));
    list
}

/// The limit on open files is set in any case and to the number of the manifest; that on file sizes
/// exactly where the manifest names one, and to what it names; nothing else is limited, and nothing
/// twice.
pub proof fn limits_are_those_of_the_manifest(limits: ResourceLimits, limit: Limit)
    ensures
        limit.resource is OpenFiles ==> (limit_list(limits).contains(limit) <==> limit.value
            == limits.no_file),
        limit.resource is FileSize ==> (limit_list(limits).contains(limit) <==> limits.file_size
            == Some(limit.value)),
        forall|i: int, j: int|
            0 <= i < j < limit_list(limits).len() ==> (#[trigger] limit_list(limits)[i]).resource
                != (#[trigger] limit_list(limits)[j]).resource,
{
    let list = limit_list(limits);
    assert(list[0] == (Limit { resource: Resource::OpenFiles, value: limits.no_file }));
    if limits.file_size is Some {
        assert(list[1] == (Limit { resource: Resource::FileSize, value: limits.file_size->0 }));
    }
}

/// What becomes of the number that a fork returned.
pub open spec fn fork_result(pid: i32) -> Result<i32, ProcessError> {
    if pid < 0 {
        Err(ProcessError::ForkFailed)
    } else {
        Ok(pid)
    }
}

/// What a fork into the new PID namespace returned: the child's number in the parent, zero in the
/// child; a negative result is a failure.
pub fn enter_pid_namespace(pid: i32) -> (result: Result<i32, ProcessError>)
    ensures
        result == fork_result(pid),
{
    if pid < 0 {
        return Err(ProcessError::ForkFailed);
    }
    Ok(pid)
}

/// A fork has succeeded in the child, which sees zero, and in the parent, which sees any positive
/// number and keeps it; any negative number is a failure.
pub proof fn forks_keep_their_number(pid: i32)
    ensures
        pid >= 0 ==> fork_result(pid) == Ok::<i32, ProcessError>(pid),
        pid <= -1 ==> fork_result(pid) is Err && fork_result(pid)->Err_0 is ForkFailed,
{
}

/// The line that records a number.
pub open spec fn record_line(number: nat) -> Seq<char> {
    text::decimal(number) + "\n"@
}

/// The line that records the number of the child in the jail.
pub fn pid_record(pid: i32) -> (line: String)
    requires
        pid > 0,
    ensures
        line@ == record_line(pid as nat),
{
    text::with_newline(text::decimal_text(pid as u64).as_str())
}

/// Reading a line that records a number gives the number back. The line holds the digits of the
/// number and one line feed, and nothing else.
pub proof fn record_reads_back(value: u64)
    ensures
        text::number(text::trimmed(record_line(value as nat))) == Some(value),
        record_line(value as nat).last() as int == 10,
        record_line(value as nat).drop_last() == text::decimal(value as nat),
{
    let digits = text::decimal(value as nat);
    let line = record_line(value as nat);
    reveal_strlit("\n");
    text::decimal_reads_back(value);
    text::decimal_is_digits(value as nat);
    assert(text::digit(digits[0]) && text::digit(digits.last()));
    assert(line[0] == digits[0]);
    assert(text::trim_start(line) == line);
    assert(line.drop_last() =~= digits);
    assert(text::trim_end(digits) == digits);
}

/// How far the bounding set has been emptied.
#[derive(Debug, Clone, Copy, PartialEq, Eq, Structural)]
pub enum CapabilityProgress {
    Start,
    /// This capability has been dropped.
    Dropped(u64),
    /// The process can gain no new privileges any more.
    NoNewPrivsSet,
    /// The last step has failed.
    Failed,
}

/// What to do next while the bounding set is emptied.
#[derive(Debug, Clone, Copy, PartialEq, Eq, Structural)]
pub enum CapabilityStep {
    /// Drop a capability from the bounding set.
    Drop(u64),
    /// Let the process gain no new privileges.
    SetNoNewPrivs,
    /// All is done.
    Finished,
    /// Give up.
    Failed,
}

/// What comes next when `last` is the last capability: each capability from zero on is dropped,
/// then new privileges are ruled out. The first step that fails ends it.
pub open spec fn capability_step(last: u64, progress: CapabilityProgress) -> CapabilityStep {
    match progress {
        CapabilityProgress::Start => CapabilityStep::Drop(0),
        CapabilityProgress::Dropped(capability) => if capability < last {
            CapabilityStep::Drop((capability + 1) as u64)
        } else {
            CapabilityStep::SetNoNewPrivs
        },
        CapabilityProgress::NoNewPrivsSet => CapabilityStep::Finished,
        CapabilityProgress::Failed => CapabilityStep::Failed,
    }
}

/// What to do next when `last` is the last capability.
pub fn next_capability_step(last: u64, progress: CapabilityProgress) -> (step: CapabilityStep)
    ensures
        step == capability_step(last, progress),
{
    match progress {
        CapabilityProgress::Start => CapabilityStep::Drop(0),
        CapabilityProgress::Dropped(capability) => if capability < last {
            CapabilityStep::Drop(capability + 1)
        } else {
            CapabilityStep::SetNoNewPrivs
        },
        CapabilityProgress::NoNewPrivsSet => CapabilityStep::Finished,
        CapabilityProgress::Failed => CapabilityStep::Failed,
    }
}

/// The result is the next step for a kernel whose `cap_last_cap` file holds this text.
pub open spec fn capability_answer(
    cap_last_cap: Seq<char>,
    progress: CapabilityProgress,
    result: Result<CapabilityStep, ProcessError>,
) -> bool {
    match result {
        Ok(step) => {
            &&& text::number(text::trimmed(cap_last_cap)) matches Some(last)
            &&& step == capability_step(last, progress)
        },
        Err(error) => text::number(text::trimmed(cap_last_cap)) is None && error
            == ProcessError::CapabilityLimit,
    }
}

/// What to do next to empty the bounding set, given the text of the kernel's `cap_last_cap` file,
/// which names the last capability.
pub fn drop_capability_bounding_set(cap_last_cap: &str, progress: CapabilityProgress) -> (result:
    Result<CapabilityStep, ProcessError>)
    ensures
        capability_answer(cap_last_cap@, progress, result),
{
    match text::parse_number(text::trim(cap_last_cap)) {
        Some(last) => Ok(next_capability_step(last, progress)),
        None => Err(ProcessError::CapabilityLimit),
    }
}

/// The last capability is the number that the kernel names, whatever it is and whatever white space
/// stands around it; a text that is no number is an error, and then no step is taken at all.
pub proof fn the_kernel_names_the_last_capability(
    before: Seq<char>,
    last: u64,
    after: Seq<char>,
    progress: CapabilityProgress,
    result: Result<CapabilityStep, ProcessError>,
    other: Seq<char>,
    refused: Result<CapabilityStep, ProcessError>,
)
    requires
        forall|i: int| 0 <= i < before.len() ==> text::white_space(#[trigger] before[i]),
        forall|i: int| 0 <= i < after.len() ==> text::white_space(#[trigger] after[i]),
        capability_answer(before + text::decimal(last as nat) + after, progress, result),
        capability_answer(other, progress, refused),
        text::number(text::trimmed(other)) is None,
    ensures
        result == Ok::<CapabilityStep, ProcessError>(capability_step(last, progress)),
        refused matches Err(error) && error is CapabilityLimit,
{
    let digits = text::decimal(last as nat);
    text::decimal_is_digits(last as nat);
    text::decimal_reads_back(last);
    assert(text::digit(digits[0]) && text::digit(digits[digits.len() - 1]));
    text::trimming_keeps_what_stands_between(before, digits, after);
}

/// How far the bounding set has been emptied once a step has been performed.
pub open spec fn capability_progress(step: CapabilityStep, succeeded: bool) -> CapabilityProgress {
    match step {
        CapabilityStep::Drop(capability) if succeeded => CapabilityProgress::Dropped(capability),
        CapabilityStep::SetNoNewPrivs if succeeded => CapabilityProgress::NoNewPrivsSet,
        _ => CapabilityProgress::Failed,
    }
}

/// The step behind place `at` of a trace is what comes next after the one at `at`, which succeeded
/// or failed.
pub open spec fn capability_follows(last: u64, trace: Seq<CapabilityStep>, at: int) -> bool {
    &&& trace[at] is Drop || trace[at] is SetNoNewPrivs
    &&& exists|succeeded: bool|
        trace[at + 1] == capability_step(last, #[trigger] capability_progress(trace[at], succeeded))
}

/// The steps that are taken to empty the bounding set, whatever their outcomes: the first is what
/// comes at the start, and each other one what comes next after the one before.
pub open spec fn capability_trace(last: u64, trace: Seq<CapabilityStep>) -> bool {
    &&& trace.len() > 0
    &&& trace[0] == capability_step(last, CapabilityProgress::Start)
    &&& forall|i: int| 0 <= i < trace.len() - 1 ==> #[trigger] capability_follows(last, trace, i)
}

/// What stands at place `at` of a trace without failures: each capability in turn, then the end of
/// new privileges.
pub open spec fn capability_order(last: u64, at: int) -> CapabilityStep {
    if at <= last {
        CapabilityStep::Drop(at as u64)
    } else if at == last + 1 {
        CapabilityStep::SetNoNewPrivs
    } else {
        CapabilityStep::Finished
    }
}

proof fn lemma_capability_order(last: u64, trace: Seq<CapabilityStep>, at: int)
    requires
        capability_trace(last, trace),
        0 <= at < trace.len(),
    ensures
        trace[at] == capability_order(last, at) || at == trace.len() - 1 && trace[at]
            == CapabilityStep::Failed,
        at <= last + 2,
    decreases at,
{
    if at > 0 {
        lemma_capability_order(last, trace, at - 1);
        assert(capability_follows(last, trace, at - 1));
    }
    if at < trace.len() - 1 {
        assert(capability_follows(last, trace, at));
    }
}

/// Whatever the outcomes, the capabilities are dropped one after the other from zero on, new
/// privileges are ruled out only once every capability up to the last has been dropped, and the
/// end is reached only once that is done too. Nothing is done after a failure.
pub proof fn bounding_set_is_emptied_first(last: u64, trace: Seq<CapabilityStep>, at: int)
    requires
        capability_trace(last, trace),
        0 <= at < trace.len(),
    ensures
        trace[at] matches CapabilityStep::Drop(capability) ==> at == capability && capability
            <= last,
        trace[at] is SetNoNewPrivs || trace[at] is Finished ==> forall|capability: u64|
            capability <= last ==> capability < at && #[trigger] trace[capability as int]
                == CapabilityStep::Drop(capability),
        trace[at] is SetNoNewPrivs ==> at == last + 1,
        trace[at] is Finished ==> at == last + 2 && trace[last + 1]
            == CapabilityStep::SetNoNewPrivs,
        trace[at] is Finished || trace[at] is Failed ==> at == trace.len() - 1,
{
    lemma_capability_order(last, trace, at);
    if trace[at] is SetNoNewPrivs || trace[at] is Finished {
        assert forall|capability: u64| capability <= last implies capability < at
            && #[trigger] trace[capability as int] == CapabilityStep::Drop(capability) by {
            lemma_capability_order(last, trace, capability as int);
        }
        if at > last + 1 {
            lemma_capability_order(last, trace, last + 1);
        }
    }
    if at < trace.len() - 1 {
        assert(capability_follows(last, trace, at));
    }
}

/// A step that fails is followed by giving up, whatever the step was.
pub proof fn failed_capability_step_ends_it(last: u64, step: CapabilityStep)
    ensures
        capability_step(last, capability_progress(step, false)) == CapabilityStep::Failed,
{
}

/// A step that succeeds is never followed by giving up: nothing but a failure keeps the bounding set
/// from being emptied, and there is nothing to give up at the start.
pub proof fn only_failures_keep_capabilities(last: u64, step: CapabilityStep)
    requires
        step is Drop || step is SetNoNewPrivs,
    ensures
        capability_step(last, capability_progress(step, true)) !is Failed,
        capability_step(last, CapabilityProgress::Start) !is Failed,
        capability_trace(last, seq![capability_step(last, CapabilityProgress::Start)]),
{
}

/// A change of the credentials of the process.
#[derive(Debug, Clone, Copy, PartialEq, Eq, Structural)]
pub enum CredentialChange {
    ClearSupplementaryGroups,
    SetGroup(u32),
    SetUser(u32),
}

/// The changes that give up privileges, in order.
pub open spec fn credential_changes(uid: u32, gid: u32) -> Seq<CredentialChange> {
    seq![
        CredentialChange::ClearSupplementaryGroups,
        CredentialChange::SetGroup(gid),
        CredentialChange::SetUser(uid),
    ]
}

/// The changes that give up privileges, in order. The groups go first, since an unprivileged user
/// may no longer change them.
pub fn drop_privileges(uid: u32, gid: u32) -> (changes: Vec<CredentialChange>)
    ensures
        changes@ == credential_changes(uid, gid),
{
    let mut changes: Vec<CredentialChange> = Vec::new();
    changes.push(CredentialChange::ClearSupplementaryGroups);
    changes.push(CredentialChange::SetGroup(gid));
    changes.push(CredentialChange::SetUser(uid));
    assert(changes@ =~= credential_changes(uid, gid));
    changes
}

/// Whoever the user and the group are: the supplementary groups are cleared, the group becomes the
/// one that is asked for and no other, the user becomes the one that is asked for and no other, and
/// the user changes last, while the process may still change the groups.
pub proof fn every_credential_is_given_up(uid: u32, gid: u32, other: u32)
    ensures
        ({
            let changes = credential_changes(uid, gid);
            &&& changes.contains(CredentialChange::ClearSupplementaryGroups)
            &&& changes.contains(CredentialChange::SetGroup(other)) <==> other == gid
            &&& changes.contains(CredentialChange::SetUser(other)) <==> other == uid
            &&& forall|i: int|
                0 <= i < changes.len() && #[trigger] changes[i] is SetUser ==> i == changes.len()
                    - 1
            &&& forall|i: int, j: int|
                0 <= i < changes.len() && 0 <= j < changes.len() && #[trigger] changes[i]
                    is ClearSupplementaryGroups && #[trigger] changes[j] is SetGroup ==> i < j
        }),
{
    let changes = credential_changes(uid, gid);
    assert(changes[0] is ClearSupplementaryGroups);
    assert(changes[1] == CredentialChange::SetGroup(gid));
    assert(changes[2] == CredentialChange::SetUser(uid));
}

/// The descriptors from `first` up to, but not including, `end`.
#[derive(Debug, Clone, Copy, PartialEq, Eq, Structural)]
pub struct DescriptorRange {
    pub first: i32,
    pub end: i32,
}

/// The descriptors that are closed one by one where the kernel cannot close them all at once.
pub open spec fn inherited_descriptors() -> DescriptorRange {
    DescriptorRange { first: 3, end: 1_048_576 }
}

/// What a `close_range` call that returned `result` leaves to close, or the error that it ended
/// with.
pub open spec fn descriptors_left(result: i64, errno: Errno) -> Result<
    Option<DescriptorRange>,
    Errno,
> {
    if result == 0 {
        Ok(None)
    } else if errno == Errno::NotImplemented {
        Ok(Some(inherited_descriptors()))
    } else {
        Err(errno)
    }
}

/// What is left to close after a `close_range` call that returned `result`, or the error that it
/// ended with.
pub fn close_inherited_fds(result: i64, errno: Errno) -> (left: Result<
    Option<DescriptorRange>,
    Errno,
>)
    ensures
        left == descriptors_left(result, errno),
{
    if result == 0 {
        return Ok(None);
    }
    match errno {
        Errno::NotImplemented => Ok(Some(DescriptorRange { first: 3, end: 1_048_576 })),
        _ => Err(errno),
    }
}

/// Nothing is left where the kernel has closed the descriptors; where it does not know how, all but
/// the three standard streams are left, up to the greatest limit that a manifest may set; and any
/// other error is handed on.
pub proof fn standard_streams_stay_open(result: i64, errno: Errno, descriptor: int)
    ensures
        descriptors_left(result, errno) == Ok::<Option<DescriptorRange>, Errno>(None) <==> result
            == 0,
        result != 0 && errno != Errno::NotImplemented ==> descriptors_left(result, errno) == Err::<
            Option<DescriptorRange>,
            Errno,
        >(errno),
        result != 0 && errno == Errno::NotImplemented ==> {
            &&& descriptors_left(result, errno) matches Ok(Some(range))
            &&& range.first <= descriptor < range.end <==> 2 < descriptor < 1024 * 1024
        },
{
}

/// Closing one by one reaches every descriptor beyond standard input and output that a process
/// under an accepted limit on open files can have.
pub proof fn accepted_descriptors_are_all_closed(manifest: &Manifest, descriptor: int)
    requires
        manifest.acceptable(),
        3 <= descriptor < manifest.resource_limits.no_file,
    ensures
        inherited_descriptors().first <= descriptor < inherited_descriptors().end,
{
}

/// The command line: the program, the arguments of the manifest, and the switch that turns
/// seccomp on.
pub open spec fn command_line(arguments: Seq<Seq<char>>) -> Seq<Seq<char>> {
    seq!["/cloud-hypervisor"@] + arguments + seq!["--seccomp"@, "true"@]
}

/// The command line holds the program, every argument unchanged and in its order, however many
/// there are, and behind them the two texts that turn seccomp on.
pub proof fn every_argument_is_passed_on(arguments: Seq<Seq<char>>)
    ensures
        command_line(arguments).len() == arguments.len() + 3,
        command_line(arguments)[0] == "/cloud-hypervisor"@,
        forall|i: int|
            0 <= i < arguments.len() ==> command_line(arguments)[i + 1] == #[trigger] arguments[i],
        command_line(arguments)[arguments.len() as int + 1] == "--seccomp"@,
        command_line(arguments)[arguments.len() as int + 2] == "true"@,
{
}

/// A text can be an argument exactly if none of its characters is the one with the code zero.
pub proof fn arguments_hold_no_nul(argument: Seq<char>)
    ensures
        text::without_nul(argument) <==> forall|i: int|
            0 <= i < argument.len() ==> #[trigger] argument[i] as int != 0,
{
    if text::without_nul(argument) {
        assert forall|i: int| 0 <= i < argument.len() implies #[trigger] argument[i] as int
            != 0 by {
            assert(argument.contains(argument[i]));
        }
    } else {
        let i = choose|i: int| 0 <= i < argument.len() && argument[i] == '\0';
        assert(argument[i] as int == 0);
    }
}

/// The result is the command line for these arguments, or refuses one that holds a NUL.
pub open spec fn exec_answer(
    arguments: Seq<String>,
    result: Result<Vec<String>, ProcessError>,
) -> bool {
    match result {
        Ok(line) => {
            &&& properties::texts(line@) == command_line(properties::texts(arguments))
            &&& forall|i: int|
                0 <= i < arguments.len() ==> text::without_nul(#[trigger] arguments[i]@)
        },
        Err(error) => {
            &&& error == ProcessError::ArgumentHasNul
            &&& exists|i: int|
                0 <= i < arguments.len() && !text::without_nul(#[trigger] arguments[i]@)
        },
    }
}

/// Any list of arguments without a NUL in it is run, with every argument unchanged at its place
/// behind the program; a NUL anywhere is an error.
pub proof fn arguments_without_nul_are_run(
    arguments: Seq<String>,
    result: Result<Vec<String>, ProcessError>,
)
    requires
        exec_answer(arguments, result),
    ensures
        result is Ok <==> forall|i: int, k: int|
            0 <= i < arguments.len() && 0 <= k < arguments[i]@.len() ==> #[trigger] arguments[i]@[k]
                as int != 0,
        result matches Err(error) ==> error is ArgumentHasNul,
        result matches Ok(line) ==> {
            &&& line@.len() == arguments.len() + 3
            &&& line@[0]@ == "/cloud-hypervisor"@
            &&& forall|i: int|
                0 <= i < arguments.len() ==> line@[i + 1]@ == (#[trigger] arguments[i])@
            &&& line@[arguments.len() as int + 1]@ == "--seccomp"@
            &&& line@[arguments.len() as int + 2]@ == "true"@
        },
{
    let given = properties::texts(arguments);
    assert forall|i: int| 0 <= i < arguments.len() implies (text::without_nul(
        #[trigger] arguments[i]@,
    ) <==> forall|k: int|
        0 <= k < arguments[i]@.len() ==> #[trigger] arguments[i]@[k] as int != 0) by {
        arguments_hold_no_nul(arguments[i]@);
    }
    if let Ok(line) = result {
        every_argument_is_passed_on(given);
        let texts = properties::texts(line@);
        assert(texts.len() == line@.len());
        assert(texts[0] == line@[0]@);
        assert forall|i: int| 0 <= i < arguments.len() implies line@[i + 1]@ == (
        #[trigger] arguments[i])@ by {
            assert(texts[i + 1] == line@[i + 1]@);
            assert(given[i] == arguments[i]@);
        }
        assert(texts[arguments.len() as int + 1] == line@[arguments.len() as int + 1]@);
        assert(texts[arguments.len() as int + 2] == line@[arguments.len() as int + 2]@);
    } else {
        let i = choose|i: int|
            0 <= i < arguments.len() && !text::without_nul(#[trigger] arguments[i]@);
        let k = choose|k: int|
            0 <= k < arguments[i]@.len() && !(#[trigger] arguments[i]@[k] as int != 0);
        assert(arguments[i]@[k] as int == 0);
    }
}

/// The command line to run Cloud Hypervisor with.
pub fn exec_cloud_hypervisor(arguments: &Vec<String>) -> (result: Result<Vec<String>, ProcessError>)
    ensures
        exec_answer(arguments@, result),
        result matches Ok(line) ==> {
            &&& line@.len() == arguments@.len() + 3
            &&& forall|i: int|
                0 <= i < arguments@.len() ==> line@[i + 1]@ == (#[trigger] arguments@[i])@
        },
{
    let ghost given = properties::texts(arguments@);
    let ghost start = seq!["/cloud-hypervisor"@];
    let mut line: Vec<String> = Vec::new();
    line.push("/cloud-hypervisor".to_owned());
    assert(properties::texts(line@) =~= start + given.take(0));
    let mut i: usize = 0;
    while i < arguments.len()
        invariant
            i <= arguments@.len(),
            given == properties::texts(arguments@),
            properties::texts(line@) == start + given.take(i as int),
            forall|k: int| 0 <= k < i ==> text::without_nul(#[trigger] arguments@[k]@),
        decreases arguments@.len() - i,
    {
        let ghost before = line@;
        if !text::has_no_nul(arguments[i].as_str()) {
            assert(!text::without_nul(arguments@[i as int]@));
            return Err(ProcessError::ArgumentHasNul);
        }
        line.push(arguments[i].clone());
        assert(given[i as int] == arguments@[i as int]@);
        assert(properties::texts(line@) =~= properties::texts(before).push(given[i as int]));
        assert(start + given.take(i + 1) =~= (start + given.take(i as int)).push(
            given[i as int],
        ));
        i += 1;
    }
    line.push("--seccomp".to_owned());
    line.push("true".to_owned());
    assert(given.take(given.len() as int) =~= given);
    assert(properties::texts(line@) =~= command_line(given));
    proof {
        every_argument_is_passed_on(given);
        assert(properties::texts(line@).len() == line@.len());
        assert forall|i: int| 0 <= i < arguments@.len() implies line@[i + 1]@ == (
        #[trigger] arguments@[i])@ by {
            assert(properties::texts(line@)[i + 1] == line@[i + 1]@);
            assert(given[i] == arguments@[i]@);
        }
    }
    Ok(line)
}

/// The command line of an accepted manifest sets seccomp exactly once, last of all, and to `true`.
pub proof fn seccomp_is_forced_on(manifest: &Manifest)
    requires
        manifest.acceptable(),
    ensures
        ({
            let line = command_line(properties::texts(manifest.arguments@));
            &&& line.len() >= 3
            &&& line[line.len() - 2] == "--seccomp"@
            &&& line[line.len() - 1] == "true"@
            &&& forall|i: int|
                0 <= i < line.len() && manifest::seccomp_argument(#[trigger] line[i]) ==> i
                    == line.len() - 2
        }),
{
    let given = properties::texts(manifest.arguments@);
    let line = command_line(given);
    reveal_strlit("/cloud-hypervisor");
    reveal_strlit("--seccomp");
    reveal_strlit("--seccomp=");
    reveal_strlit("true");
    assert forall|i: int| 0 <= i < line.len() && manifest::seccomp_argument(#[trigger] line[i])
        implies i == line.len() - 2 by {
        let argument = line[i];
        if i == 0 || i == line.len() - 1 {
            if text::begins_with(argument, "--seccomp="@) {
                assert(argument.take(10)[0] == argument[0]);
            }
            assert(argument[0] != '-');
            assert("--seccomp"@[0] == '-');
        } else if i < line.len() - 2 {
            assert(argument == manifest.arguments@[i - 1]@);
        }
    }
}

} // verus!
