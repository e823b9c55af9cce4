//! Cgroup-v2 setup and controller delegation.

use vstd::prelude::*;
use vstd::string::*;

use crate::manifest::{Cgroup, Manifest};
use crate::path;
use crate::properties;
use crate::properties::PropertyMap;
use crate::steps;
use crate::text;

verus! {

/// Why a cgroup cannot be set up.
#[derive(Debug)]
pub enum CgroupError {
    /// The unified hierarchy is not mounted.
    Unavailable,
    /// A property that belongs to no controller.
    InvalidProperty(String),
    /// A controller that the kernel does not offer.
    ControllerUnavailable(String),
    /// A parent group outside the hierarchy.
    ParentEscapes,
}

impl CgroupError {
    /// The error as a report puts it.
    pub open spec fn text(&self) -> Seq<char> {
        match self {
            CgroupError::Unavailable => {
                "cgroup v2 unified hierarchy is unavailable at /sys/fs/cgroup"@
            },
            CgroupError::InvalidProperty(name) => "invalid cgroup v2 property "@ + name@,
            CgroupError::ControllerUnavailable(controller) => "cgroup v2 controller "@ + controller@
                + " is unavailable"@,
            CgroupError::ParentEscapes => "cgroup parent escapes cgroup root"@,
        }
    }

    /// The error as a report puts it.
    pub fn message(&self) -> (message: String)
        ensures
            message@ == self.text(),
    {
        proof {
            reveal_strlit("");
        }
        let message = match self {
            CgroupError::Unavailable => {
                "cgroup v2 unified hierarchy is unavailable at /sys/fs/cgroup".to_owned()
            },
            CgroupError::InvalidProperty(name) => {
                text::concatenate("invalid cgroup v2 property ", name.as_str(), "")
            },
            CgroupError::ControllerUnavailable(controller) => {
                text::concatenate("cgroup v2 controller ", controller.as_str(), " is unavailable")
            },
            CgroupError::ParentEscapes => "cgroup parent escapes cgroup root".to_owned(),
        };
        assert(message@ =~= self.text());
        message
    }
}

/// The controller that a property belongs to: the text before its first dot.
pub open spec fn controller(property: Seq<char>) -> Option<Seq<char>> {
    match property.index_of_first('.') {
        Some(dot) => Some(property.take(dot)),
        None => None,
    }
}

/// One of the first `count` properties belongs to the controller.
pub open spec fn requested(names: Seq<Seq<char>>, count: int, name: Seq<char>) -> bool {
    exists|i: int| 0 <= i < count && controller(#[trigger] names[i]) == Some(name)
}

/// The controller that a property belongs to.
fn controller_of(property: &str) -> (name: Option<String>)
    ensures
        match name {
            Some(name) => controller(property@) == Some(name@),
            None => controller(property@) is None,
        },
{
    let chars = text::char_vec(property);
    proof {
        property@.index_of_first_ensures('.');
    }
    let mut dot: usize = 0;
    while dot < chars.len() && chars[dot] != '.'
        invariant
            chars@ == property@,
            dot <= chars@.len(),
            forall|k: int| 0 <= k < dot ==> property@[k] != '.',
        decreases chars@.len() - dot,
    {
        dot += 1;
    }
    if dot == chars.len() {
        assert(!property@.contains('.'));
        return None;
    }
    assert(property@[dot as int] == '.');
    assert(property@.contains('.'));
    assert(property@.index_of_first('.') == Some(dot as int));
    assert(property@.subrange(0, dot as int) =~= property@.take(dot as int));
    Some(property.substring_char(0, dot).to_owned())
}

/// The error names the first of the properties that belongs to no controller.
pub open spec fn refuses_first_invalid(names: Seq<Seq<char>>, error: CgroupError) -> bool {
    exists|i: int|
        {
            &&& 0 <= i < names.len()
            &&& controller(#[trigger] names[i]) is None
            &&& error matches CgroupError::InvalidProperty(name) && name@ == names[i]
            &&& forall|j: int| 0 <= j < i ==> controller(#[trigger] names[j]) is Some
        }
}

/// The controllers that the properties belong to, each once, in ascending order; or the first
/// property that belongs to none.
pub fn requested_controllers(values: &PropertyMap) -> (result: Result<Vec<String>, CgroupError>)
    ensures
        match result {
            Ok(list) => {
                &&& properties::ascending(properties::texts(list@))
                &&& forall|name: Seq<char>| #[trigger]
                    properties::texts(list@).contains(name) <==> requested(
                        values.name_list(),
                        values.name_list().len() as int,
                        name,
                    )
                &&& forall|i: int|
                    0 <= i < values.name_list().len() ==> controller(
                        #[trigger] values.name_list()[i],
                    ) is Some
            },
            Err(error) => refuses_first_invalid(values.name_list(), error),
        },
{
    let ghost names = values.name_list();
    let count = values.len();
    let mut list: Vec<String> = Vec::new();
    let mut i: usize = 0;
    while i < count
        invariant
            names == values.name_list(),
            count == names.len(),
            i <= count,
            properties::ascending(properties::texts(list@)),
            forall|name: Seq<char>| #[trigger]
                properties::texts(list@).contains(name) <==> requested(names, i as int, name),
            forall|j: int| 0 <= j < i ==> controller(#[trigger] names[j]) is Some,
        decreases count - i,
    {
        let property = values.name(i);
        match controller_of(property) {
            Some(name) => {
                let ghost text = name@;
                let ghost before = properties::texts(list@);
                properties::insert_name(&mut list, name);
                assert forall|other: Seq<char>| #[trigger]
                    properties::texts(list@).contains(other) <==> requested(
                        names,
                        i + 1,
                        other,
                    ) by {
                    assert(before.contains(other) <==> requested(names, i as int, other));
                    if other == text {
                        assert(controller(names[i as int]) == Some(other));
                    }
                }
            },
            None => {
                return Err(CgroupError::InvalidProperty(property.to_owned()));
            },
        }
        i += 1;
    }
    Ok(list)
}

/// The text that a file is given.
#[derive(Debug)]
pub struct FileWrite {
    pub path: String,
    pub contents: String,
}

/// One step of setting up a cgroup.
#[derive(Debug)]
pub enum CgroupStep {
    /// Create the group at this path.
    Create(String),
    /// Enable this controller, from the root of the hierarchy down to the parent group.
    Delegate(String),
    /// Write the file of a property of the group.
    Write(FileWrite),
    /// Write the file that moves the process into the group.
    Join(FileWrite),
}

/// A step of setting up a cgroup, in terms of the texts that it names.
pub enum Step {
    Create(Seq<char>),
    Delegate(Seq<char>),
    Write { path: Seq<char>, contents: Seq<char> },
    Join { path: Seq<char>, contents: Seq<char> },
}

impl View for CgroupStep {
    type V = Step;

    open spec fn view(&self) -> Step {
        match self {
            CgroupStep::Create(path) => Step::Create(path@),
            CgroupStep::Delegate(controller) => Step::Delegate(controller@),
            CgroupStep::Write(write) => Step::Write {
                path: write.path@,
                contents: write.contents@,
            },
            CgroupStep::Join(write) => Step::Join { path: write.path@, contents: write.contents@ },
        }
    }
}

/// The steps, in terms of the texts that they name.
pub open spec fn step_list(steps: Seq<CgroupStep>) -> Seq<Step> {
    Seq::new(steps.len(), |i: int| steps[i]@)
}

/// What to do so that the process runs in its cgroup.
#[derive(Debug)]
pub struct CgroupPlan {
    /// The group below which the process gets one of its own.
    pub parent_path: String,
    /// The group of the process.
    pub path: String,
    /// The controllers to delegate.
    pub controllers: Vec<String>,
    /// What to do, in this order and up to the first failure.
    pub steps: Vec<CgroupStep>,
    /// What is refused behind the steps.
    pub refusal: Option<CgroupError>,
}

/// The directory of the parent group.
pub open spec fn parent_directory(cgroup: Cgroup) -> Seq<char> {
    path::joined(
        "/sys/fs/cgroup"@,
        match cgroup.parent {
            Some(parent) => parent.0@,
            None => "cloud-hypervisor"@,
        },
    )
}

/// The directory of the group that the process joins.
pub open spec fn leaf_directory(cgroup: Cgroup, machine_id: Seq<char>) -> Seq<char> {
    path::joined(parent_directory(cgroup), machine_id)
}

/// The steps that delegate the controllers.
pub open spec fn delegations(controllers: Seq<Seq<char>>) -> Seq<Step> {
    Seq::new(controllers.len(), |i: int| Step::Delegate(controllers[i]))
}

/// The steps that set the first `count` properties of the group at `leaf`.
pub open spec fn settings(cgroup: Cgroup, leaf: Seq<char>, count: nat) -> Seq<Step> {
    Seq::new(
        count,
        |i: int|
            Step::Write {
                path: path::joined(leaf, cgroup.values.name_list()[i]),
                contents: cgroup.values.value_list()[i] + "\n"@,
            },
    )
}

/// The step that moves the process into the group at `leaf`.
pub open spec fn joining(leaf: Seq<char>, pid: nat) -> Step {
    Step::Join {
        path: path::joined(leaf, "cgroup.procs"@),
        contents: text::decimal(pid) + "\n"@,
    }
}

/// The steps of setting up a cgroup: the group is created, each controller is delegated, then the
/// properties are set in order, and the process joins last.
pub open spec fn setup_order(
    cgroup: Cgroup,
    machine_id: Seq<char>,
    pid: nat,
    controllers: Seq<Seq<char>>,
) -> Seq<Step> {
    let leaf = leaf_directory(cgroup, machine_id);
    (seq![Step::Create(leaf)] + delegations(controllers) + settings(
        cgroup,
        leaf,
        cgroup.values.name_list().len(),
    )).push(joining(leaf, pid))
}

impl CgroupPlan {
    /// The plan creates the group of the machine, delegates to it the controllers of all its
    /// properties, sets the properties in order and then moves the process into it. A property
    /// that belongs to no controller is refused once the group is created.
    pub open spec fn sets_up(&self, cgroup: Cgroup, machine_id: Seq<char>, pid: nat) -> bool {
        let names = cgroup.values.name_list();
        &&& self.parent_path@ == parent_directory(cgroup)
        &&& self.path@ == leaf_directory(cgroup, machine_id)
        &&& if has_invalid_property(cgroup) {
            &&& self.controllers@.len() == 0
            &&& step_list(self.steps@) == seq![Step::Create(leaf_directory(cgroup, machine_id))]
            &&& self.refusal matches Some(error) && refuses_first_invalid(names, error)
        } else {
            &&& properties::ascending(properties::texts(self.controllers@))
            &&& forall|name: Seq<char>| #[trigger]
                properties::texts(self.controllers@).contains(name) <==> requested(
                    names,
                    names.len() as int,
                    name,
                )
            &&& step_list(self.steps@) == setup_order(
                cgroup,
                machine_id,
                pid,
                properties::texts(self.controllers@),
            )
            &&& self.refusal is None
        }
    }
}

/// Some property of the cgroup belongs to no controller.
pub open spec fn has_invalid_property(cgroup: Cgroup) -> bool {
    exists|i: int|
        0 <= i < cgroup.values.name_list().len() && controller(
            #[trigger] cgroup.values.name_list()[i],
        ) is None
}

/// The result plans what to do for a cgroup where anything is asked for and the unified hierarchy is
/// mounted.
pub open spec fn setup_answer(
    cgroup: Cgroup,
    machine_id: Seq<char>,
    unified: bool,
    pid: nat,
    result: Result<Option<CgroupPlan>, CgroupError>,
) -> bool {
    let wanted = cgroup.values@ != Map::<Seq<char>, Seq<char>>::empty() || cgroup.parent is Some;
    match result {
        Ok(None) => !wanted,
        Ok(Some(plan)) => wanted && unified && plan.sets_up(cgroup, machine_id, pid),
        Err(error) => wanted && !unified && error == CgroupError::Unavailable,
    }
}

/// A cgroup that names a parent or any property at all is set up, for just this machine and process,
/// unless the unified hierarchy is missing, which is an error then and only then.
pub proof fn every_cgroup_that_is_asked_for_is_set_up(
    cgroup: Cgroup,
    machine_id: Seq<char>,
    unified: bool,
    pid: nat,
    name: Seq<char>,
    result: Result<Option<CgroupPlan>, CgroupError>,
)
    requires
        setup_answer(cgroup, machine_id, unified, pid, result),
    ensures
        cgroup.values@.contains_key(name) || cgroup.parent is Some ==> {
            if unified {
                result matches Ok(Some(plan)) && plan.sets_up(cgroup, machine_id, pid)
            } else {
                result matches Err(error) && error is Unavailable
            }
        },
        (forall|key: Seq<char>| !(#[trigger] cgroup.values@.contains_key(key)))
            && cgroup.parent is None ==> result == Ok::<Option<CgroupPlan>, CgroupError>(None),
{
    if forall|key: Seq<char>| !(#[trigger] cgroup.values@.contains_key(key)) {
        assert(cgroup.values@ =~= Map::empty());
    }
}

/// What to do for the cgroup of a machine, where anything is asked for. `unified` says whether
/// the unified hierarchy is mounted, `pid` which process joins.
pub fn setup(cgroup: &Cgroup, machine_id: &str, unified: bool, pid: u32) -> (result: Result<
    Option<CgroupPlan>,
    CgroupError,
>)
    ensures
        setup_answer(*cgroup, machine_id@, unified, pid as nat, result),
{
    if cgroup.values.is_empty() && cgroup.parent.is_none() {
        return Ok(None);
    }
    if !unified {
        return Err(CgroupError::Unavailable);
    }
    let parent = match &cgroup.parent {
        Some(parent) => parent.0.as_str(),
        None => "cloud-hypervisor",
    };
    let parent_path = path::join("/sys/fs/cgroup", parent);
    let path = path::join(parent_path.as_str(), machine_id);
    let ghost leaf = leaf_directory(*cgroup, machine_id@);
    let ghost created = seq![Step::Create(leaf)];
    let mut steps: Vec<CgroupStep> = Vec::new();
    steps.push(CgroupStep::Create(path.clone()));
    assert(step_list(steps@) =~= created);
    let controllers = match requested_controllers(&cgroup.values) {
        Ok(controllers) => controllers,
        Err(error) => {
            let refusal = Some(error);
            let controllers: Vec<String> = Vec::new();
            return Ok(Some(CgroupPlan { parent_path, path, controllers, steps, refusal }));
        },
    };
    let ghost names = properties::texts(controllers@);
    assert(step_list(steps@) =~= created + delegations(names.take(0)));
    let number = controllers.len();
    let mut i: usize = 0;
    while i < number
        invariant
            number == controllers@.len(),
            names == properties::texts(controllers@),
            created == seq![Step::Create(leaf)],
            i <= number,
            step_list(steps@) == created + delegations(names.take(i as int)),
        decreases number - i,
    {
        let ghost before = steps@;
        steps.push(CgroupStep::Delegate(controllers[i].clone()));
        i += 1;
        assert(step_list(steps@) =~= step_list(before).push(Step::Delegate(names[i - 1])));
        assert(delegations(names.take(i as int)) =~= delegations(names.take(i - 1)).push(
            Step::Delegate(names[i - 1]),
        ));
        assert(step_list(steps@) =~= created + delegations(names.take(i as int)));
    }
    let ghost prepared = created + delegations(names);
    assert(names.take(number as int) =~= names);
    assert(step_list(steps@) =~= prepared + settings(*cgroup, leaf, 0));
    let values = &cgroup.values;
    let count = values.len();
    let mut i: usize = 0;
    while i < count
        invariant
            *values == cgroup.values,
            count == values.name_list().len(),
            path@ == leaf,
            i <= count,
            step_list(steps@) == prepared + settings(*cgroup, leaf, i as nat),
        decreases count - i,
    {
        let ghost before = steps@;
        steps.push(
            CgroupStep::Write(
                FileWrite {
                    path: path::join(path.as_str(), values.name(i)),
                    contents: text::with_newline(values.value(i)),
                },
            ),
        );
        i += 1;
        assert(step_list(steps@) =~= step_list(before).push(steps@.last()@));
        assert(step_list(steps@) =~= prepared + settings(*cgroup, leaf, i as nat));
    }
    let ghost before = steps@;
    steps.push(
        CgroupStep::Join(
            FileWrite {
                path: path::join(path.as_str(), "cgroup.procs"),
                contents: text::with_newline(text::decimal_text(pid as u64).as_str()),
            },
        ),
    );
    assert(step_list(steps@) =~= step_list(before).push(joining(leaf, pid as nat)));
    Ok(Some(CgroupPlan { parent_path, path, controllers, steps, refusal: None }))
}

/// In every run of the steps of a plan, finished or not: a file of the group is written only once
/// every controller that its properties request has been delegated, the files are those of the
/// properties in order and then the list of processes, and the process joins only once every
/// property is set. A run that is finished has done it all. Where a property belongs to no
/// controller the group is created, nothing is written, and no run is finished.
pub proof fn controllers_are_delegated_before_the_first_write(
    plan: &CgroupPlan,
    cgroup: Cgroup,
    machine_id: Seq<char>,
    pid: nat,
    outcomes: Seq<bool>,
    at: int,
)
    requires
        plan.sets_up(cgroup, machine_id, pid),
        steps::run(plan.steps@, plan.refusal, outcomes),
        0 <= at < outcomes.len(),
    ensures
        ({
            let names = cgroup.values.name_list();
            let leaf = leaf_directory(cgroup, machine_id);
            let first = plan.controllers@.len() + 1;
            let next = steps::turn(plan.steps@, plan.refusal, steps::reached(outcomes));
            &&& at < plan.steps@.len()
            &&& forall|i: int| 0 <= i < at ==> #[trigger] outcomes[i]
            &&& at == 0 ==> plan.steps@[at]@ == Step::Create(leaf)
            &&& if has_invalid_property(cgroup) {
                &&& plan.steps@.len() == 1
                &&& next is Refuse <==> outcomes[0]
                &&& next is Failed <==> !outcomes[0]
            } else {
                &&& plan.steps@.len() == first + names.len() + 1
                &&& plan.steps@[at] is Write <==> first <= at < first + names.len()
                &&& plan.steps@[at] is Join <==> at == first + names.len()
                &&& plan.steps@[at] is Write || plan.steps@[at] is Join ==> forall|name: Seq<char>|
                    requested(names, names.len() as int, name) ==> exists|i: int|
                        0 <= i < at && #[trigger] outcomes[i] && plan.steps@[i]@ == Step::Delegate(
                            name,
                        )
                &&& plan.steps@[at] is Write ==> plan.steps@[at]@ == settings(
                    cgroup,
                    leaf,
                    names.len(),
                )[at - first]
                &&& plan.steps@[at] is Join ==> plan.steps@[at]@ == joining(leaf, pid)
                &&& next is Finished <==> outcomes.len() == plan.steps@.len() && !outcomes.contains(
                    false,
                )
            }
        }),
{
    assert(plan.steps.len() == plan.steps@.len());
    steps::steps_stop_at_the_first_failure(plan.steps@, plan.refusal, outcomes);
    assert(step_list(plan.steps@).len() == plan.steps@.len());
    let names = cgroup.values.name_list();
    let controllers = properties::texts(plan.controllers@);
    let order = setup_order(cgroup, machine_id, pid, controllers);
    assert(step_list(plan.steps@)[at] == plan.steps@[at]@);
    if has_invalid_property(cgroup) {
        assert(at == 0 && outcomes.len() == 1);
        assert(outcomes.last() == outcomes[0]);
    } else if plan.steps@[at] is Write || plan.steps@[at] is Join {
        assert forall|name: Seq<char>| requested(names, names.len() as int, name) implies exists|
            i: int,
        |
            0 <= i < at && #[trigger] outcomes[i] && plan.steps@[i]@ == Step::Delegate(name) by {
            assert(controllers.contains(name));
            let k = choose|k: int| 0 <= k < controllers.len() && controllers[k] == name;
            assert(step_list(plan.steps@)[k + 1] == order[k + 1]);
            assert(outcomes[k + 1]);
        }
    }
    let all = Seq::new(plan.steps@.len(), |i: int| true);
    if outcomes.len() == plan.steps@.len() && !outcomes.contains(false) {
        assert(outcomes =~= all) by {
            assert forall|i: int| 0 <= i < outcomes.len() implies outcomes[i] by {
                assert(outcomes.contains(outcomes[i]));
            }
        }
    }
}

/// The directory that is reached from `root` by the first `count` of the components.
pub open spec fn directory_at(root: Seq<char>, rest: Seq<path::Segment>, count: int) -> Seq<char>
    decreases count,
{
    if count <= 0 {
        root
    } else {
        path::joined(directory_at(root, rest, count - 1), path::segment_text(rest[count - 1]))
    }
}

/// A directory in which to enable a controller.
#[derive(Debug)]
pub struct Level {
    pub directory: String,
    /// Whether it may have to be created first.
    pub create: bool,
}

/// The directories on the way from `root` down to `parent`, and which of them may have to be
/// created.
pub open spec fn delegation_levels(root: Seq<char>, parent: Seq<char>) -> Seq<(Seq<char>, bool)> {
    let rest = path::segments(parent).skip(path::segments(root).len() as int);
    Seq::new(rest.len() + 1, |i: int| (directory_at(root, rest, i), i > 0))
}

/// The directories of a list of levels, and which of them may have to be created.
pub open spec fn level_list(levels: Seq<Level>) -> Seq<(Seq<char>, bool)> {
    Seq::new(levels.len(), |i: int| (levels[i].directory@, levels[i].create))
}

/// The result lists the levels at which to enable a controller, or refuses one that is not available
/// or a parent outside the hierarchy.
pub open spec fn levels_answer(
    root: Seq<char>,
    parent: Seq<char>,
    controller: Seq<char>,
    available: Seq<char>,
    result: Result<Vec<Level>, CgroupError>,
) -> bool {
    match result {
        Ok(levels) => {
            &&& text::lists_word(available, controller)
            &&& path::segments(root).is_prefix_of(path::segments(parent))
            &&& level_list(levels@) == delegation_levels(root, parent)
        },
        Err(error) => if text::lists_word(available, controller) {
            &&& !path::segments(root).is_prefix_of(path::segments(parent))
            &&& error == CgroupError::ParentEscapes
        } else {
            error matches CgroupError::ControllerUnavailable(name) && name@ == controller
        },
    }
}

/// Every controller that is available is enabled at every level down to a parent inside the
/// hierarchy, and only such a controller; one that is missing is named.
pub proof fn available_controllers_are_enabled(
    root: Seq<char>,
    parent: Seq<char>,
    controller: Seq<char>,
    available: Seq<char>,
    result: Result<Vec<Level>, CgroupError>,
    at: int,
)
    requires
        levels_answer(root, parent, controller, available, result),
    ensures
        path::strictly_below(root, parent) ==> (result is Ok <==> text::lists_word(
            available,
            controller,
        )),
        !text::lists_word(available, controller) ==> (result
            matches Err(CgroupError::ControllerUnavailable(name)) && name@ == controller),
        path::strictly_below(root, parent) && 0 <= at ==> (result matches Ok(levels) ==> {
            &&& levels@.len() == path::segments(parent).len() - path::segments(root).len() + 1
            &&& at < levels@.len() ==> path::segments(levels@[at].directory@) == path::segments(
                parent,
            ).take(path::segments(root).len() + at)
            &&& at < levels@.len() ==> (levels@[at].create <==> at > 0)
        }),
{
    if path::strictly_below(root, parent) && 0 <= at {
        if let Ok(levels) = result {
            let list = delegation_levels(root, parent);
            assert(level_list(levels@).len() == levels@.len());
            no_level_is_left_out(root, parent, 0);
            if at < levels@.len() {
                no_level_is_left_out(root, parent, at);
                assert(level_list(levels@)[at] == list[at]);
            }
        }
    }
}

/// The directories in which to enable a controller so that it reaches the groups below `parent`:
/// the root of the hierarchy first, then each directory on the way down, which is created where
/// it is missing. `available` lists the controllers that the root offers.
pub fn enable_controller_path(
    root: &str,
    parent: &str,
    controller: &str,
    available: &str,
) -> (result: Result<Vec<Level>, CgroupError>)
    ensures
        levels_answer(root@, parent@, controller@, available@, result),
        result matches Ok(levels) ==> {
            let rest = path::segments(parent@).skip(path::segments(root@).len() as int);
            &&& levels@.len() == rest.len() + 1
            &&& forall|i: int|
                0 <= i <= rest.len() ==> {
                    &&& (#[trigger] levels@[i]).directory@ == directory_at(root@, rest, i)
                    &&& levels@[i].create == (i > 0)
                }
        },
{
    if !text::has_word(available, controller) {
        return Err(CgroupError::ControllerUnavailable(controller.to_owned()));
    }
    let rest = match path::strip_prefix(parent, root) {
        Some(rest) => rest,
        None => {
            return Err(CgroupError::ParentEscapes);
        },
    };
    let ghost below = path::segment_list(rest@);
    let mut levels: Vec<Level> = Vec::new();
    let mut current = root.to_owned();
    levels.push(Level { directory: current.clone(), create: false });
    let mut i: usize = 0;
    while i < rest.len()
        invariant
            below == path::segment_list(rest@),
            i <= rest@.len(),
            levels@.len() == i + 1,
            current@ == directory_at(root@, below, i as int),
            forall|k: int|
                0 <= k <= i ==> {
                    &&& (#[trigger] levels@[k]).directory@ == directory_at(root@, below, k)
                    &&& levels@[k].create == (k > 0)
                },
        decreases rest@.len() - i,
    {
        assert(below[i as int] == rest@[i as int]@);
        current = path::join(current.as_str(), path::component_text(&rest[i]).as_str());
        levels.push(Level { directory: current.clone(), create: true });
        i += 1;
    }
    assert(level_list(levels@) =~= delegation_levels(root@, parent@));
    Ok(levels)
}

/// What is written to the `cgroup.subtree_control` of a directory that has such a file exactly if
/// `present`, and lists these controllers in it.
pub open spec fn delegation(present: bool, active: Seq<char>, controller: Seq<char>) -> Option<
    Seq<char>,
> {
    if present && !text::lists_word(active, controller) {
        Some("+"@ + controller + "\n"@)
    } else {
        None
    }
}

/// A directory that has no such file, or that lists the controller already, is left alone; any other
/// is told to add the controller: a plus sign, its name and a line feed.
pub proof fn missing_controllers_are_added(present: bool, active: Seq<char>, controller: Seq<char>)
    ensures
        delegation(present, active, controller) is Some <==> present && !text::lists_word(
            active,
            controller,
        ),
        delegation(present, active, controller) matches Some(line) ==> {
            &&& line.len() == controller.len() + 2
            &&& line[0] == '+'
            &&& line.drop_first().drop_last() == controller
            &&& line.last() as int == 10
        },
{
    reveal_strlit("+");
    reveal_strlit("\n");
    if let Some(line) = delegation(present, active, controller) {
        assert(line.drop_first().drop_last() =~= controller);
    }
}

/// What to write to the `cgroup.subtree_control` of a directory so that it delegates a
/// controller. `active` lists the controllers that it delegates, where it has such a file.
pub fn enable_controller(active: Option<&str>, controller: &str) -> (write: Option<String>)
    ensures
        match write {
            Some(contents) => delegation(
                active is Some,
                if active is Some {
                    active->0@
                } else {
                    Seq::empty()
                },
                controller@,
            ) == Some(contents@),
            None => delegation(
                active is Some,
                if active is Some {
                    active->0@
                } else {
                    Seq::empty()
                },
                controller@,
            ) is None,
        },
        match write {
            Some(contents) => {
                &&& active is Some
                &&& !text::lists_word(active->0@, controller@)
                &&& contents@ == "+"@ + controller@ + "\n"@
            },
            None => active is None || text::lists_word(active->0@, controller@),
        },
{
    match active {
        Some(listed) => {
            if text::has_word(listed, controller) {
                None
            } else {
                Some(text::concatenate("+", controller, "\n"))
            }
        },
        None => None,
    }
}

/// One of the controllers whose properties a manifest may set.
pub open spec fn known_controller(name: Seq<char>) -> bool {
    ||| name == "cpu"@
    ||| name == "cpuset"@
    ||| name == "io"@
    ||| name == "memory"@
    ||| name == "pids"@
}

/// Every property that a manifest may set is a plain file name and belongs to a known controller.
pub proof fn allowed_property_has_controller(name: Seq<char>)
    requires
        crate::manifest::allowed_property(name),
    ensures
        controller(name) is Some,
        known_controller(controller(name)->0),
        path::segments(name) == seq![path::Segment::Normal(name)],
{
    reveal_strlit("cpu.max");
    reveal_strlit("cpu.weight");
    reveal_strlit("memory.max");
    reveal_strlit("memory.high");
    reveal_strlit("pids.max");
    reveal_strlit("io.max");
    reveal_strlit("cpuset.cpus");
    reveal_strlit("cpuset.mems");
    reveal_strlit("cpu");
    reveal_strlit("cpuset");
    reveal_strlit("io");
    reveal_strlit("memory");
    reveal_strlit("pids");
    name.index_of_first_ensures('.');
    let dot: int = if name == "io.max"@ {
        2
    } else if name == "cpu.max"@ || name == "cpu.weight"@ {
        3
    } else if name == "pids.max"@ {
        4
    } else {
        6
    };
    assert(name[dot] == '.');
    assert(name.contains('.'));
    assert(name.index_of_first('.') == Some(dot));
    let expected = if dot == 2 {
        "io"@
    } else if dot == 3 {
        "cpu"@
    } else if dot == 4 {
        "pids"@
    } else if name == "memory.max"@ || name == "memory.high"@ {
        "memory"@
    } else {
        "cpuset"@
    };
    assert(name.take(dot) =~= expected);
    assert(!name.contains('/'));
    path::plain_name_is_one_component(name);
}

impl Manifest {
    /// The properties of an accepted manifest all belong to known controllers, so only those are
    /// ever delegated.
    pub proof fn accepted_controllers_are_known(&self)
        requires
            self.acceptable(),
        ensures
            !has_invalid_property(self.cgroup),
            forall|name: Seq<char>| #[trigger]
                requested(
                    self.cgroup.values.name_list(),
                    self.cgroup.values.name_list().len() as int,
                    name,
                ) ==> known_controller(name),
    {
        let names = self.cgroup.values.name_list();
        assert forall|i: int| 0 <= i < names.len() implies controller(#[trigger] names[i]) is Some
            && known_controller(controller(names[i])->0) by {
            allowed_property_has_controller(names[i]);
        }
    }

    /// The group of an accepted manifest lies below its parent and the parent below the root of
    /// the hierarchy, and each property is a file directly in the group.
    pub proof fn accepted_cgroup_stays_in_the_hierarchy(&self)
        requires
            self.acceptable(),
        ensures
            path::strictly_below("/sys/fs/cgroup"@, parent_directory(self.cgroup)),
            path::strictly_below(
                parent_directory(self.cgroup),
                leaf_directory(self.cgroup, self.machine_id@),
            ),
            path::segments(leaf_directory(self.cgroup, self.machine_id@)) == path::segments(
                parent_directory(self.cgroup),
            ).push(path::Segment::Normal(self.machine_id@)),
            forall|i: int|
                0 <= i < self.cgroup.values.name_list().len() ==> path::segments(
                    path::joined(
                        leaf_directory(self.cgroup, self.machine_id@),
                        #[trigger] self.cgroup.values.name_list()[i],
                    ),
                ) == path::segments(leaf_directory(self.cgroup, self.machine_id@)).push(
                    path::Segment::Normal(self.cgroup.values.name_list()[i]),
                ),
    {
        let parent = parent_directory(self.cgroup);
        let leaf = leaf_directory(self.cgroup, self.machine_id@);
        if self.cgroup.parent is None {
            reveal_strlit("cloud-hypervisor");
            let name = "cloud-hypervisor"@;
            assert(!name.contains('/'));
            path::plain_name_is_one_component(name);
            assert(crate::manifest::safe_sandbox_path(name));
            crate::manifest::safe_path_stays_below("/sys/fs/cgroup"@, name);
        } else {
            crate::manifest::safe_path_stays_below(
                "/sys/fs/cgroup"@,
                (self.cgroup.parent->0).0@,
            );
        }
        crate::manifest::machine_id_is_one_name(self.machine_id@);
        crate::manifest::safe_path_stays_below(parent, self.machine_id@);
        assert(path::segments(leaf) =~= path::segments(parent).push(
            path::Segment::Normal(self.machine_id@),
        ));
        let names = self.cgroup.values.name_list();
        assert forall|i: int| 0 <= i < names.len() implies path::segments(
            path::joined(leaf, #[trigger] names[i]),
        ) == path::segments(leaf).push(path::Segment::Normal(names[i])) by {
            allowed_property_has_controller(names[i]);
            lemma_plain_name_is_relative(names[i]);
            path::join_appends_components(leaf, names[i]);
            assert(path::segments(path::joined(leaf, names[i])) =~= path::segments(leaf).push(
                path::Segment::Normal(names[i]),
            ));
        }
    }
}

/// A path with one component that is a name begins with neither a slash nor a single dot.
proof fn lemma_plain_name_is_relative(name: Seq<char>)
    requires
        path::segments(name) == seq![path::Segment::Normal(name)],
    ensures
        !path::absolute(name),
        !path::begins_with_dot(name),
{
    if path::absolute(name) || path::begins_with_dot(name) {
        assert(path::segments(name)[0] == path::leading_segment(name)[0]);
    }
}

/// A controller is enabled on the way from the root of the hierarchy to the parent of a group in
/// one directory after the other, and the last one is the parent.
pub proof fn delegation_reaches_the_parent(root: Seq<char>, parent: Seq<char>, count: int)
    requires
        path::strictly_below(root, parent),
        0 <= count <= path::segments(parent).len() - path::segments(root).len(),
    ensures
        path::segments(
            directory_at(
                root,
                path::segments(parent).skip(path::segments(root).len() as int),
                count,
            ),
        ) == path::segments(parent).take(path::segments(root).len() + count),
    decreases count,
{
    let first = path::segments(root).len() as int;
    let all = path::segments(parent);
    let rest = all.skip(first);
    if count == 0 {
        assert(all.take(first) =~= all.subrange(0, first));
    } else {
        delegation_reaches_the_parent(root, parent, count - 1);
        let at = first + count - 1;
        let before = directory_at(root, rest, count - 1);
        assert(all[at] is Normal);
        let name = all[at]->Normal_0;
        assert(rest[count - 1] == all[at]);
        path::name_is_its_own_path(parent, at, name);
        lemma_plain_name_is_relative(name);
        path::join_appends_components(before, name);
        assert(all.take(at) + path::segments(name) =~= all.take(at + 1));
    }
}

/// On the way from the root of the hierarchy down to a parent group no level is left out, however
/// deep the parent is: each has one component more than the one before, the first is the root
/// itself, the last has the components of the parent, and all but the root may be created.
#[verifier::spinoff_prover]
pub proof fn no_level_is_left_out(root: Seq<char>, parent: Seq<char>, at: int)
    requires
        path::strictly_below(root, parent),
        0 <= at < delegation_levels(root, parent).len(),
    ensures
        delegation_levels(root, parent).len() == path::segments(parent).len() - path::segments(
            root,
        ).len() + 1,
        delegation_levels(root, parent)[0].0 == root,
        path::segments(delegation_levels(root, parent)[at].0) == path::segments(parent).take(
            path::segments(root).len() + at,
        ),
        path::segments(delegation_levels(root, parent).last().0) == path::segments(parent),
        delegation_levels(root, parent)[at].1 <==> at != 0,
{
    let levels = delegation_levels(root, parent);
    let rest = path::segments(parent).skip(path::segments(root).len() as int);
    let last = levels.len() - 1;
    assert(rest.len() == path::segments(parent).len() - path::segments(root).len());
    assert(levels.len() == rest.len() + 1);
    assert(levels.last() == levels[last]);
    assert(levels[0].0 == directory_at(root, rest, 0));
    assert(levels[at] == (directory_at(root, rest, at), at > 0));
    assert(levels[last].0 == directory_at(root, rest, last));
    delegation_reaches_the_parent(root, parent, at);
    delegation_reaches_the_parent(root, parent, last);
    assert(path::segments(parent).take(path::segments(parent).len() as int) =~= path::segments(
        parent,
    ));
}

/// A property belongs to the controller whose name stands before its first dot, whatever stands
/// behind it; a property without a dot belongs to none.
pub proof fn controller_stands_before_the_first_dot(name: Seq<char>, rest: Seq<char>)
    requires
        forall|i: int| 0 <= i < name.len() ==> #[trigger] name[i] != '.',
    ensures
        controller(name.push('.') + rest) == Some(name),
        controller(name) is None,
{
    let property = name.push('.') + rest;
    let dot = name.len() as int;
    property.index_of_first_ensures('.');
    assert(property[dot] == '.');
    assert(property.contains('.'));
    assert(property.index_of_first('.') == Some(dot)) by {
        let first = property.index_of_first('.')->0;
        if first < dot {
            assert(property[first] == name[first]);
        }
    }
    assert(property.take(dot) =~= name);
    name.index_of_first_ensures('.');
    assert(!name.contains('.'));
}

/// The property begins with the controller's name and a dot, and that is its first dot.
pub open spec fn property_of(property: Seq<char>, name: Seq<char>) -> bool {
    &&& name.len() < property.len()
    &&& property.take(name.len() as int) == name
    &&& property[name.len() as int] == '.'
    &&& forall|i: int| 0 <= i < name.len() ==> #[trigger] name[i] != '.'
}

proof fn lemma_property_of(property: Seq<char>, name: Seq<char>)
    ensures
        controller(property) == Some(name) <==> property_of(property, name),
        controller(property) is None <==> forall|i: int|
            0 <= i < property.len() ==> #[trigger] property[i] != '.',
{
    property.index_of_first_ensures('.');
    if property_of(property, name) {
        let rest = property.skip(name.len() as int + 1);
        assert(property =~= name.push('.') + rest) by {
            assert forall|i: int| 0 <= i < name.len() implies property[i] == name[i] by {
                assert(property.take(name.len() as int)[i] == property[i]);
            }
        }
        controller_stands_before_the_first_dot(name, rest);
    }
    if controller(property) is Some {
        let dot = property.index_of_first('.')->0;
        let own = property.take(dot);
        assert(property[dot] == '.');
        assert forall|i: int| 0 <= i < own.len() implies #[trigger] own[i] != '.' by {
            assert(own[i] == property[i]);
        }
    } else {
        assert(!property.contains('.'));
    }
}

/// The place of a step among the others when a cgroup is set up.
pub open spec fn setup_rank(step: Step) -> int {
    match step {
        Step::Create(_) => 0,
        Step::Delegate(_) => 1,
        Step::Write { .. } => 2,
        Step::Join { .. } => 3,
    }
}

/// The group of a machine stands below its parent, and the parent below `/sys/fs/cgroup`; the parent
/// is `cloud-hypervisor` where none is named.
pub proof fn groups_stand_below_their_parents(cgroup: Cgroup, machine_id: Seq<char>)
    ensures
        cgroup.parent matches Some(parent) ==> leaf_directory(cgroup, machine_id) == path::joined(
            path::joined("/sys/fs/cgroup"@, parent.0@),
            machine_id,
        ),
        cgroup.parent is None ==> leaf_directory(cgroup, machine_id) == path::joined(
            "/sys/fs/cgroup/cloud-hypervisor"@,
            machine_id,
        ),
{
    reveal_strlit("/sys/fs/cgroup");
    reveal_strlit("cloud-hypervisor");
    reveal_strlit("/sys/fs/cgroup/cloud-hypervisor");
    path::joining_puts_one_slash_between("/sys/fs/cgroup"@, "cloud-hypervisor"@);
    assert("/sys/fs/cgroup/cloud-hypervisor"@ =~= "/sys/fs/cgroup"@.push('/')
        + "cloud-hypervisor"@);
}

/// The contents of a file are this line and a line feed.
pub open spec fn holds_line(contents: Seq<char>, line: Seq<char>) -> bool {
    &&& contents.len() == line.len() + 1
    &&& contents.drop_last() == line
    &&& contents.last() as int == 10
}

/// What is written for a cgroup whose properties all belong to controllers. Every property of the map
/// gets its whole value and a line feed, in the file of its name in the group; nothing else in the
/// group is written but the list of processes, which gets the number of the process and a line feed.
pub proof fn every_property_gets_its_value(
    plan: &CgroupPlan,
    cgroup: Cgroup,
    machine_id: Seq<char>,
    pid: nat,
    name: Seq<char>,
    at: int,
)
    requires
        plan.sets_up(cgroup, machine_id, pid),
        plan.refusal is None,
        cgroup.values.well_formed(),
        0 <= at < plan.steps@.len(),
    ensures
        cgroup.values@.contains_key(name) ==> exists|i: int|
            {
                &&& 0 <= i < plan.steps@.len()
                &&& (#[trigger] plan.steps@[i])@ matches Step::Write { path, contents }
                &&& path == path::joined(leaf_directory(cgroup, machine_id), name)
                &&& holds_line(contents, cgroup.values@[name])
            },
        plan.steps@[at]@ matches Step::Write { path, contents } ==> exists|key: Seq<char>|
            {
                &&& #[trigger] cgroup.values@.contains_key(key)
                &&& path == path::joined(leaf_directory(cgroup, machine_id), key)
                &&& holds_line(contents, cgroup.values@[key])
            },
        plan.steps@[at]@ is Join <==> at == plan.steps@.len() - 1,
        plan.steps@[at]@ matches Step::Join { path, contents } ==> {
            &&& path == path::joined(leaf_directory(cgroup, machine_id), "cgroup.procs"@)
            &&& holds_line(contents, text::decimal(pid))
        },
{
    let values = cgroup.values;
    let names = values.name_list();
    let leaf = leaf_directory(cgroup, machine_id);
    let controllers = properties::texts(plan.controllers@);
    let order = setup_order(cgroup, machine_id, pid, controllers);
    let first = controllers.len() as int + 1;
    let list = step_list(plan.steps@);
    lemma_not_refused(plan, cgroup, machine_id, pid);
    reveal_strlit("\n");
    assert(list.len() == plan.steps@.len());
    assert forall|i: int| 0 <= i < names.len() implies {
        &&& values@.contains_key(#[trigger] names[i])
        &&& values@[names[i]] == values.value_list()[i]
        &&& plan.steps@[first + i]@ == (Step::Write {
            path: path::joined(leaf, names[i]),
            contents: values.value_list()[i] + "\n"@,
        })
        &&& holds_line(values.value_list()[i] + "\n"@, values@[names[i]])
    } by {
        properties::value_stands_at_its_name(values, i);
        assert(list[first + i] == order[first + i]);
        assert((values.value_list()[i] + "\n"@).drop_last() =~= values.value_list()[i]);
    }
    if values@.contains_key(name) {
        let i = choose|i: int| 0 <= i < names.len() && names[i] == name;
        assert(names.contains(name));
        assert(plan.steps@[first + i]@ is Write);
    }
    assert(list[at] == order[at]);
    if plan.steps@[at]@ is Write {
        let i = at - first;
        assert(0 <= i < names.len());
        assert(values@.contains_key(names[i]));
    }
    assert((text::decimal(pid) + "\n"@).drop_last() =~= text::decimal(pid));
}

/// A plan that refuses nothing is for a cgroup whose properties all belong to controllers.
proof fn lemma_not_refused(
    plan: &CgroupPlan,
    cgroup: Cgroup,
    machine_id: Seq<char>,
    pid: nat,
)
    requires
        plan.sets_up(cgroup, machine_id, pid),
    ensures
        plan.refusal is None <==> !has_invalid_property(cgroup),
{
}

/// A group is created first of all. A controller is delegated exactly if some property of the map
/// begins with its name and a dot; this is done before any property is set, and the process joins
/// behind all of them. Where some property holds no dot, the first such one in the order of the
/// names is refused, and nothing but the creation of the group comes before that.
pub proof fn requested_controllers_are_delegated(
    plan: &CgroupPlan,
    cgroup: Cgroup,
    machine_id: Seq<char>,
    pid: nat,
    name: Seq<char>,
)
    requires
        plan.sets_up(cgroup, machine_id, pid),
        cgroup.values.well_formed(),
    ensures
        plan.steps@.len() > 0,
        plan.steps@[0]@ == Step::Create(leaf_directory(cgroup, machine_id)),
        forall|i: int, j: int|
            0 <= i < j < plan.steps@.len() ==> setup_rank((#[trigger] plan.steps@[i])@)
                <= setup_rank((#[trigger] plan.steps@[j])@),
        plan.refusal is Some <==> exists|key: Seq<char>| #[trigger]
            cgroup.values@.contains_key(key) && !key.contains('.'),
        plan.refusal matches Some(error) ==> {
            &&& plan.steps@.len() == 1
            &&& error matches CgroupError::InvalidProperty(key)
            &&& cgroup.values@.contains_key(key@) && !key@.contains('.')
            &&& forall|other: Seq<char>|
                cgroup.values@.contains_key(other) && #[trigger] text::text_before(other, key@)
                    ==> other.contains('.')
        },
        plan.refusal is None ==> ((exists|i: int|
            0 <= i < plan.steps@.len() && (#[trigger] plan.steps@[i])@ == Step::Delegate(name))
            <==> exists|key: Seq<char>| #[trigger]
            cgroup.values@.contains_key(key) && property_of(key, name)),
{
    let values = cgroup.values;
    let names = values.name_list();
    let controllers = properties::texts(plan.controllers@);
    let order = setup_order(cgroup, machine_id, pid, controllers);
    let list = step_list(plan.steps@);
    assert(list.len() == plan.steps@.len());
    assert forall|i: int| 0 <= i < list.len() implies (#[trigger] plan.steps@[i])@ == list[i] by {}
    lemma_not_refused(plan, cgroup, machine_id, pid);
    assert(list[0] == Step::Create(leaf_directory(cgroup, machine_id)));
    assert forall|key: Seq<char>| #[trigger] values@.contains_key(key) <==> names.contains(key) by {}
    assert forall|key: Seq<char>| #[trigger] key.contains('.') <==> controller(key) is Some by {
        lemma_property_of(key, key);
        if key.contains('.') {
            let i = choose|i: int| 0 <= i < key.len() && key[i] == '.';
            assert(key[i] == '.');
        }
        if controller(key) is Some {
            let i = choose|i: int| 0 <= i < key.len() && #[trigger] key[i] == '.';
            assert(key[i] == '.');
        }
    }
    if has_invalid_property(cgroup) {
        let i = choose|i: int|
            0 <= i < names.len() && controller(#[trigger] names[i]) is None;
        assert(names.contains(names[i]));
        assert(values@.contains_key(names[i]) && !names[i].contains('.'));
        let error = plan.refusal->0;
        let at = choose|at: int|
            {
                &&& 0 <= at < names.len()
                &&& controller(#[trigger] names[at]) is None
                &&& error matches CgroupError::InvalidProperty(own) && own@ == names[at]
                &&& forall|j: int| 0 <= j < at ==> controller(#[trigger] names[j]) is Some
            };
        assert(names.contains(names[at]));
        assert(!names[at].contains('.'));
        assert forall|other: Seq<char>|
            values@.contains_key(other) && #[trigger] text::text_before(
                other,
                names[at],
            ) implies other.contains('.') by {
            let k = choose|k: int| 0 <= k < names.len() && names[k] == other;
            if k >= at {
                if k > at {
                    assert(text::text_before(names[at], names[k]));
                }
                text::text_order_is_strict(other, names[at]);
            }
            assert(controller(names[k]) is Some);
        }
    } else {
        if exists|key: Seq<char>| #[trigger] values@.contains_key(key) && !key.contains('.') {
            let key = choose|key: Seq<char>| #[trigger]
                values@.contains_key(key) && !key.contains('.');
            let k = choose|k: int| 0 <= k < names.len() && names[k] == key;
            assert(controller(names[k]) is None);
        }
        if exists|i: int| 0 <= i < plan.steps@.len() && (#[trigger] plan.steps@[i])@
            == Step::Delegate(name) {
            let i = choose|i: int|
                0 <= i < plan.steps@.len() && (#[trigger] plan.steps@[i])@ == Step::Delegate(name);
            assert(list[i] == order[i]);
            assert(controllers[i - 1] == name);
            assert(controllers.contains(name));
            let k = choose|k: int|
                0 <= k < names.len() && controller(#[trigger] names[k]) == Some(name);
            lemma_property_of(names[k], name);
            assert(names.contains(names[k]));
            assert(values@.contains_key(names[k]) && property_of(names[k], name));
        }
        if exists|key: Seq<char>| #[trigger] values@.contains_key(key) && property_of(key, name) {
            let key = choose|key: Seq<char>| #[trigger]
                values@.contains_key(key) && property_of(key, name);
            let k = choose|k: int| 0 <= k < names.len() && names[k] == key;
            assert(names.contains(key));
            lemma_property_of(key, name);
            assert(controller(names[k]) == Some(name));
            assert(requested(names, names.len() as int, name));
            assert(controllers.contains(name));
            let i = choose|i: int| 0 <= i < controllers.len() && controllers[i] == name;
            assert(list[i + 1] == order[i + 1]);
            assert(plan.steps@[i + 1]@ == Step::Delegate(name));
        }
        let first = controllers.len() as int + 1;
        let last = first + names.len();
        assert forall|i: int| 0 <= i < list.len() implies setup_rank((#[trigger] plan.steps@[i])@)
            == if i < 1 {
            0int
        } else if i < first {
            1
        } else if i < last {
            2
        } else {
            3
        } by {
            assert(list[i] == order[i]);
        }
    }
}

/// A report on a property or a controller names it.
pub proof fn reports_name_what_is_missing(error: CgroupError)
    ensures
        error matches CgroupError::InvalidProperty(name) ==> text::contains_text(
            error.text(),
            name@,
        ),
        error matches CgroupError::ControllerUnavailable(name) ==> text::contains_text(
            error.text(),
            name@,
        ),
{
    let nothing = Seq::<char>::empty();
    match error {
        CgroupError::InvalidProperty(name) => {
            let before = "invalid cgroup v2 property "@;
            text::containing_means_standing_between(before, name@, nothing);
            assert(before + name@ + nothing =~= before + name@);
        },
        CgroupError::ControllerUnavailable(name) => {
            text::containing_means_standing_between(
                "cgroup v2 controller "@,
                name@,
                " is unavailable"@,
            );
        },
        _ => {},
    }
}

} // verus!
