use std::collections::{BTreeMap, BTreeSet};

use cloud_hypervisor_jailer::cgroup::{
    enable_controller, enable_controller_path, requested_controllers, setup, CgroupError,
    CgroupStep,
};
use cloud_hypervisor_jailer::manifest::{Cgroup, SandboxPath};
use cloud_hypervisor_jailer::properties::{insert_name, PropertyMap};
use cloud_hypervisor_jailer::steps::{next_turn, Progress, Turn};

fn property_map(entries: &[(&str, &str)]) -> PropertyMap {
    let mut map = PropertyMap::new();
    for (name, value) in entries {
        map.insert((*name).into(), (*value).into());
    }
    map
}

#[test]
fn derives_unique_controllers_from_properties() {
    let mut values = PropertyMap::new();
    values.insert("memory.max".into(), "1".into());
    values.insert("memory.high".into(), "1".into());
    values.insert("cpu.max".into(), "1".into());
    let controllers = requested_controllers(&values).unwrap();
    let set: BTreeSet<&str> = controllers.iter().map(|name| name.as_str()).collect();
    assert_eq!(set, BTreeSet::from(["cpu", "memory"]));
    assert_eq!(controllers, ["cpu", "memory"]);
}

#[test]
fn controllers_ascend_even_where_properties_do_not_order_them() {
    let values = property_map(&[("cpu.max", "1"), ("cpu-x.y", "1"), ("a.b.c", "1"), (".z", "1")]);
    assert_eq!(requested_controllers(&values).unwrap(), ["", "a", "cpu", "cpu-x"]);
}

#[test]
fn the_first_property_without_a_controller_is_reported() {
    let values = property_map(&[("zeta", "1"), ("cpu.max", "1"), ("eta", "1")]);
    let error = requested_controllers(&values).unwrap_err();
    assert_eq!(error.message(), "invalid cgroup v2 property eta");
}

#[test]
fn property_map_is_an_ordered_map() {
    let mut ours = PropertyMap::new();
    let mut theirs: BTreeMap<String, String> = BTreeMap::new();
    assert!(ours.is_empty());
    for (name, value) in [("b", "1"), ("a", "2"), ("c", "3"), ("b", "4"), ("", "5"), ("ab", "6")] {
        assert_eq!(
            ours.insert(name.into(), value.into()),
            theirs.insert(name.into(), value.into())
        );
    }
    assert_eq!(ours.len(), theirs.len());
    for (at, (name, value)) in theirs.iter().enumerate() {
        assert_eq!(ours.name(at), name);
        assert_eq!(ours.value(at), value);
    }
    assert!(!ours.is_empty());
}

#[test]
fn a_name_is_inserted_once() {
    let mut names: Vec<String> = vec!["a".into(), "c".into()];
    insert_name(&mut names, "b".into());
    insert_name(&mut names, "b".into());
    insert_name(&mut names, "d".into());
    assert_eq!(names, ["a", "b", "c", "d"]);
}

#[test]
fn nothing_is_set_up_where_nothing_is_asked_for() {
    assert!(setup(&Cgroup::default(), "machine-1", false, 7).unwrap().is_none());
}

#[test]
fn a_cgroup_is_set_up_below_its_parent() {
    let cgroup = Cgroup {
        parent: Some(SandboxPath("depot/ch".into())),
        values: property_map(&[("memory.max", "1073741824"), ("cpu.max", "max")]),
    };
    let error = setup(&cgroup, "machine-1", false, 7).unwrap_err();
    assert!(matches!(error, CgroupError::Unavailable));
    assert_eq!(
        error.message(),
        "cgroup v2 unified hierarchy is unavailable at /sys/fs/cgroup"
    );
    let plan = setup(&cgroup, "machine-1", true, 4711).unwrap().unwrap();
    assert_eq!(plan.parent_path, "/sys/fs/cgroup/depot/ch");
    assert_eq!(plan.path, "/sys/fs/cgroup/depot/ch/machine-1");
    assert_eq!(plan.controllers, ["cpu", "memory"]);
    let steps: Vec<(&str, &str, &str)> = plan
        .steps
        .iter()
        .map(|step| match step {
            CgroupStep::Create(path) => ("create", path.as_str(), ""),
            CgroupStep::Delegate(controller) => ("delegate", controller.as_str(), ""),
            CgroupStep::Write(file) => ("write", file.path.as_str(), file.contents.as_str()),
            CgroupStep::Join(file) => ("join", file.path.as_str(), file.contents.as_str()),
        })
        .collect();
    assert_eq!(
        steps,
        [
            ("create", "/sys/fs/cgroup/depot/ch/machine-1", ""),
            ("delegate", "cpu", ""),
            ("delegate", "memory", ""),
            ("write", "/sys/fs/cgroup/depot/ch/machine-1/cpu.max", "max\n"),
            ("write", "/sys/fs/cgroup/depot/ch/machine-1/memory.max", "1073741824\n"),
            ("join", "/sys/fs/cgroup/depot/ch/machine-1/cgroup.procs", "4711\n"),
        ]
    );
}

#[test]
fn nothing_is_written_after_a_failed_delegation() {
    let cgroup = Cgroup {
        parent: None,
        values: property_map(&[("pids.max", "10")]),
    };
    let plan = setup(&cgroup, "m", true, 1).unwrap().unwrap();
    assert!(matches!(
        next_turn(&plan.steps, &plan.refusal, Progress::Succeeded(1)),
        Turn::Perform(CgroupStep::Delegate(controller)) if controller == "pids"
    ));
    assert!(matches!(next_turn(&plan.steps, &plan.refusal, Progress::Failed), Turn::Failed));
    assert!(matches!(
        next_turn(&plan.steps, &plan.refusal, Progress::Succeeded(2)),
        Turn::Perform(CgroupStep::Write(file)) if file.contents == "10\n"
    ));
    assert!(matches!(next_turn(&plan.steps, &plan.refusal, Progress::Succeeded(4)), Turn::Finished));
}

#[test]
fn a_cgroup_without_a_parent_gets_the_usual_one() {
    let cgroup = Cgroup {
        parent: None,
        values: property_map(&[("pids.max", "10")]),
    };
    let plan = setup(&cgroup, "m", true, 1).unwrap().unwrap();
    assert_eq!(plan.parent_path, "/sys/fs/cgroup/cloud-hypervisor");
    assert_eq!(plan.path, "/sys/fs/cgroup/cloud-hypervisor/m");

    let cgroup = Cgroup {
        parent: Some(SandboxPath("p".into())),
        values: PropertyMap::new(),
    };
    let plan = setup(&cgroup, "m", true, 1).unwrap().unwrap();
    assert!(plan.controllers.is_empty());
    assert_eq!(plan.steps.len(), 2);

    let cgroup = Cgroup {
        parent: None,
        values: property_map(&[("plain", "10")]),
    };
    let plan = setup(&cgroup, "m", true, 1).unwrap().unwrap();
    assert_eq!(plan.steps.len(), 1);
    assert!(matches!(
        next_turn(&plan.steps, &plan.refusal, Progress::Succeeded(0)),
        Turn::Perform(CgroupStep::Create(path)) if path == "/sys/fs/cgroup/cloud-hypervisor/m"
    ));
    assert!(matches!(
        next_turn(&plan.steps, &plan.refusal, Progress::Succeeded(1)),
        Turn::Refuse(CgroupError::InvalidProperty(name)) if name == "plain"
    ));
}

#[test]
fn a_controller_is_delegated_from_the_root_down() {
    let root = "/sys/fs/cgroup";
    let parent = "/sys/fs/cgroup/depot//ch/./x";
    let levels = enable_controller_path(root, parent, "cpu", "cpuset cpu io\n").unwrap();
    let list: Vec<(&str, bool)> =
        levels.iter().map(|level| (level.directory.as_str(), level.create)).collect();
    assert_eq!(
        list,
        [
            ("/sys/fs/cgroup", false),
            ("/sys/fs/cgroup/depot", true),
            ("/sys/fs/cgroup/depot/ch", true),
            ("/sys/fs/cgroup/depot/ch/x", true),
        ]
    );
    let error = enable_controller_path(root, parent, "memory", "cpuset cpu io\n").unwrap_err();
    assert_eq!(error.message(), "cgroup v2 controller memory is unavailable");
    let error = enable_controller_path(root, "/elsewhere", "cpu", "cpu").unwrap_err();
    assert_eq!(error.message(), "cgroup parent escapes cgroup root");
}

#[test]
fn a_controller_is_enabled_where_it_is_not_active() {
    assert_eq!(enable_controller(None, "cpu"), None);
    assert_eq!(enable_controller(Some("cpu io\n"), "cpu"), None);
    assert_eq!(enable_controller(Some("cpuset io\n"), "cpu"), Some("+cpu\n".to_string()));
    assert_eq!(enable_controller(Some(""), "cpu"), Some("+cpu\n".to_string()));
}
