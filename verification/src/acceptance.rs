//! What makes the difference between a manifest that is accepted and one that is refused, stated
//! character by character and field by field.

use vstd::prelude::*;
use vstd::string::*;

use crate::manifest;
use crate::manifest::{Device, Manifest, Mount, Violation};
use crate::path;
use crate::text;

verus! {

/// The text begins with a slash, and nowhere in it do two dots stand by themselves.
pub open spec fn host_path(path: Seq<char>) -> bool {
    &&& path.len() > 0
    &&& path[0] == '/'
    &&& forall|at: int| !path::leads_upwards_at(path, at)
}

/// The text is not empty and begins with neither a slash nor a single dot, and nowhere in it do two
/// dots stand by themselves.
pub open spec fn inner_path(path: Seq<char>) -> bool {
    &&& path.len() > 0
    &&& path[0] != '/'
    &&& !(path[0] == '.' && (path.len() == 1 || path[1] == '/'))
    &&& forall|at: int| !path::leads_upwards_at(path, at)
}

/// Of absolute texts, exactly those are clean host paths in which no two dots stand by themselves.
pub proof fn clean_host_paths_never_lead_upwards(path: Seq<char>)
    ensures
        manifest::clean_host_path(path) <==> host_path(path),
{
    path::only_two_dots_lead_upwards(path);
    let all = path::segments(path);
    if manifest::clean_host_path(path) {
        assert forall|at: int| !path::leads_upwards_at(path, at) by {
            if path::leads_upwards_at(path, at) {
                let i = choose|i: int|
                    0 <= i < all.len() && #[trigger] all[i] == path::Segment::ParentDir;
                assert(all[i] != path::Segment::ParentDir);
            }
        }
    }
    if host_path(path) {
        assert forall|i: int| 0 <= i < all.len() implies #[trigger] all[i]
            != path::Segment::CurDir && all[i] != path::Segment::ParentDir by {
            if all[i] == path::Segment::ParentDir {
                let at = choose|at: int| path::leads_upwards_at(path, at);
                assert(path::leads_upwards_at(path, at));
            }
        }
    }
}

/// A text is safe in the jail exactly if it is relative, begins with no single dot, and leads
/// nowhere upwards.
pub proof fn safe_sandbox_paths_never_lead_upwards(path: Seq<char>)
    ensures
        manifest::safe_sandbox_path(path) <==> inner_path(path),
{
    path::only_two_dots_lead_upwards(path);
    let all = path::segments(path);
    if manifest::safe_sandbox_path(path) {
        assert forall|at: int| !path::leads_upwards_at(path, at) by {
            if path::leads_upwards_at(path, at) {
                let i = choose|i: int|
                    0 <= i < all.len() && #[trigger] all[i] == path::Segment::ParentDir;
                assert(all[i] is Normal);
            }
        }
        if path[0] == '.' && (path.len() == 1 || path[1] == '/') {
            assert(all[0] is Normal);
        }
    }
    if inner_path(path) {
        assert forall|i: int| 0 <= i < all.len() implies #[trigger] all[i] is Normal by {
            if all[i] == path::Segment::ParentDir {
                let at = choose|at: int| path::leads_upwards_at(path, at);
                assert(path::leads_upwards_at(path, at));
            }
        }
    }
}

/// The names of VFIO groups are exactly the decimal texts of the natural numbers, however great.
pub proof fn group_names_are_decimal_numbers(name: Seq<char>)
    ensures
        manifest::group_number(name) <==> exists|number: nat| name == #[trigger] text::decimal(
            number,
        ),
{
    if manifest::group_number(name) {
        assert forall|i: int| 0 <= i < name.len() implies 48 <= #[trigger] name[i] as int
            <= 57 by {
            assert(text::digit(name[i]));
        }
        text::digits_are_a_decimal_text(name);
    }
    if exists|number: nat| name == #[trigger] text::decimal(number) {
        let number = choose|number: nat| name == #[trigger] text::decimal(number);
        text::decimal_is_digits(number);
        if number > 0 {
            text::decimal_grows_by_one_digit(number, 0);
        } else {
            assert(text::decimal(0).len() == 1);
        }
    }
}

/// The device of every VFIO group is admitted, whatever the number of the group, and so is the
/// control device.
pub proof fn every_vfio_group_is_admitted(number: nat)
    ensures
        manifest::vfio_source("/dev/vfio/"@ + text::decimal(number)),
        manifest::vfio_group("/dev/vfio/"@ + text::decimal(number)),
        !manifest::vfio_control("/dev/vfio/"@ + text::decimal(number)),
        manifest::vfio_source("/dev/vfio/vfio"@),
        manifest::vfio_control("/dev/vfio/vfio"@),
{
    let name = text::decimal(number);
    group_names_are_decimal_numbers(name);
    manifest::vfio_paths_are_allowed(name);
    let source = "/dev/vfio/"@ + name;
    let other = choose|other: Seq<char>| #[trigger]
        manifest::group_number(other) && path::segments(source) == manifest::vfio_directory().push(
            path::Segment::Normal(other),
        );
    assert(manifest::vfio_directory().push(path::Segment::Normal(other)).last()
        == path::Segment::Normal(other));
    assert(manifest::vfio_directory().push(path::Segment::Normal("vfio"@)).last()
        == path::Segment::Normal("vfio"@));
    reveal_strlit("vfio");
    assert(text::digit(other[0]));
}

/// The path has the components of the control device.
pub open spec fn control_device(path: Seq<char>) -> bool {
    path::segments(path) == path::segments("/dev/vfio/vfio"@)
}

/// The path has the components of the device of some VFIO group.
pub open spec fn group_device(path: Seq<char>) -> bool {
    exists|number: nat|
        path::segments(path) == path::segments("/dev/vfio/"@ + #[trigger] text::decimal(number))
}

/// Nothing is admitted as a device but the control device and the devices of groups.
pub proof fn only_vfio_devices_are_admitted(path: Seq<char>)
    ensures
        manifest::vfio_source(path) <==> control_device(path) || group_device(path),
        manifest::vfio_control(path) <==> control_device(path),
{
    every_vfio_group_is_admitted(0);
    let all = path::segments(path);
    if manifest::vfio_group(path) {
        let name = choose|name: Seq<char>| #[trigger]
            manifest::group_number(name) && all == manifest::vfio_directory().push(
                path::Segment::Normal(name),
            );
        group_names_are_decimal_numbers(name);
        let number = choose|number: nat| name == #[trigger] text::decimal(number);
        lemma_group_components(number);
        assert(all == path::segments("/dev/vfio/"@ + text::decimal(number)));
    }
    if group_device(path) {
        let number = choose|number: nat|
            all == path::segments("/dev/vfio/"@ + #[trigger] text::decimal(number));
        lemma_group_components(number);
        assert(manifest::group_number(text::decimal(number)));
        assert(manifest::vfio_group(path));
    }
    if control_device(path) || group_device(path) {
        path::only_two_dots_lead_upwards(path);
        assert(all.len() == 4);
        assert(all[0] == path::Segment::RootDir);
        assert(all[1] is Normal && all[2] is Normal && all[3] is Normal);
        assert(path::absolute(path));
    }
}

/// The components of the device of a group.
proof fn lemma_group_components(number: nat)
    ensures
        manifest::group_number(text::decimal(number)),
        path::segments("/dev/vfio/"@ + text::decimal(number)) == manifest::vfio_directory().push(
            path::Segment::Normal(text::decimal(number)),
        ),
{
    let name = text::decimal(number);
    let source = "/dev/vfio/"@ + name;
    group_names_are_decimal_numbers(name);
    manifest::vfio_paths_are_allowed(name);
    let other = choose|other: Seq<char>| #[trigger]
        manifest::group_number(other) && path::segments(source) == manifest::vfio_directory().push(
            path::Segment::Normal(other),
        );
    assert(manifest::vfio_directory().push(path::Segment::Normal(other)).last()
        == path::Segment::Normal(other));
    reveal_strlit("/dev/vfio/");
    let base = "/dev/vfio"@;
    reveal_strlit("/dev/vfio");
    assert forall|i: int| 0 <= i < name.len() implies #[trigger] name[i] != '/' by {
        assert(text::digit(name[i]));
    }
    assert(text::digit(name[0]));
    assert(path::plain_name(name));
    assert(source =~= base.push('/') + name);
    path::final_name_stands_behind_the_last_slash(base, name);
    assert(path::segments(source).last() == path::Segment::Normal(name));
}

/// The text is `dev`, or `dev` and a slash stand at its beginning.
pub open spec fn in_device_tree(path: Seq<char>) -> bool {
    &&& path.len() >= 3
    &&& path[0] == 'd' && path[1] == 'e' && path[2] == 'v'
    &&& path.len() == 3 || path[3] == '/'
}

/// A safe destination is reserved exactly if it is `dev` or begins with `dev/`.
pub proof fn reserved_destinations_begin_with_dev(path: Seq<char>)
    requires
        inner_path(path),
    ensures
        manifest::reserved_destination(path) <==> in_device_tree(path),
{
    reveal_strlit("dev");
    let dev = "dev"@;
    assert(dev =~= seq!['d', 'e', 'v']);
    assert(path::plain_name(dev)) by {
        assert(dev.len() != seq!['.'].len() && dev.len() != seq!['.', '.'].len());
    }
    path::lone_components(dev);
    lemma_first_component(path);
    lemma_first_slash(path, 0);
    let end = first_slash(path, 0);
    let first = path.take(end);
    if in_device_tree(path) {
        assert(end == 3) by {
            reveal_with_fuel(first_slash, 5);
        }
        assert(first =~= dev);
    }
    if manifest::reserved_destination(path) {
        assert(first == dev);
        assert(path[0] == first[0] && path[1] == first[1] && path[2] == first[2]);
    }
}

/// Where the first slash from `from` on stands, or the end of the text.
spec fn first_slash(path: Seq<char>, from: int) -> int
    decreases path.len() - from,
{
    if from < path.len() && path[from] != '/' {
        first_slash(path, from + 1)
    } else {
        from
    }
}

proof fn lemma_first_slash(path: Seq<char>, from: int)
    requires
        0 <= from <= path.len(),
    ensures
        from <= first_slash(path, from) <= path.len(),
        forall|k: int| from <= k < first_slash(path, from) ==> path[k] != '/',
        first_slash(path, from) < path.len() ==> path[first_slash(path, from)] == '/',
    decreases path.len() - from,
{
    if from < path.len() && path[from] != '/' {
        lemma_first_slash(path, from + 1);
    }
}

/// The first component of a safe path is the name before its first slash.
proof fn lemma_first_component(path: Seq<char>)
    requires
        inner_path(path),
    ensures
        path::segments(path).len() > 0,
        path::segments(path)[0] == path::Segment::Normal(path.take(first_slash(path, 0))),
    decreases path.len(),
{
    lemma_first_slash(path, 0);
    let end = first_slash(path, 0);
    let first = path.take(end);
    assert(path::plain_name(first)) by {
        assert forall|i: int| 0 <= i < first.len() implies #[trigger] first[i] != '/' by {
            assert(first[i] == path[i]);
        }
        assert(end > 0);
        if first == seq!['.'] {
            assert(first[0] == path[0]);
        }
        if first == seq!['.', '.'] {
            assert(first[0] == path[0] && first[1] == path[1]);
            assert(path::leads_upwards_at(path, 0));
        }
    }
    path::lone_components(first);
    if end == path.len() {
        assert(first =~= path);
    } else {
        lemma_what_follows_a_slash(first, path.skip(end + 1));
        assert(path =~= first.push('/') + path.skip(end + 1));
        let all = path::segments(path);
        assert(all.subrange(0, 1)[0] == all[0]);
        assert(path::segments(first)[0] == path::Segment::Normal(first));
    }
}

/// What stands behind a slash only adds components.
proof fn lemma_what_follows_a_slash(base: Seq<char>, rest: Seq<char>)
    requires
        base.len() > 0,
    ensures
        path::segments(base).is_prefix_of(path::segments(base.push('/') + rest)),
    decreases rest.len(),
{
    let whole = base.push('/') + rest;
    let longer = base.push('/');
    path::trailing_slashes_and_dots_add_nothing(base);
    if rest.len() == 0 {
        assert(whole =~= longer);
        assert(path::segments(base).is_prefix_of(path::segments(base)));
    } else if rest[0] == '/' {
        assert(whole =~= longer.push('/') + rest.skip(1));
        lemma_what_follows_a_slash(longer, rest.skip(1));
    } else if rest[0] == '.' && rest.len() == 1 {
        assert(whole =~= longer.push('.'));
        path::trailing_slashes_and_dots_add_nothing(longer);
        assert(path::segments(base).is_prefix_of(path::segments(base)));
    } else if rest[0] == '.' && rest[1] == '/' {
        path::trailing_slashes_and_dots_add_nothing(longer);
        let dotted = longer.push('.');
        assert(whole =~= dotted.push('/') + rest.skip(2));
        lemma_what_follows_a_slash(dotted, rest.skip(2));
    } else {
        path::slash_separates_components(base, rest);
        assert((path::segments(base) + path::segments(rest)).subrange(
            0,
            path::segments(base).len() as int,
        ) =~= path::segments(base));
    }
}

/// An executable is that of Cloud Hypervisor exactly if its path is clean and `cloud-hypervisor`
/// stands somewhere in its final name.
pub proof fn executables_are_named_after_the_hypervisor(path: Seq<char>)
    ensures
        manifest::hypervisor_executable(path) <==> {
            &&& host_path(path)
            &&& path::final_name(path) matches Some(name) && exists|at: int|
                0 <= at <= name.len() - 16 && #[trigger] name.skip(at).take(16)
                    == "cloud-hypervisor"@
        },
{
    clean_host_paths_never_lead_upwards(path);
    assert("cloud-hypervisor"@.len() == 16) by {
        reveal_strlit("cloud-hypervisor");
    }
    if let Some(name) = path::final_name(path) {
        lemma_contains(name, "cloud-hypervisor"@);
    }
}

/// A text contains a part exactly if the part stands in it from some place on.
proof fn lemma_contains(text: Seq<char>, part: Seq<char>)
    ensures
        text::contains_text(text, part) <==> exists|at: int|
            0 <= at <= text.len() - part.len() && #[trigger] text.skip(at).take(part.len() as int)
                == part,
{
    let length = part.len() as int;
    if text::contains_text(text, part) {
        let at = choose|at: int| text::stands_at(text, part, at);
        assert(text.skip(at).take(length) =~= text.subrange(at, at + length));
    }
    if exists|at: int| 0 <= at <= text.len() - length && #[trigger] text.skip(at).take(length)
        == part {
        let at = choose|at: int|
            0 <= at <= text.len() - length && #[trigger] text.skip(at).take(length) == part;
        assert(text.subrange(at, at + length) =~= text.skip(at).take(length));
        assert(text::stands_at(text, part, at));
    }
}

/// An argument sets the seccomp mode exactly if it is `--seccomp`, or that with an equals sign and
/// anything behind it.
pub proof fn seccomp_arguments(argument: Seq<char>)
    ensures
        manifest::seccomp_argument(argument) <==> {
            &&& argument.len() >= 9
            &&& argument.take(9) == "--seccomp"@
            &&& argument.len() == 9 || argument[9] == '='
        },
{
    reveal_strlit("--seccomp");
    reveal_strlit("--seccomp=");
    let short = "--seccomp"@;
    let long = "--seccomp="@;
    assert(short.len() == 9 && long.len() == 10);
    assert(long.take(9) =~= short);
    if argument == short {
        assert(argument.take(9) =~= short);
    }
    if argument.len() > 9 {
        assert(argument.take(10).take(9) =~= argument.take(9));
        assert(argument.take(10)[9] == argument[9]);
        if argument.take(9) == short && argument[9] == '=' {
            assert(argument.take(10) =~= long) by {
                assert forall|i: int| 0 <= i < 10 implies argument.take(10)[i] == long[i] by {
                    if i < 9 {
                        assert(argument.take(9)[i] == short[i]);
                    }
                }
            }
        }
    }
    if argument.len() == 9 {
        assert(argument.take(9) =~= argument);
    }
}

/// A cgroup property is one of the eight that a manifest may set.
pub open spec fn listed_property(name: Seq<char>) -> bool {
    seq![
        "cpu.max"@,
        "cpu.weight"@,
        "cpuset.cpus"@,
        "cpuset.mems"@,
        "io.max"@,
        "memory.high"@,
        "memory.max"@,
        "pids.max"@,
    ].contains(name)
}

proof fn lemma_listed_property(name: Seq<char>)
    ensures
        manifest::allowed_property(name) <==> listed_property(name),
{
    let list = seq![
        "cpu.max"@,
        "cpu.weight"@,
        "cpuset.cpus"@,
        "cpuset.mems"@,
        "io.max"@,
        "memory.high"@,
        "memory.max"@,
        "pids.max"@,
    ];
    assert(list[0] == "cpu.max"@ && list[1] == "cpu.weight"@ && list[2] == "cpuset.cpus"@ && list[3]
        == "cpuset.mems"@);
    assert(list[4] == "io.max"@ && list[5] == "memory.high"@ && list[6] == "memory.max"@ && list[7]
        == "pids.max"@);
}

/// Two manifests agree in the field that the rule at this place is about.
pub open spec fn same_field(left: Manifest, right: Manifest, place: int) -> bool {
    if place == 0 {
        left.version == right.version
    } else if place == 1 {
        left.machine_id@ == right.machine_id@
    } else if place == 2 {
        left.root@ == right.root@
    } else if place == 3 {
        left.exec_file@ == right.exec_file@
    } else if place == 4 {
        left.uid == right.uid && left.gid == right.gid
    } else if place == 5 {
        left.netns == right.netns
    } else if place == 6 {
        left.resource_limits.no_file == right.resource_limits.no_file
    } else if place == 7 {
        left.daemonize == right.daemonize
    } else if place == 8 {
        left.arguments@ == right.arguments@
    } else if place == 9 {
        left.cgroup.parent == right.cgroup.parent
    } else if place == 10 {
        left.cgroup.values == right.cgroup.values
    } else if place == 11 {
        left.api_socket.0@ == right.api_socket.0@
    } else if place == 12 {
        left.mounts@ == right.mounts@
    } else {
        left.devices@ == right.devices@
    }
}

/// Two manifests agree in the fields of all the rules before the one at a place.
pub open spec fn same_before(left: Manifest, right: Manifest, place: int) -> bool {
    forall|i: int| 0 <= i < place ==> #[trigger] same_field(left, right, i)
}

/// Two manifests agree in the fields of all the rules behind the one at a place.
pub open spec fn same_behind(left: Manifest, right: Manifest, place: int) -> bool {
    forall|i: int| place < i <= 13 ==> #[trigger] same_field(left, right, i)
}

/// What a manifest is refused for that agrees with an accepted one up to a rule: exactly what that
/// rule says of its own field, whatever the fields behind it are; and nothing, where the rule says
/// nothing and the fields behind it agree too. The fields that no rule is about do not matter.
pub open spec fn decides(
    accepted: Manifest,
    other: Manifest,
    place: int,
    report: Option<Violation>,
) -> bool {
    accepted.acceptable() && same_before(accepted, other, place) ==> {
        &&& report is Some ==> other.violation() == report
        &&& report is None && same_behind(accepted, other, place) ==> other.violation() is None
    }
}

/// No property is refused where all are allowed.
proof fn lemma_properties_pass(manifest: Manifest, from: int)
    requires
        forall|i: int|
            0 <= i < manifest.cgroup.values.name_list().len() ==> manifest::allowed_property(
                #[trigger] manifest.cgroup.values.name_list()[i],
            ),
        0 <= from,
    ensures
        manifest.properties_violation(from) is None,
    decreases manifest.cgroup.values.name_list().len() - from,
{
    if from < manifest.cgroup.values.name_list().len() {
        lemma_properties_pass(manifest, from + 1);
    }
}

/// The first property that is not allowed is refused.
proof fn lemma_first_property(manifest: Manifest, from: int, at: int)
    requires
        0 <= from <= at < manifest.cgroup.values.name_list().len(),
        forall|i: int|
            from <= i < at ==> manifest::allowed_property(
                #[trigger] manifest.cgroup.values.name_list()[i],
            ),
        !manifest::allowed_property(manifest.cgroup.values.name_list()[at]),
    ensures
        manifest.properties_violation(from) == Some(
            Violation::InvalidCgroupProperty(manifest.cgroup.values.name_list()[at]),
        ),
    decreases at - from,
{
    if from < at {
        lemma_first_property(manifest, from + 1, at);
    }
}

/// The first mount that breaks a rule is refused, or none is.
proof fn lemma_first_mount(manifest: Manifest, from: int, at: int)
    requires
        0 <= from <= at <= manifest.mounts@.len(),
        forall|i: int| from <= i < at ==> #[trigger] manifest.mount_violation(i) is None,
        at < manifest.mounts@.len() ==> manifest.mount_violation(at) is Some,
    ensures
        manifest.mounts_violation(from) == if at < manifest.mounts@.len() {
            manifest.mount_violation(at)
        } else {
            None
        },
    decreases at - from,
{
    if from < at {
        assert(manifest.mount_violation(from) is None);
        lemma_first_mount(manifest, from + 1, at);
    }
}

/// The first device that breaks a rule is refused, or none is.
proof fn lemma_first_device(manifest: Manifest, from: int, at: int)
    requires
        0 <= from <= at <= manifest.devices@.len(),
        forall|i: int| from <= i < at ==> #[trigger] manifest.device_violation(i) is None,
        at < manifest.devices@.len() ==> manifest.device_violation(at) is Some,
    ensures
        manifest.devices_violation(from) == if at < manifest.devices@.len() {
            manifest.device_violation(at)
        } else {
            None
        },
    decreases at - from,
{
    if from < at {
        assert(manifest.device_violation(from) is None);
        lemma_first_device(manifest, from + 1, at);
    }
}

/// A manifest that agrees with an accepted one up to a rule keeps the rules before it.
proof fn lemma_earlier_rules(accepted: Manifest, other: Manifest, place: int)
    requires
        accepted.acceptable(),
        same_before(accepted, other, place),
    ensures
        place > 0 ==> other.version == 1,
        place > 1 ==> 0 < other.machine_id@.len() <= 64 && manifest::machine_id_text(
            other.machine_id@,
        ),
        place > 2 ==> manifest::clean_host_path(other.root@),
        place > 3 ==> manifest::hypervisor_executable(other.exec_file@),
        place > 4 ==> other.uid != 0 && other.gid != 0,
        place > 5 && other.netns is Some ==> manifest::clean_host_path(other.netns->0@),
        place > 6 ==> 3 <= other.resource_limits.no_file <= 1_048_576,
        place > 7 ==> !other.daemonize,
        place > 8 ==> !other.overrides_seccomp(),
        place > 9 && other.cgroup.parent is Some ==> manifest::safe_sandbox_path(
            (other.cgroup.parent->0).0@,
        ),
        place > 10 ==> other.properties_violation(0) is None,
        place > 11 ==> manifest::safe_sandbox_path(other.api_socket.0@),
        place > 12 ==> other.mounts_violation(0) is None && forall|i: int|
            0 <= i < other.mounts@.len() ==> #[trigger] other.mount_is_sound(i),
{
    assert(place > 0 ==> same_field(accepted, other, 0));
    assert(place > 1 ==> same_field(accepted, other, 1));
    assert(place > 2 ==> same_field(accepted, other, 2));
    assert(place > 3 ==> same_field(accepted, other, 3));
    assert(place > 4 ==> same_field(accepted, other, 4));
    assert(place > 5 ==> same_field(accepted, other, 5));
    assert(place > 6 ==> same_field(accepted, other, 6));
    assert(place > 7 ==> same_field(accepted, other, 7));
    assert(place > 8 ==> same_field(accepted, other, 8));
    assert(place > 9 ==> same_field(accepted, other, 9));
    if place > 10 {
        assert(same_field(accepted, other, 10));
        lemma_properties_pass(other, 0);
    }
    assert(place > 11 ==> same_field(accepted, other, 11));
    if place > 12 {
        assert(same_field(accepted, other, 12));
        assert forall|i: int| 0 <= i < other.mounts@.len() implies #[trigger] other.mount_is_sound(
            i,
        ) by {
            assert(accepted.mount_is_sound(i));
        }
        assert forall|i: int| 0 <= i < other.mounts@.len() implies #[trigger] other.mount_violation(
            i,
        ) is None by {
            assert(other.mount_is_sound(i));
            let destination = other.mounts@[i].destination.0@;
            if other.mounted_before(destination, i) {
                let k = choose|k: int|
                    0 <= k < i && #[trigger] other.mounts@[k].destination.0@ == destination;
                assert(accepted.mounts@[k].destination.0@ != accepted.mounts@[i].destination.0@);
            }
        }
        lemma_first_mount(other, 0, other.mounts@.len() as int);
    }
}

/// A manifest that agrees with an accepted one in all fields but that of one rule, and keeps that
/// rule too, keeps them all.
proof fn lemma_other_rules(accepted: Manifest, other: Manifest, place: int)
    requires
        accepted.acceptable(),
        same_before(accepted, other, place),
        same_behind(accepted, other, place),
    ensures
        place != 0 ==> other.version == accepted.version,
        place != 1 ==> other.machine_id@ == accepted.machine_id@,
        place != 2 ==> other.root@ == accepted.root@,
        place != 3 ==> other.exec_file@ == accepted.exec_file@,
        place != 4 ==> other.uid == accepted.uid && other.gid == accepted.gid,
        place != 5 ==> other.netns == accepted.netns,
        place != 6 ==> other.resource_limits.no_file == accepted.resource_limits.no_file,
        place != 7 ==> other.daemonize == accepted.daemonize,
        place != 8 ==> other.arguments@ == accepted.arguments@,
        place != 9 ==> other.cgroup.parent == accepted.cgroup.parent,
        place != 10 ==> other.cgroup.values == accepted.cgroup.values,
        place != 11 ==> other.api_socket.0@ == accepted.api_socket.0@,
        place != 12 ==> other.mounts@ == accepted.mounts@ && forall|i: int|
            0 <= i < other.mounts@.len() ==> #[trigger] other.mount_is_sound(i),
        place != 13 ==> other.devices@ == accepted.devices@ && forall|i: int|
            0 <= i < other.devices@.len() ==> #[trigger] other.device_is_sound(i),
        other.violation() is None <==> other.acceptable(),
{
    assert(place != 0 ==> same_field(accepted, other, 0));
    assert(place != 1 ==> same_field(accepted, other, 1));
    assert(place != 2 ==> same_field(accepted, other, 2));
    assert(place != 3 ==> same_field(accepted, other, 3));
    assert(place != 4 ==> same_field(accepted, other, 4));
    assert(place != 5 ==> same_field(accepted, other, 5));
    assert(place != 6 ==> same_field(accepted, other, 6));
    assert(place != 7 ==> same_field(accepted, other, 7));
    assert(place != 8 ==> same_field(accepted, other, 8));
    assert(place != 9 ==> same_field(accepted, other, 9));
    assert(place != 10 ==> same_field(accepted, other, 10));
    assert(place != 11 ==> same_field(accepted, other, 11));
    assert(place != 12 ==> same_field(accepted, other, 12));
    assert(place != 13 ==> same_field(accepted, other, 13));
    if place != 12 {
        assert forall|i: int| 0 <= i < other.mounts@.len() implies #[trigger] other.mount_is_sound(
            i,
        ) by {
            assert(accepted.mount_is_sound(i));
        }
    }
    if place != 13 {
        assert forall|i: int|
            0 <= i < other.devices@.len() implies #[trigger] other.device_is_sound(i) by {
            assert(accepted.device_is_sound(i));
        }
    }
    other.accepted_exactly_if_acceptable();
}

/// Fields that no rule is about, such as the PID namespace and the limit on file sizes, make no
/// difference.
pub proof fn fields_without_a_rule_do_not_matter(accepted: Manifest, other: Manifest)
    requires
        accepted.acceptable(),
        same_before(accepted, other, 14),
    ensures
        other.violation() is None,
{
    assert(same_before(accepted, other, 0));
    assert(same_behind(accepted, other, -1));
    lemma_other_rules(accepted, other, -1);
    assert(other.acceptable());
}

/// Only version one is supported.
pub proof fn version_decides(accepted: Manifest, other: Manifest)
    ensures
        decides(
            accepted,
            other,
            0,
            if other.version == 1 {
                None
            } else {
                Some(Violation::UnsupportedVersion(other.version))
            },
        ),
{
    if accepted.acceptable() && same_before(accepted, other, 0) && same_behind(accepted, other, 0) {
        lemma_other_rules(accepted, other, 0);
    }
}

/// A letter of the ASCII alphabet, an ASCII digit, or a dash.
pub open spec fn machine_id_character(c: char) -> bool {
    let code = c as int;
    ||| code == 45
    ||| 48 <= code <= 57
    ||| 65 <= code <= 90
    ||| 97 <= code <= 122
}

/// The name of a machine has from 1 to 64 characters, each an ASCII letter or digit or a dash, in
/// any order.
pub proof fn machine_id_decides(accepted: Manifest, other: Manifest)
    ensures
        decides(
            accepted,
            other,
            1,
            if other.machine_id@.len() == 0 || exists|i: int|
                0 <= i < other.machine_id@.len() && !machine_id_character(
                    #[trigger] other.machine_id@[i],
                ) {
                Some(Violation::InvalidMachineID)
            } else if other.machine_id@.len() > 64 {
                Some(Violation::MachineIDTooLong)
            } else {
                None
            },
        ),
{
    let id = other.machine_id@;
    if manifest::machine_id_text(id) {
        assert forall|i: int| 0 <= i < id.len() implies machine_id_character(#[trigger] id[i]) by {
            assert(text::alphanumeric(id[i]) || id[i] == '-');
        }
    } else {
        let i = choose|i: int|
            0 <= i < id.len() && !(text::alphanumeric(#[trigger] id[i]) || id[i] == '-');
        assert(!machine_id_character(id[i]));
    }
    if accepted.acceptable() && same_before(accepted, other, 1) {
        lemma_earlier_rules(accepted, other, 1);
        if same_behind(accepted, other, 1) {
            lemma_other_rules(accepted, other, 1);
        }
    }
}

/// The root of the jail is an absolute path that leads nowhere upwards.
pub proof fn root_decides(accepted: Manifest, other: Manifest)
    ensures
        decides(
            accepted,
            other,
            2,
            if host_path(other.root@) {
                None
            } else {
                Some(Violation::RootNotAbsolute)
            },
        ),
{
    clean_host_paths_never_lead_upwards(other.root@);
    if accepted.acceptable() && same_before(accepted, other, 2) {
        lemma_earlier_rules(accepted, other, 2);
        if same_behind(accepted, other, 2) {
            lemma_other_rules(accepted, other, 2);
        }
    }
}

/// The executable is an absolute path that leads nowhere upwards and whose final name holds
/// `cloud-hypervisor`.
pub proof fn executable_decides(accepted: Manifest, other: Manifest)
    ensures
        decides(
            accepted,
            other,
            3,
            if host_path(other.exec_file@) && (path::final_name(other.exec_file@) matches Some(name)
                && exists|at: int|
                0 <= at <= name.len() - 16 && #[trigger] name.skip(at).take(16)
                    == "cloud-hypervisor"@) {
                None
            } else {
                Some(Violation::InvalidExecFile)
            },
        ),
{
    executables_are_named_after_the_hypervisor(other.exec_file@);
    if accepted.acceptable() && same_before(accepted, other, 3) {
        lemma_earlier_rules(accepted, other, 3);
        if same_behind(accepted, other, 3) {
            lemma_other_rules(accepted, other, 3);
        }
    }
}

/// Neither the user nor the group is root; any others may be named.
pub proof fn identity_decides(accepted: Manifest, other: Manifest)
    ensures
        decides(
            accepted,
            other,
            4,
            if other.uid > 0 && other.gid > 0 {
                None
            } else {
                Some(Violation::PrivilegedIdentity)
            },
        ),
{
    if accepted.acceptable() && same_before(accepted, other, 4) {
        lemma_earlier_rules(accepted, other, 4);
        if same_behind(accepted, other, 4) {
            lemma_other_rules(accepted, other, 4);
        }
    }
}

/// The network namespace, where one is named, is an absolute path that leads nowhere upwards.
pub proof fn network_namespace_decides(accepted: Manifest, other: Manifest)
    ensures
        decides(
            accepted,
            other,
            5,
            match other.netns {
                Some(path) => if host_path(path@) {
                    None
                } else {
                    Some(Violation::NetNSNotAbsolute)
                },
                None => None,
            },
        ),
{
    if let Some(path) = other.netns {
        clean_host_paths_never_lead_upwards(path@);
    }
    if accepted.acceptable() && same_before(accepted, other, 5) {
        lemma_earlier_rules(accepted, other, 5);
        if same_behind(accepted, other, 5) {
            lemma_other_rules(accepted, other, 5);
        }
    }
}

/// The limit on open files leaves room for the standard streams, and is at most 2 to the power of
/// 20.
pub proof fn open_file_limit_decides(accepted: Manifest, other: Manifest)
    ensures
        decides(
            accepted,
            other,
            6,
            if other.resource_limits.no_file > 2 && other.resource_limits.no_file <= 1024 * 1024 {
                None
            } else {
                Some(Violation::InvalidNoFileLimit)
            },
        ),
{
    if accepted.acceptable() && same_before(accepted, other, 6) {
        lemma_earlier_rules(accepted, other, 6);
        if same_behind(accepted, other, 6) {
            lemma_other_rules(accepted, other, 6);
        }
    }
}

/// A manifest that asks for a daemon is refused.
pub proof fn daemon_decides(accepted: Manifest, other: Manifest)
    ensures
        decides(
            accepted,
            other,
            7,
            if other.daemonize {
                Some(Violation::DaemonizeUnsupported)
            } else {
                None
            },
        ),
{
    if accepted.acceptable() && same_before(accepted, other, 7) {
        lemma_earlier_rules(accepted, other, 7);
        if same_behind(accepted, other, 7) {
            lemma_other_rules(accepted, other, 7);
        }
    }
}

/// The argument at a place is `--seccomp`, or that with an equals sign and anything behind it.
pub open spec fn sets_seccomp(manifest: Manifest, at: int) -> bool {
    let argument = manifest.arguments@[at]@;
    &&& argument.len() >= 9
    &&& argument.take(9) == "--seccomp"@
    &&& argument.len() == 9 || argument[9] == '='
}

/// No argument, wherever it stands, may set the seccomp mode; any others may be given.
pub proof fn arguments_decide(accepted: Manifest, other: Manifest)
    ensures
        decides(
            accepted,
            other,
            8,
            if exists|i: int| 0 <= i < other.arguments@.len() && sets_seccomp(other, i) {
                Some(Violation::SeccompOverride)
            } else {
                None
            },
        ),
{
    let count = other.arguments@.len();
    assert forall|i: int| 0 <= i < count implies sets_seccomp(other, i)
        == manifest::seccomp_argument(#[trigger] other.arguments@[i]@) by {
        seccomp_arguments(other.arguments@[i]@);
    }
    if other.overrides_seccomp() {
        let i = choose|i: int|
            0 <= i < count && manifest::seccomp_argument(#[trigger] other.arguments@[i]@);
        assert(sets_seccomp(other, i));
    }
    if exists|i: int| 0 <= i < count && sets_seccomp(other, i) {
        let i = choose|i: int| 0 <= i < count && sets_seccomp(other, i);
        assert(manifest::seccomp_argument(other.arguments@[i]@));
    }
    if accepted.acceptable() && same_before(accepted, other, 8) {
        lemma_earlier_rules(accepted, other, 8);
        if same_behind(accepted, other, 8) {
            lemma_other_rules(accepted, other, 8);
            if !other.overrides_seccomp() {
                assert forall|i: int| 0 <= i < count implies !manifest::seccomp_argument(
                    #[trigger] other.arguments@[i]@,
                ) by {}
            }
        }
    }
}

/// The parent group, where one is named, is a safe relative path.
pub proof fn cgroup_parent_decides(accepted: Manifest, other: Manifest)
    ensures
        decides(
            accepted,
            other,
            9,
            match other.cgroup.parent {
                Some(parent) => if inner_path(parent.0@) {
                    None
                } else {
                    Some(Violation::UnsafeSandboxPath(parent.0@))
                },
                None => None,
            },
        ),
{
    if let Some(parent) = other.cgroup.parent {
        safe_sandbox_paths_never_lead_upwards(parent.0@);
    }
    if accepted.acceptable() && same_before(accepted, other, 9) {
        lemma_earlier_rules(accepted, other, 9);
        if same_behind(accepted, other, 9) {
            lemma_other_rules(accepted, other, 9);
        }
    }
}

/// Every property is one of the eight that are listed, whatever its value; otherwise the first one
/// in the order of the names that is not listed is named.
pub proof fn cgroup_properties_decide(accepted: Manifest, other: Manifest, name: Seq<char>)
    requires
        other.cgroup.values.well_formed(),
    ensures
        other.cgroup.values@.contains_key(name) && !listed_property(name) && (forall|key: Seq<char>|
            other.cgroup.values@.contains_key(key) && text::text_before(key, name)
                ==> listed_property(key)) ==> decides(
            accepted,
            other,
            10,
            Some(Violation::InvalidCgroupProperty(name)),
        ),
        (forall|key: Seq<char>| #[trigger]
            other.cgroup.values@.contains_key(key) ==> listed_property(key)) ==> decides(
            accepted,
            other,
            10,
            None,
        ),
{
    let values = other.cgroup.values;
    let names = values.name_list();
    assert forall|i: int| 0 <= i < names.len() implies values@.contains_key(
        #[trigger] names[i],
    ) by {
        assert(names.contains(names[i]));
    }
    if accepted.acceptable() && same_before(accepted, other, 10) {
        lemma_earlier_rules(accepted, other, 10);
        if values@.contains_key(name) && !listed_property(name) && (forall|key: Seq<char>|
            values@.contains_key(key) && text::text_before(key, name) ==> listed_property(key)) {
            let at = choose|i: int| 0 <= i < names.len() && names[i] == name;
            assert(names.contains(name));
            lemma_listed_property(name);
            assert forall|i: int| 0 <= i < at implies manifest::allowed_property(
                #[trigger] names[i],
            ) by {
                assert(text::text_before(names[i], names[at]));
                lemma_listed_property(names[i]);
            }
            lemma_first_property(other, 0, at);
        }
        if forall|key: Seq<char>| #[trigger]
            values@.contains_key(key) ==> listed_property(key) {
            assert forall|i: int| 0 <= i < names.len() implies manifest::allowed_property(
                #[trigger] names[i],
            ) by {
                lemma_listed_property(names[i]);
            }
            if same_behind(accepted, other, 10) {
                lemma_other_rules(accepted, other, 10);
            }
        }
    }
}

/// The API socket stands at a safe relative path.
pub proof fn api_socket_decides(accepted: Manifest, other: Manifest)
    ensures
        decides(
            accepted,
            other,
            11,
            if inner_path(other.api_socket.0@) {
                None
            } else {
                Some(Violation::UnsafeSandboxPath(other.api_socket.0@))
            },
        ),
{
    safe_sandbox_paths_never_lead_upwards(other.api_socket.0@);
    if accepted.acceptable() && same_before(accepted, other, 11) {
        lemma_earlier_rules(accepted, other, 11);
        if same_behind(accepted, other, 11) {
            lemma_other_rules(accepted, other, 11);
        }
    }
}

/// What is wrong with a mount that stands behind others.
pub open spec fn mount_report(mounts: Seq<Mount>, at: int) -> Option<Violation> {
    let source = mounts[at].source@;
    let destination = mounts[at].destination.0@;
    if !host_path(source) {
        Some(Violation::SourceNotAbsolute(source))
    } else if !inner_path(destination) {
        Some(Violation::UnsafeSandboxPath(destination))
    } else if in_device_tree(destination) {
        Some(Violation::ReservedMountDestination(destination))
    } else if exists|i: int| 0 <= i < at && (#[trigger] mounts[i]).destination.0@ == destination {
        Some(Violation::DuplicateDestination(destination))
    } else {
        None
    }
}

proof fn lemma_mount_report(manifest: Manifest, at: int)
    ensures
        manifest.mount_violation(at) == mount_report(manifest.mounts@, at),
{
    let mounts = manifest.mounts@;
    let destination = mounts[at].destination.0@;
    clean_host_paths_never_lead_upwards(mounts[at].source@);
    safe_sandbox_paths_never_lead_upwards(destination);
    if inner_path(destination) {
        reserved_destinations_begin_with_dev(destination);
    }
    if manifest.mounted_before(destination, at) {
        let i = choose|i: int|
            0 <= i < at && #[trigger] manifest.mounts@[i].destination.0@ == destination;
        assert(mounts[i].destination.0@ == destination);
    }
    if exists|i: int| 0 <= i < at && (#[trigger] mounts[i]).destination.0@ == destination {
        let i = choose|i: int|
            0 <= i < at && (#[trigger] mounts[i]).destination.0@ == destination;
        assert(manifest.mounts@[i].destination.0@ == destination);
    }
}

/// Every mount binds an absolute path that leads nowhere upwards to a safe relative place outside
/// `dev`, and no two to the same place. Otherwise what is wrong with the first bad one is named.
pub proof fn mounts_decide(accepted: Manifest, other: Manifest, at: int)
    requires
        0 <= at <= other.mounts@.len(),
        forall|i: int| 0 <= i < at ==> #[trigger] mount_report(other.mounts@, i) is None,
        at < other.mounts@.len() ==> mount_report(other.mounts@, at) is Some,
    ensures
        decides(
            accepted,
            other,
            12,
            if at < other.mounts@.len() {
                mount_report(other.mounts@, at)
            } else {
                None
            },
        ),
{
    let mounts = other.mounts@;
    assert forall|i: int| 0 <= i < mounts.len() implies #[trigger] other.mount_violation(i)
        == mount_report(mounts, i) by {
        lemma_mount_report(other, i);
    }
    lemma_first_mount(other, 0, at);
    if accepted.acceptable() && same_before(accepted, other, 12) {
        lemma_earlier_rules(accepted, other, 12);
        if same_behind(accepted, other, 12) && at == mounts.len() {
            lemma_other_rules(accepted, other, 12);
            assert forall|i: int| 0 <= i < mounts.len() implies #[trigger] other.mount_is_sound(
                i,
            ) by {
                assert(other.mount_violation(i) is None);
            }
            assert forall|i: int, j: int| 0 <= i < j < mounts.len() implies (
            #[trigger] other.mounts@[i]).destination.0@ != (
            #[trigger] other.mounts@[j]).destination.0@ by {
                assert(other.mount_violation(j) is None);
            }
            assert(other.acceptable());
        }
    }
}

/// What is wrong with a device that stands behind others.
pub open spec fn device_report(devices: Seq<Device>, at: int) -> Option<Violation> {
    let source = devices[at].source@;
    let destination = devices[at].destination.0@;
    if !control_device(source) && !group_device(source) {
        Some(Violation::InvalidDeviceSource(source))
    } else if !inner_path(destination) {
        Some(Violation::UnsafeSandboxPath(destination))
    } else if path::segments(seq!['/'] + destination) != path::segments(source) {
        Some(Violation::InvalidDeviceDestination(destination))
    } else if exists|i: int|
        0 <= i < at && path::segments((#[trigger] devices[i]).source@) == path::segments(source) {
        Some(Violation::DuplicateDevice(source))
    } else {
        None
    }
}

/// A safe destination is the source without its slash exactly if a slash makes it the source.
proof fn lemma_device_destination(source: Seq<char>, destination: Seq<char>)
    requires
        inner_path(destination),
        path::segments(source).len() > 0,
        path::segments(source)[0] == path::Segment::RootDir,
    ensures
        path::segments(destination) == path::segments(source).skip(1) <==> path::segments(
            seq!['/'] + destination,
        ) == path::segments(source),
{
    path::slash_separates_components(destination, destination);
    let all = path::segments(source);
    let rest = path::segments(destination);
    assert(all =~= seq![path::Segment::RootDir] + all.skip(1));
    assert((seq![path::Segment::RootDir] + rest).skip(1) =~= rest);
}

proof fn lemma_device_report(manifest: Manifest, at: int)
    requires
        0 <= at < manifest.devices@.len(),
        forall|i: int| 0 <= i < at ==> #[trigger] manifest.device_violation(i) is None,
        manifest.mounts_violation(0) is None,
    ensures
        manifest.device_violation(at) == device_report(manifest.devices@, at),
{
    let devices = manifest.devices@;
    let source = devices[at].source@;
    let destination = devices[at].destination.0@;
    only_vfio_devices_are_admitted(source);
    safe_sandbox_paths_never_lead_upwards(destination);
    manifest.device_destination_is_free(at);
    if manifest::vfio_source(source) && inner_path(destination) {
        path::only_two_dots_lead_upwards(source);
        lemma_device_destination(source, destination);
    }
    if manifest.device_named_before(source, at) {
        let i = choose|i: int|
            0 <= i < at && path::segments(#[trigger] manifest.devices@[i].source@)
                == path::segments(source);
        assert(path::segments(devices[i].source@) == path::segments(source));
    }
    if exists|i: int|
        0 <= i < at && path::segments((#[trigger] devices[i]).source@) == path::segments(source) {
        let i = choose|i: int|
            0 <= i < at && path::segments((#[trigger] devices[i]).source@) == path::segments(
                source,
            );
        assert(path::segments(manifest.devices@[i].source@) == path::segments(source));
    }
}

proof fn lemma_device_reports(manifest: Manifest, count: int)
    requires
        0 <= count <= manifest.devices@.len(),
        manifest.mounts_violation(0) is None,
        forall|i: int| 0 <= i < count ==> #[trigger] device_report(manifest.devices@, i) is None,
    ensures
        forall|i: int| 0 <= i < count ==> #[trigger] manifest.device_violation(i) is None,
    decreases count,
{
    if count > 0 {
        lemma_device_reports(manifest, count - 1);
        lemma_device_report(manifest, count - 1);
        assert(device_report(manifest.devices@, count - 1) is None);
    }
}

/// Every device is the control device or that of a group, stands at its own path in the jail and is
/// declared once; there are at most 65, and the control device among them if there are any.
/// Otherwise the number, what is wrong with the first bad one, or the missing control device is
/// named, in this order.
pub proof fn devices_decide(accepted: Manifest, other: Manifest, at: int)
    requires
        0 <= at <= other.devices@.len(),
        forall|i: int| 0 <= i < at ==> #[trigger] device_report(other.devices@, i) is None,
        at < other.devices@.len() ==> device_report(other.devices@, at) is Some,
    ensures
        decides(
            accepted,
            other,
            13,
            if other.devices@.len() > 65 {
                Some(Violation::TooManyDevices)
            } else if at < other.devices@.len() {
                device_report(other.devices@, at)
            } else if other.devices@.len() > 0 && forall|i: int|
                0 <= i < other.devices@.len() ==> !control_device(
                    (#[trigger] other.devices@[i]).source@,
                ) {
                Some(Violation::MissingVFIOControlDevice)
            } else {
                None
            },
        ),
{
    let devices = other.devices@;
    if accepted.acceptable() && same_before(accepted, other, 13) {
        lemma_earlier_rules(accepted, other, 13);
        lemma_device_reports(other, at);
        if at < devices.len() {
            lemma_device_report(other, at);
        }
        lemma_first_device(other, 0, at);
        assert forall|i: int| 0 <= i < devices.len() implies manifest::vfio_control(
            #[trigger] other.devices@[i].source@,
        ) == control_device(devices[i].source@) by {
            only_vfio_devices_are_admitted(devices[i].source@);
        }
        let lacking = devices.len() > 0 && forall|i: int|
            0 <= i < devices.len() ==> !control_device((#[trigger] devices[i]).source@);
        if lacking {
            assert(!manifest::vfio_control(other.devices@[0].source@));
            assert forall|i: int| 0 <= i < devices.len() implies !manifest::vfio_control(
                #[trigger] other.devices@[i].source@,
            ) by {
                assert(!control_device(devices[i].source@));
            }
            assert(other.lacks_control_device());
        }
        if other.lacks_control_device() {
            assert forall|i: int| 0 <= i < devices.len() implies !control_device(
                (#[trigger] devices[i]).source@,
            ) by {
                assert(!manifest::vfio_control(other.devices@[i].source@));
            }
            assert(lacking);
        }
        assert(lacking == other.lacks_control_device());
    }
}

/// The text that a violation is about, where it is about one.
pub open spec fn subject(violation: Violation) -> Option<Seq<char>> {
    match violation {
        Violation::UnsupportedVersion(version) => Some(text::decimal(version as nat)),
        Violation::UnsafeSandboxPath(path) => Some(path),
        Violation::SourceNotAbsolute(path) => Some(path),
        Violation::DuplicateDestination(path) => Some(path),
        Violation::ReservedMountDestination(path) => Some(path),
        Violation::InvalidDeviceSource(path) => Some(path),
        Violation::InvalidDeviceDestination(path) => Some(path),
        Violation::DuplicateDevice(path) => Some(path),
        Violation::InvalidCgroupProperty(name) => Some(name),
        _ => None,
    }
}

/// The report on a violation that is about a text holds the text.
pub proof fn reports_name_their_subjects(violation: Violation)
    ensures
        subject(violation) matches Some(text) ==> text::contains_text(
            manifest::violation_text(violation),
            text,
        ),
{
    let nothing = Seq::<char>::empty();
    if let Some(text) = subject(violation) {
        let report = manifest::violation_text(violation);
        let (before, after) = match violation {
            Violation::UnsupportedVersion(_) => ("unsupported manifest version "@, nothing),
            Violation::UnsafeSandboxPath(_) => (
                "sandbox path "@,
                " must be relative, clean, and non-empty"@,
            ),
            Violation::SourceNotAbsolute(_) => ("mount source "@, " must be absolute"@),
            Violation::DuplicateDestination(_) => ("duplicate sandbox destination "@, nothing),
            Violation::ReservedMountDestination(_) => (
                "mount destination "@,
                " overlaps the jailer's reserved device tree"@,
            ),
            Violation::InvalidDeviceSource(_) => (
                "device source "@,
                " is not an allow-listed VFIO path"@,
            ),
            Violation::InvalidDeviceDestination(_) => (
                "VFIO device destination must match its source: "@,
                nothing,
            ),
            Violation::DuplicateDevice(_) => ("duplicate VFIO device "@, nothing),
            _ => ("cgroup property "@, " is not an allow-listed cgroup v2 file"@),
        };
        assert(report =~= before + text + after);
        text::containing_means_standing_between(before, text, after);
    }
}

} // verus!
