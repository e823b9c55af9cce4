use std::path::{Component as StdComponent, Path};

use cloud_hypervisor_jailer::path::{
    component_text, components, file_name, is_absolute, join, parent, same_path, starts_with,
    strip_prefix, Component,
};

const PATHS: [&str; 34] = [
    "", "/", "//", ".", "./", "./.", "..", "/..", "../", "a", "a/", "a//", "/a", "//a", "/a/b",
    "a/b", "a//b", "a/./b", "./a", "././a", ".a", "..a", "...", "a/..", "a/../b", "/./a", "/a/.",
    "/a/./", "a/.", "a/./.", "/dev/vfio/vfio", "dev/vfio", "\u{e9}/\u{4e2d}/x", " / ",
];

fn as_text(component: &Component) -> String {
    match component {
        Component::RootDir => "root".into(),
        Component::CurDir => "cur".into(),
        Component::ParentDir => "parent".into(),
        Component::Normal(name) => format!("name {name}"),
    }
}

fn std_as_text(component: StdComponent) -> String {
    match component {
        StdComponent::RootDir => "root".into(),
        StdComponent::CurDir => "cur".into(),
        StdComponent::ParentDir => "parent".into(),
        StdComponent::Normal(name) => format!("name {}", name.to_str().unwrap()),
        StdComponent::Prefix(_) => unreachable!(),
    }
}

#[test]
fn components_are_those_of_the_platform() {
    for path in PATHS {
        let ours: Vec<String> = components(path).iter().map(as_text).collect();
        let theirs: Vec<String> = Path::new(path).components().map(std_as_text).collect();
        assert_eq!(ours, theirs);
        assert_eq!(is_absolute(path), Path::new(path).is_absolute());
        assert_eq!(
            file_name(path),
            Path::new(path).file_name().map(|name| name.to_str().unwrap().to_string())
        );
        for component in components(path) {
            let text = component_text(&component);
            assert!(matches!(component, Component::Normal(name) if name == text)
                || ["/", ".", ".."].contains(&text.as_str()));
        }
    }
}

#[test]
fn components_of_every_short_text_are_those_of_the_platform() {
    let mut texts: Vec<String> = vec![String::new()];
    let mut shorter = texts.clone();
    for _ in 0..6 {
        let mut longer = Vec::new();
        for text in &shorter {
            for c in ['/', '.', 'x'] {
                longer.push(format!("{text}{c}"));
            }
        }
        texts.extend(longer.clone());
        shorter = longer;
    }
    for text in &texts {
        let ours: Vec<String> = components(text).iter().map(as_text).collect();
        let theirs: Vec<String> = Path::new(text).components().map(std_as_text).collect();
        assert_eq!(ours, theirs);
        assert_eq!(
            parent(text),
            Path::new(text).parent().map(|path| path.to_str().unwrap().to_string())
        );
    }
}

#[test]
fn pairs_of_paths_relate_as_on_the_platform() {
    for first in PATHS {
        for second in PATHS {
            let (left, right) = (Path::new(first), Path::new(second));
            assert_eq!(join(first, second), left.join(right).to_str().unwrap());
            assert_eq!(same_path(first, second), left == right);
            assert_eq!(starts_with(first, second), left.starts_with(right));
            let ours = strip_prefix(first, second)
                .map(|rest| rest.iter().map(as_text).collect::<Vec<String>>());
            let theirs = left
                .strip_prefix(right)
                .ok()
                .map(|rest| rest.components().map(std_as_text).collect::<Vec<String>>());
            assert_eq!(ours, theirs);
        }
    }
}

#[test]
fn parent_is_that_of_the_platform() {
    for path in PATHS {
        assert_eq!(
            parent(path),
            Path::new(path).parent().map(|path| path.to_str().unwrap().to_string())
        );
    }
    assert_eq!(parent("/jail/root/run/ch.sock"), Some("/jail/root/run".to_string()));
}

#[test]
fn joining_a_safe_path_keeps_the_components_of_the_base() {
    let whole = join("/jail/root", "run//ch.sock");
    assert_eq!(whole, "/jail/root/run//ch.sock");
    let names: Vec<String> = components(&whole).iter().map(as_text).collect();
    assert_eq!(names, ["root", "name jail", "name root", "name run", "name ch.sock"]);
    assert_eq!(join("/jail/root/", "run"), "/jail/root/run");
    assert_eq!(join("/jail", "/run"), "/run");
}
