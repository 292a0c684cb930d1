use std::path::{Component, Path};

use versions_le::discover::{
    descend, designator, keep, label, manifest_of, name_of, normalise, order_walk, strip_bom,
    wanted, DiscoverOptions, Part, PrefixKind,
};
use versions_le::heuristics::{Ecosystem, Excludes, ManifestKind};

/// The parts of a path as this platform parses it.
fn parts(path: &str) -> Vec<Part> {
    Path::new(path)
        .components()
        .map(|component| match component {
            Component::RootDir => Part::RootDir,
            Component::CurDir => Part::CurDir,
            Component::ParentDir => Part::ParentDir,
            Component::Normal(text) => Part::Normal(text.to_string_lossy().into_owned()),
            Component::Prefix(_) => unreachable!("no prefix on this platform"),
        })
        .collect()
}

fn normal(names: &[&str]) -> Vec<Part> {
    names.iter().map(|n| Part::Normal(n.to_string())).collect()
}

fn with_prefix(prefix: PrefixKind, names: &[&str]) -> Vec<Part> {
    let mut all = vec![Part::Prefix(prefix), Part::RootDir];
    all.extend(normal(names));
    all
}

#[test]
fn every_windows_prefix_shape_is_one_forward_slashed_designator() {
    let server = "server".to_string();
    let share = "share".to_string();
    for (prefix, expected) in [
        (PrefixKind::Disk(b'C'), "C:"),
        (PrefixKind::Disk(b'c'), "C:"),
        (PrefixKind::VerbatimDisk(b'C'), "C:"),
        (PrefixKind::Unc(server.clone(), share.clone()), "//server/share"),
        (PrefixKind::VerbatimUnc(server.clone(), share.clone()), "//server/share"),
        (PrefixKind::DeviceNs("COM1".to_string()), "//./COM1"),
        (PrefixKind::Verbatim("Volume{0}".to_string()), "//?/Volume{0}"),
    ] {
        let designated = designator(&prefix);
        assert_eq!(designated, expected, "{prefix:?}");
        assert!(!designated.contains('\\'), "{prefix:?} kept a backslash");
    }
}

#[test]
fn a_verbatim_drive_and_a_plain_drive_are_the_same_identity() {
    assert_eq!(designator(&PrefixKind::VerbatimDisk(b'C')), designator(&PrefixKind::Disk(b'C')));
    assert_eq!(
        designator(&PrefixKind::VerbatimUnc("server".into(), "share".into())),
        designator(&PrefixKind::Unc("server".into(), "share".into()))
    );
}

#[test]
fn two_unc_shares_keep_two_identities() {
    let one = designator(&PrefixKind::Unc("alpha".into(), "share".into()));
    let other = designator(&PrefixKind::Unc("beta".into(), "share".into()));
    assert_ne!(one, other);
    assert_ne!(one, designator(&PrefixKind::Unc("alpha".into(), "other".into())));
}

/// The parts Windows parses out of each spelling, written as literals so
/// that the assembly of a designator with the rest runs everywhere.
#[test]
fn discover_windows_paths_normalise_to_one_label_per_file() {
    for (parts, expected) in [
        (with_prefix(PrefixKind::VerbatimDisk(b'C'), &["a", "Cargo.toml"]), "C:/a/Cargo.toml"),
        (with_prefix(PrefixKind::Disk(b'C'), &["a", "Cargo.toml"]), "C:/a/Cargo.toml"),
        (with_prefix(PrefixKind::Disk(b'c'), &["a", "Cargo.toml"]), "C:/a/Cargo.toml"),
        (
            with_prefix(PrefixKind::Unc("server".into(), "share".into()), &["a", "Cargo.toml"]),
            "//server/share/a/Cargo.toml",
        ),
        (
            with_prefix(
                PrefixKind::VerbatimUnc("server".into(), "share".into()),
                &["a", "Cargo.toml"],
            ),
            "//server/share/a/Cargo.toml",
        ),
        (normal(&["a", "b", "Cargo.toml"]), "a/b/Cargo.toml"),
        (normal(&[".github", "workflows", "ci.yml"]), ".github/workflows/ci.yml"),
    ] {
        assert_eq!(normalise(&parts), expected, "{parts:?}");
    }
}

#[test]
fn prefix_free_paths_normalise_to_what_the_caller_typed() {
    for (raw, expected) in [
        ("a/b/Cargo.toml", "a/b/Cargo.toml"),
        ("./a/Cargo.toml", "./a/Cargo.toml"),
        ("Cargo.toml", "Cargo.toml"),
        ("/a/b/Cargo.toml", "/a/b/Cargo.toml"),
        ("/Cargo.toml", "/Cargo.toml"),
        ("a//b/Cargo.toml", "a/b/Cargo.toml"),
        ("../a/Cargo.toml", "../a/Cargo.toml"),
    ] {
        assert_eq!(normalise(&parts(raw)), expected, "{raw}");
    }
}

#[test]
fn more_than_one_root_qualifies_the_label() {
    let file = parts("/tmp/tree/api/Cargo.toml");
    let root = parts("/tmp/tree/api");
    assert_eq!(label(&file, &root, false, false), "Cargo.toml");
    assert!(label(&file, &root, false, true).ends_with("api/Cargo.toml"));
    assert_eq!(label(&file, &root, false, true), "/tmp/tree/api/Cargo.toml");
    assert!(!label(&file, &root, false, true).contains('\\'));
}

#[test]
fn an_absolute_file_root_is_labelled_with_one_separator_run() {
    let file = parts("/tmp/tree/Cargo.toml");
    let labelled = label(&file, &file, true, false);
    assert!(!labelled.contains('\\'), "{labelled}");
    assert!(!labelled.contains("//"), "{labelled}");
    assert!(labelled.ends_with("/Cargo.toml"), "{labelled}");
    assert!(labelled.starts_with('/'), "{labelled}");

    let on_a_drive = with_prefix(PrefixKind::VerbatimDisk(b'C'), &["tmp", "Cargo.toml"]);
    assert_eq!(label(&on_a_drive, &on_a_drive, true, false), "C:/tmp/Cargo.toml");
}

#[test]
fn a_root_spelled_dot_is_never_a_qualifier() {
    let file = parts("./a/Cargo.toml");
    let root = parts(".");
    assert_eq!(label(&file, &root, false, true), "a/Cargo.toml");
}

#[test]
fn a_path_outside_its_root_is_labelled_whole() {
    let file = parts("elsewhere/Cargo.toml");
    let root = parts("tree");
    assert_eq!(label(&file, &root, false, false), "elsewhere/Cargo.toml");
}

#[test]
fn a_byte_order_mark_is_not_part_of_the_document() {
    let text = strip_bom("\u{feff}{ \"name\": \"a\" }".to_string());
    assert!(text.starts_with('{'), "{text:?}");
    assert_eq!(strip_bom("{}".to_string()), "{}");
    assert_eq!(strip_bom(String::new()), "");
}

#[test]
fn the_workflow_directory_is_walked_without_asking() {
    assert!(descend(".github", false));
    assert_eq!(
        keep(".github/workflows/ci.yml", &Excludes::new(&Vec::new()), &Vec::new()),
        Some(ManifestKind::Workflow)
    );
    assert_eq!(keep(".github/dependabot.yml", &Excludes::new(&Vec::new()), &Vec::new()), None);
}

#[test]
fn other_hidden_directories_are_skipped_unless_asked_for() {
    assert!(!descend(".cache", false));
    assert!(descend(".cache", true));
    assert!(descend("crates", false));
}

#[test]
fn node_modules_is_never_walked() {
    assert!(!descend("node_modules", false));
    assert!(!descend("node_modules", true));
}

#[test]
fn discover_an_ecosystem_filter_narrows_the_walk() {
    let cargo_only = vec![Ecosystem::Cargo];
    let none = Excludes::new(&Vec::new());
    assert_eq!(keep("Cargo.toml", &none, &cargo_only), Some(ManifestKind::CargoToml));
    assert_eq!(keep("package.json", &none, &cargo_only), None);
    assert!(wanted(ManifestKind::PackageJson, &Vec::new()));
    assert!(!wanted(ManifestKind::PackageJson, &cargo_only));
}

#[test]
fn an_exclude_pattern_hides_a_manifest() {
    let excludes = Excludes::new(&vec!["examples/**".to_string()]);
    assert_eq!(keep("Cargo.toml", &excludes, &Vec::new()), Some(ManifestKind::CargoToml));
    assert_eq!(keep("examples/demo/Cargo.toml", &excludes, &Vec::new()), None);
}

#[test]
fn the_manifests_are_found_and_nothing_else_is() {
    let none = Excludes::new(&Vec::new());
    let kept: Vec<&str> = [
        "package.json",
        "Cargo.toml",
        "crates/api/Cargo.toml",
        "README.md",
        "Cargo.lock",
    ]
    .into_iter()
    .filter(|path| keep(path, &none, &Vec::new()).is_some())
    .collect();
    assert_eq!(kept, ["package.json", "Cargo.toml", "crates/api/Cargo.toml"]);
}

#[test]
fn a_named_manifest_is_classified_whatever_the_path_shape() {
    assert!(manifest_of(&parts("a/Cargo.toml")).is_some());
    assert!(manifest_of(&parts("a/README.md")).is_none());
    for (path, kind) in [
        ("/Cargo.toml", ManifestKind::CargoToml),
        ("./package.json", ManifestKind::PackageJson),
        ("/a/.github/workflows/ci.yml", ManifestKind::Workflow),
        (".github/workflows/ci.yml", ManifestKind::Workflow),
    ] {
        assert_eq!(manifest_of(&parts(path)), Some(kind), "{path}");
    }
    assert_eq!(manifest_of(&parts("/a/deploy/k8s.yml")), None);
}

#[test]
fn a_diagnostic_names_the_basename() {
    assert_eq!(name_of(&parts("/tmp/tree/package.json")), "package.json");
    assert_eq!(name_of(&with_prefix(PrefixKind::Disk(b'd'), &["x", "go.mod"])), "go.mod");
}

#[test]
fn the_default_options_walk_visible_directories_honouring_ignores() {
    let options = DiscoverOptions::default();
    assert!(!options.hidden);
    assert!(options.respect_ignore);
    assert!(options.exclude.is_empty());
    assert!(options.ecosystems.is_empty());
    assert_eq!(options, DiscoverOptions::new());
}

#[test]
fn the_order_is_stable_between_runs() {
    let walked: Vec<Vec<Part>> =
        ["/t/z/Cargo.toml", "/t/a/Cargo.toml", "/t/m/package.json", "/t/a/Cargo.toml"]
            .iter()
            .map(|p| parts(p))
            .collect();
    let first = order_walk(&walked);
    let again = order_walk(&walked);
    assert_eq!(first, again);
    let root = parts("/t");
    let labels: Vec<String> =
        first.iter().map(|&i| label(&walked[i], &root, false, false)).collect();
    assert_eq!(labels, ["a/Cargo.toml", "m/package.json", "z/Cargo.toml"]);
}

#[test]
fn a_shorter_path_comes_before_the_paths_it_begins() {
    let walked: Vec<Vec<Part>> = ["b/x/Cargo.toml", "b/Cargo.toml", "a.b/Cargo.toml", "a/Cargo.toml"]
        .iter()
        .map(|p| parts(p))
        .collect();
    let ordered: Vec<String> = order_walk(&walked).iter().map(|&i| normalise(&walked[i])).collect();
    assert_eq!(ordered, ["a/Cargo.toml", "a.b/Cargo.toml", "b/Cargo.toml", "b/x/Cargo.toml"]);
}
