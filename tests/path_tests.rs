use cindex::paths::{normalize_parts, PathPart};

fn n(s: &str) -> PathPart {
    PathPart::Normal(s.as_bytes().to_vec())
}

fn show(v: &[PathPart]) -> Vec<String> {
    v.iter()
        .map(|p| match p {
            PathPart::Prefix(b) => format!("prefix:{}", String::from_utf8_lossy(b)),
            PathPart::Root => "/".to_string(),
            PathPart::Cur => ".".to_string(),
            PathPart::Parent => "..".to_string(),
            PathPart::Normal(b) => String::from_utf8_lossy(b).into_owned(),
        })
        .collect()
}

fn cwd() -> Vec<PathPart> {
    vec![PathPart::Prefix(b"C:".to_vec()), PathPart::Root, n("work"), n("src")]
}

#[test]
fn relative_path_joins_current_directory() {
    let r = normalize_parts(cwd(), vec![n("a"), PathPart::Cur, n("b"), PathPart::Parent, n("c")]);
    assert_eq!(show(&r), vec!["prefix:C:", "/", "work", "src", "a", "c"]);
}

#[test]
fn parent_stops_at_root() {
    let r = normalize_parts(cwd(), vec![PathPart::Root, PathPart::Parent, PathPart::Parent, n("x")]);
    assert_eq!(show(&r), vec!["/", "x"]);
    let r = normalize_parts(cwd(), vec![PathPart::Prefix(b"D:".to_vec()), PathPart::Root, PathPart::Parent]);
    assert_eq!(show(&r), vec!["prefix:D:", "/"]);
}

#[test]
fn leading_parent_is_kept_and_empty_path_is_current_directory() {
    let r = normalize_parts(cwd(), vec![PathPart::Parent, n("y")]);
    assert_eq!(show(&r), vec!["prefix:C:", "/", "work", "src", "..", "y"]);
    let r = normalize_parts(cwd(), vec![]);
    assert_eq!(show(&r), vec!["prefix:C:", "/", "work", "src"]);
}
