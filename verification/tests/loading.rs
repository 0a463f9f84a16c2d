use std::collections::HashMap;

use ui_compiler::loader::{LoadFailure, LoadRequest, Loader};
use ui_compiler::parser::{CompileStatus, Component};
use ui_compiler::pipeline::{build, plan_watch, BuildFailure};
use ui_compiler::table::Table;

/// Answers the loader's requests from `files`, joining relative paths the
/// way a host on a Unix file system would.
fn load(files: &HashMap<&str, &str>, root: &str) -> Result<(Table<Component>, String), String> {
    let (mut loader, mut request) = Loader::new(root.to_owned());
    loop {
        request = match request {
            LoadRequest::Find { path, importer, .. } => {
                let full = match importer {
                    Some(i) if !path.starts_with('/') => {
                        let dir = &i[..i.rfind('/').unwrap() + 1];
                        format!("{}{}", dir, path)
                    }
                    _ => path,
                };
                let found = if files.contains_key(full.as_str()) {
                    Some(full)
                } else if files.contains_key(format!("{}.ui", full).as_str()) {
                    Some(format!("{}.ui", full))
                } else {
                    None
                };
                loader.found(found)
            }
            LoadRequest::Read { path } => loader.read(files.get(path.as_str()).map(|t| t.to_string())),
            LoadRequest::Done { root } => return Ok((loader.into_trees(), root)),
            LoadRequest::Failed(f) => {
                return Err(match f {
                    LoadFailure::NotFound { path, .. } => format!("not found: {}", path),
                    LoadFailure::Unreadable(p) => format!("unreadable: {}", p),
                    LoadFailure::Parse(issues) => format!("parse: {}", issues[0].message),
                    LoadFailure::OutOfOrder => "out of order".to_owned(),
                })
            }
        };
    }
}

#[test]
fn loads_imports_once() {
    let mut files = HashMap::new();
    files.insert("/ui/app.ui", "import \"button.ui\" as Btn; import \"button\"; Pane { }");
    files.insert("/ui/button.ui", "Rect { }");
    let (trees, root) = load(&files, "/ui/app.ui").ok().unwrap();
    assert_eq!(root, "/ui/app.ui");
    let paths: Vec<&str> = trees.entries.iter().map(|e| e.0.as_str()).collect();
    assert_eq!(paths, vec!["/ui/app.ui", "/ui/button.ui"]);
    let app = &trees.entries[0].1;
    assert!(app.import_decls.is_empty());
    let imports: Vec<(&str, &str)> = app.imports_map.entries.iter().map(|e| (e.0.as_str(), e.1.as_str())).collect();
    assert_eq!(imports, vec![("Button", "/ui/button.ui"), ("Btn", "/ui/button.ui")]);
    assert!(trees.entries.iter().all(|e| e.1.status == CompileStatus::Ready));
}

#[test]
fn missing_imports_are_reported() {
    let mut files = HashMap::new();
    files.insert("/app.ui", "import \"nothing.ui\"; Pane { }");
    assert_eq!(load(&files, "/app.ui").err().unwrap(), "not found: nothing.ui");
    assert_eq!(load(&files, "/other.ui").err().unwrap(), "not found: /other.ui");
}

#[test]
fn parse_errors_stop_loading() {
    let mut files = HashMap::new();
    files.insert("/app.ui", "Pane {");
    assert_eq!(load(&files, "/app.ui").err().unwrap(), "parse: expected }, found `end of file`");
}

#[test]
fn answers_out_of_order_are_refused() {
    let (mut loader, _) = Loader::new("/a.ui".to_owned());
    assert!(matches!(loader.read(Some("Pane { }".to_owned())), LoadRequest::Failed(LoadFailure::OutOfOrder)));
}

#[test]
fn builds_imports_first() {
    let mut files = HashMap::new();
    files.insert("/ui/app.ui", "import \"item-box.ui\"; Pane { }");
    files.insert("/ui/item-box.ui", "Rect { x1: 1px; }");
    let (mut trees, root) = load(&files, "/ui/app.ui").ok().unwrap();
    let (result, paths) = build(&root, &mut trees);
    let paths = paths.ok().unwrap();
    let names: Vec<&str> = result.outputs.iter().map(|o| o.0.as_str()).collect();
    assert_eq!(names, vec!["item-box.ts", "app.ts"]);
    assert!(result.outputs[0].1.contains("export default class ItemBox extends Dom.Component<Dom.Rect>"));
    assert!(paths.contains(&"/ui/app.ui".to_owned()));
    assert!(paths.contains(&"/ui/item-box.ui".to_owned()));
    assert!(trees.entries.iter().all(|e| e.1.status == CompileStatus::Done));
    assert!(result.warnings.is_empty());
}

#[test]
fn everything_a_root_imports_is_built() {
    let mut files = HashMap::new();
    files.insert("/ui/app.ui", "import \"a.ui\"; import \"b.ui\"; Pane { }");
    files.insert("/ui/a.ui", "import \"b.ui\"; Pane { }");
    files.insert("/ui/b.ui", "Rect { }");
    let (mut trees, root) = load(&files, "/ui/app.ui").ok().unwrap();
    let (result, paths) = build(&root, &mut trees);
    let paths = paths.ok().unwrap();
    let names: Vec<&str> = result.outputs.iter().map(|o| o.0.as_str()).collect();
    assert_eq!(names.len(), 3);
    assert_eq!(names[2], "app.ts");
    let b = names.iter().position(|n| *n == "b.ts").unwrap();
    let a = names.iter().position(|n| *n == "a.ts").unwrap();
    assert!(b < a);
    assert!(paths.contains(&"/ui/a.ui".to_owned()));
    assert!(paths.contains(&"/ui/b.ui".to_owned()));
    assert_eq!(paths.len(), 3);
}

#[test]
fn recursive_imports_are_reported() {
    let mut files = HashMap::new();
    files.insert("/a.ui", "import \"b.ui\"; Pane { }");
    files.insert("/b.ui", "import \"a.ui\"; Pane { }");
    let (mut trees, root) = load(&files, "/a.ui").ok().unwrap();
    match build(&root, &mut trees).1 {
        Err(BuildFailure::RecursiveImport(p)) => assert_eq!(p, "/a.ui"),
        _ => panic!("expected a recursive import"),
    }
}

#[test]
fn check_errors_stop_the_build() {
    let mut files = HashMap::new();
    files.insert("/a.ui", "Rect { x1: true; }");
    let (mut trees, root) = load(&files, "/a.ui").ok().unwrap();
    match build(&root, &mut trees).1 {
        Err(BuildFailure::Check(issues)) => assert_eq!(issues.last().unwrap().message, "expected type `Length`, found `Boolean`"),
        _ => panic!("expected a check failure"),
    }
}

#[test]
fn unloaded_roots_are_reported() {
    let mut trees: Table<Component> = Table::new();
    assert!(matches!(build("/none.ui", &mut trees).1, Err(BuildFailure::NotLoaded(p)) if p == "/none.ui"));
}

#[test]
fn watching_follows_successful_builds() {
    let prev = vec!["/a.ui".to_owned()];
    let plan = plan_watch(&prev, Some(vec!["/a.ui".to_owned(), "/b.ui".to_owned()]), "/a.ui");
    assert_eq!(plan.unwatch, vec!["/a.ui".to_owned()]);
    assert_eq!(plan.watch, vec!["/a.ui".to_owned(), "/b.ui".to_owned()]);
    let failed = plan_watch(&plan.built, None, "/a.ui");
    assert!(failed.unwatch.is_empty() && failed.watch.is_empty());
    assert_eq!(failed.built.len(), 2);
    let first_failure = plan_watch(&Vec::new(), None, "/a.ui");
    assert_eq!(first_failure.watch, vec!["/a.ui".to_owned()]);
}

#[test]
fn a_failed_build_keeps_what_was_built_before_it_failed() {
    let mut files = HashMap::new();
    files.insert("/ui/app.ui", "import \"good.ui\"; Rect { x1: true; }");
    files.insert("/ui/good.ui", "Rect { x1: 1px; }");
    let (mut trees, root) = load(&files, "/ui/app.ui").ok().unwrap();
    let (result, paths) = build(&root, &mut trees);
    assert!(matches!(paths, Err(BuildFailure::Check(_))));
    let names: Vec<&str> = result.outputs.iter().map(|o| o.0.as_str()).collect();
    assert_eq!(names, vec!["good.ts"]);
}
