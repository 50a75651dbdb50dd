use lib::builder::{module_name_for_file, str_contains, target_exe_extension, target_obj_extension, Builder};
use lib::config::Config;
use lib::graph::GraphError;
use lib::load_config;
use lib::project::{Workspace, WorkspaceError};

fn s(x: &str) -> String {
    x.to_string()
}

fn config(mode: &str, entry: bool) -> Config {
    let text = format!(
        "[project]\nname = demo\nversion = \"1\"\nmode = {}\n{}",
        mode,
        if entry { "entry = \"src/main.unn\"\n" } else { "" }
    );
    load_config(text.chars().collect()).unwrap()
}

#[test]
fn executable_workspace_needs_an_existing_entry() {
    let w = Workspace::build(config("executable", true), Ok(vec![s("src/main.unn")]), true).unwrap();
    assert_eq!(w.entry, "src/main.unn");
    assert_eq!(w.source_files, vec![s("src/main.unn")]);
    match Workspace::build(config("executable", true), Ok(vec![]), false) {
        Err(WorkspaceError::MissingEntryFile(e)) => assert_eq!(e, "src/main.unn"),
        other => panic!("{:?}", other),
    }
    assert!(matches!(Workspace::build(config("executable", false), Ok(vec![]), false), Err(WorkspaceError::NoEntry)));
}

#[test]
fn library_workspace_has_no_entry() {
    let w = Workspace::build(config("static", false), Ok(vec![s("src/lib.unn")]), false).unwrap();
    assert_eq!(w.entry, "");
}

#[test]
fn scan_failure_comes_first() {
    match Workspace::build(config("executable", false), Err(s("no such dir")), false) {
        Err(WorkspaceError::SourceFiles(m)) => assert_eq!(m, "no such dir"),
        other => panic!("{:?}", other),
    }
}

#[test]
fn target_extensions() {
    assert_eq!(target_obj_extension("x86_64-pc-windows-msvc"), ".obj");
    assert_eq!(target_obj_extension("x86_64-unknown-linux-gnu"), ".o");
    assert_eq!(target_exe_extension("x86_64-pc-windows-gnu"), ".exe");
    assert_eq!(target_exe_extension("x86_64-unknown-none"), ".elf");
    assert_eq!(target_exe_extension("aarch64-apple-darwin"), "");
    assert!(str_contains("abc", ""));
    assert!(!str_contains("ab", "abc"));
}

#[test]
fn module_of_a_file() {
    let map = vec![(s("a"), s("src/a.unn")), (s("b"), s("src/b.unn"))];
    assert_eq!(module_name_for_file(&map, &s("src/b.unn")), Some(s("b")));
    assert_eq!(module_name_for_file(&map, &s("src/main.unn")), None);
}

#[test]
fn builder_builds_the_graph() {
    let w = Workspace::build(config("executable", true), Ok(vec![s("src/main.unn"), s("src/io.unn")]), true).unwrap();
    let sources = vec![Some(s("import io\n")), Some(s("module io\n"))];
    let b = Builder::new(w, &sources).unwrap();
    assert_eq!(b.graph.compile_order, vec![s("src/io.unn"), s("src/main.unn")]);

    let w = Workspace::build(config("executable", true), Ok(vec![s("src/main.unn")]), true).unwrap();
    let sources = vec![Some(s("import nowhere\n"))];
    let b = Builder::new(w, &sources).unwrap();
    assert_eq!(b.graph.unresolved, vec![s("nowhere")]);

    let w = Workspace::build(config("executable", true), Ok(vec![s("src/main.unn")]), true).unwrap();
    let sources = vec![Some(s("module main\nimport main\n"))];
    assert!(matches!(Builder::new(w, &sources), Err(GraphError::CircularImport { .. })));
}
