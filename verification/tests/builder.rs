use lib::builder::{BuildInputs, BuildStep, Builder};
use lib::load_config;
use lib::lock::LockFile;
use lib::project::Workspace;
use lib::resolver::ResolvedDependecy;

fn s(x: &str) -> String {
    x.to_string()
}

fn describe(step: &BuildStep) -> String {
    match step {
        BuildStep::GenerateStub { module, source, stub } => format!("gen {} {} {}", module, source, stub),
        BuildStep::Compile { file, object, stubs } => format!("compile {} {} [{}]", file, object, stubs.join(",")),
        BuildStep::Skip { file } => format!("skip {}", file),
        BuildStep::PublishStub { module, source, stub } => format!("publish {} {} {}", module, source, stub),
        BuildStep::Archive { output, objects } => format!("archive {} [{}]", output, objects.join(",")),
        BuildStep::Link { output, objects, script } => {
            format!("link {} [{}] {:?}", output, objects.join(","), script)
        }
        BuildStep::Check { file, stubs } => format!("check {} [{}]", file, stubs.join(",")),
    }
}

fn builder(extra: &str) -> Builder {
    let text = format!(
        "[project]\nname = \"demo\"\nversion = \"1\"\nentry = \"src/main.unn\"\n{}",
        extra
    );
    let config = load_config(text.chars().collect()).unwrap();
    let w = Workspace::build(config, Ok(vec![s("src/main.unn"), s("src/io.unn")]), true).unwrap();
    let sources = vec![Some(s("import io\n")), Some(s("module io\n"))];
    Builder::new(w, &sources).unwrap()
}

fn inputs(io_hash: &str, stubs: Vec<String>) -> BuildInputs {
    BuildInputs {
        stems: vec![s("io"), s("main")],
        hashes: vec![Some(s(io_hash)), Some(s("b2"))],
        existing_stubs: stubs,
        obj_ext: s(".o"),
        exe_ext: s(""),
        entry_stem: s("main"),
        dependencies: vec![],
    }
}

fn plan(b: &Builder, lock: LockFile, i: &BuildInputs) -> (Vec<String>, LockFile) {
    let (steps, lock) = b.plan(lock, i);
    (steps.iter().map(describe).collect(), lock)
}

#[test]
fn first_build_compiles_everything_and_links() {
    let b = builder("mode = executable\n[link]\nc = [\"m\", \"SDL2\"]\n");
    let (steps, lock) = plan(&b, LockFile::new(), &inputs("a1", vec![]));
    assert_eq!(
        steps,
        vec![
            s("compile src/io.unn objs/io.o []"),
            s("gen io src/io.unn stubs/io.stub"),
            s("compile src/main.unn objs/main.o [stubs/io.stub]"),
            s("publish io src/io.unn stubs/io.stub"),
            s("publish main src/main.unn stubs/main.stub"),
            s("link build/demo [objs/main.o,objs/io.o,m,SDL2] None"),
        ]
    );
    assert_eq!(lock.render(), "module io src/io.unn a1\nmodule main src/main.unn b2 io\n");
}

#[test]
fn unchanged_files_are_skipped() {
    let b = builder("mode = executable\nscript = \"k.ld\"\n");
    let (_, lock) = plan(&b, LockFile::new(), &inputs("a1", vec![]));
    let stubs = vec![s("stubs/io.stub"), s("stubs/main.stub")];
    let (steps, lock2) = plan(&b, lock, &inputs("a1", stubs));
    assert_eq!(
        steps,
        vec![
            s("skip src/io.unn"),
            s("skip src/main.unn"),
            s("link build/demo [objs/main.o,objs/io.o] Some(\"k.ld\")"),
        ]
    );
    assert_eq!(lock2.render(), "module io src/io.unn a1\nmodule main src/main.unn b2 io\n");
}

#[test]
fn a_changed_import_makes_its_importers_dirty() {
    let b = builder("mode = executable\n");
    let (_, lock) = plan(&b, LockFile::new(), &inputs("a1", vec![]));
    let stubs = vec![s("stubs/io.stub"), s("stubs/main.stub")];
    let (steps, lock2) = plan(&b, lock, &inputs("ff", stubs));
    assert_eq!(
        steps,
        vec![
            s("compile src/io.unn objs/io.o []"),
            s("gen io src/io.unn stubs/io.stub"),
            s("compile src/main.unn objs/main.o [stubs/io.stub]"),
            s("publish io src/io.unn stubs/io.stub"),
            s("publish main src/main.unn stubs/main.stub"),
            s("link build/demo [objs/main.o,objs/io.o] None"),
        ]
    );
    assert_eq!(lock2.render(), "module io src/io.unn ff\nmodule main src/main.unn b2 io\n");
}

#[test]
fn static_project_is_archived() {
    let b = builder("mode = static\n");
    let (steps, _) = plan(&b, LockFile::new(), &inputs("a1", vec![]));
    assert_eq!(steps.last().unwrap(), "archive build/demo.a [objs/io.o,objs/main.o]");
}

#[test]
fn object_project_is_neither_archived_nor_linked() {
    let b = builder("mode = obj\n");
    let (steps, _) = plan(&b, LockFile::new(), &inputs("a1", vec![]));
    assert_eq!(steps.len(), 5);
    assert_eq!(steps.last().unwrap(), "publish main src/main.unn stubs/main.stub");
}

#[test]
fn check_checks_dirty_files_only() {
    let b = builder("mode = executable\n");
    let steps: Vec<String> = b.check_plan(&LockFile::new(), &inputs("a1", vec![])).iter().map(describe).collect();
    assert_eq!(
        steps,
        vec![
            s("check src/io.unn []"),
            s("gen io src/io.unn stubs/io.stub"),
            s("check src/main.unn [stubs/io.stub]"),
        ]
    );
    let (_, lock) = plan(&b, LockFile::new(), &inputs("a1", vec![]));
    let stubs = vec![s("stubs/io.stub"), s("stubs/main.stub")];
    let steps: Vec<String> = b.check_plan(&lock, &inputs("a1", stubs.clone())).iter().map(describe).collect();
    assert_eq!(steps, vec![s("skip src/io.unn"), s("skip src/main.unn")]);
    let steps: Vec<String> = b.check_plan(&lock, &inputs("a2", stubs)).iter().map(describe).collect();
    assert_eq!(
        steps,
        vec![
            s("check src/io.unn []"),
            s("gen io src/io.unn stubs/io.stub"),
            s("check src/main.unn [stubs/io.stub]"),
        ]
    );
}

#[test]
fn modules_of_other_projects_bring_their_stubs_and_artifacts() {
    let text = "[project]\nname = \"demo\"\nversion = \"1\"\nentry = \"src/main.unn\"\nmode = executable\n";
    let config = load_config(text.chars().collect()).unwrap();
    let w = Workspace::build(config, Ok(vec![s("src/main.unn"), s("src/io.unn")]), true).unwrap();
    let sources = vec![Some(s("import io\nimport fmt\n")), Some(s("module io\n"))];
    let b = Builder::new(w, &sources).unwrap();
    assert_eq!(b.graph.unresolved, vec![s("fmt")]);
    let mut i = inputs("a1", vec![]);
    i.dependencies = vec![(
        s("fmt"),
        ResolvedDependecy { stubs: vec![s("/std/stubs/fmt.stub")], artifacts: vec![s("/std/objs/fmt.o")] },
    )];
    let (steps, _) = plan(&b, LockFile::new(), &i);
    assert_eq!(
        steps,
        vec![
            s("compile src/io.unn objs/io.o []"),
            s("gen io src/io.unn stubs/io.stub"),
            s("compile src/main.unn objs/main.o [stubs/io.stub,/std/stubs/fmt.stub]"),
            s("publish io src/io.unn stubs/io.stub"),
            s("publish main src/main.unn stubs/main.stub"),
            s("link build/demo [objs/main.o,objs/io.o,/std/objs/fmt.o] None"),
        ]
    );
    let checks: Vec<String> = b.check_plan(&LockFile::new(), &i).iter().map(describe).collect();
    assert_eq!(checks[2], "check src/main.unn [stubs/io.stub,/std/stubs/fmt.stub]");
}
