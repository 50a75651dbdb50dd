use lib::load_config;
use lib::resolver::{find_artifacts, ResolveAction, Resolver};

fn s(x: &str) -> String {
    x.to_string()
}

fn config(extra: &str) -> lib::config::Config {
    let text = format!("[project]\nname = demo\nversion = \"1\"\nmode = obj\n{}", extra);
    load_config(text.chars().collect()).unwrap()
}

#[test]
fn search_visits_std_then_dependencies_depth_first() {
    let cfg = config("[dependencies]\na = \"../a\"\nb = \"../b\"\n");
    let mut r = Resolver::new();
    let (mut search, action) = r.resolve_project(&s("m"), &cfg, Some(s("/opt/unn/std")));
    assert!(matches!(&action, ResolveAction::Canonicalize(p) if p == "/opt/unn/std"));
    assert!(matches!(r.on_canonical(&mut search, s("/opt/unn/std")), ResolveAction::Load(p) if p == "/opt/unn/std"));
    // std has no stub for m and no dependencies: next is ../a
    let a = r.on_loaded(&mut search, None, vec![], vec![]);
    assert!(matches!(&a, ResolveAction::Canonicalize(p) if p == "../a"));
    assert!(matches!(r.on_canonical(&mut search, s("/w/a")), ResolveAction::Load(p) if p == "../a"));
    // ../a depends on ../c, which comes before ../b
    let a = r.on_loaded(&mut search, None, vec![], vec![s("../c")]);
    assert!(matches!(&a, ResolveAction::Canonicalize(p) if p == "../c"));
    // ../c is the same project as ../a: skipped
    let a = r.on_canonical(&mut search, s("/w/a"));
    assert!(matches!(&a, ResolveAction::Canonicalize(p) if p == "../b"));
    assert!(matches!(r.on_canonical(&mut search, s("/w/b")), ResolveAction::Load(p) if p == "../b"));
    let done = r.on_loaded(&mut search, Some(s("../b/stubs/m.stub")), vec![s("../b/build/libb.a")], vec![]);
    assert!(matches!(done, ResolveAction::Done(true)));
    let dep = r.get(&s("m")).unwrap();
    assert_eq!(dep.stubs, vec![s("../b/stubs/m.stub")]);
    assert_eq!(dep.artifacts, vec![s("../b/build/libb.a")]);
    // resolved before: done at once
    let (_, action) = r.resolve_project(&s("m"), &cfg, None);
    assert!(matches!(action, ResolveAction::Done(true)));
}

#[test]
fn freestanding_skips_std_and_nothing_found() {
    let cfg = config("freestanding = true\n");
    let mut r = Resolver::new();
    let (_, action) = r.resolve_project(&s("m"), &cfg, Some(s("/opt/unn/std")));
    assert!(matches!(action, ResolveAction::Done(false)));
    assert!(r.get(&s("m")).is_none());
}

#[test]
fn artifacts_are_objects_then_libraries() {
    let objs = vec![
        (s("d/objs/a.o"), Some(s("o"))),
        (s("d/objs/notes"), None),
        (s("d/objs/b.obj"), Some(s("obj"))),
        (s("d/objs/c.a"), Some(s("a"))),
    ];
    let build = vec![
        (s("d/build/lib.so"), Some(s("so"))),
        (s("d/build/app"), None),
        (s("d/build/x.o"), Some(s("o"))),
        (s("d/build/lib.a"), Some(s("a"))),
    ];
    assert_eq!(
        find_artifacts(&objs, &build),
        vec![s("d/objs/a.o"), s("d/objs/b.obj"), s("d/build/lib.so"), s("d/build/lib.a")]
    );
    assert!(find_artifacts(&vec![], &vec![]).is_empty());
}

#[test]
fn each_search_looks_at_every_project_again() {
    let cfg = config("freestanding = true\n[dependencies]\nx = \"../x\"\n");
    let mut r = Resolver::new();
    let (mut search, action) = r.resolve_project(&s("a"), &cfg, None);
    assert!(matches!(&action, ResolveAction::Canonicalize(p) if p == "../x"));
    assert!(matches!(r.on_canonical(&mut search, s("/w/x")), ResolveAction::Load(_)));
    let done = r.on_loaded(&mut search, Some(s("../x/stubs/a.stub")), vec![], vec![]);
    assert!(matches!(done, ResolveAction::Done(true)));
    // a search for another module loads ../x again
    let (mut search, action) = r.resolve_project(&s("b"), &cfg, None);
    assert!(matches!(&action, ResolveAction::Canonicalize(p) if p == "../x"));
    assert!(matches!(r.on_canonical(&mut search, s("/w/x")), ResolveAction::Load(p) if p == "../x"));
    let done = r.on_loaded(&mut search, Some(s("../x/stubs/b.stub")), vec![], vec![]);
    assert!(matches!(done, ResolveAction::Done(true)));
    assert_eq!(r.get(&s("b")).unwrap().stubs, vec![s("../x/stubs/b.stub")]);
}
