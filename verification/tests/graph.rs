use lib::graph::{build_module_map, get_imports, get_module_name, Graph, GraphError};
use lib::topo::{topological_order, TopoError};

fn s(x: &str) -> String {
    x.to_string()
}

#[test]
fn module_name_is_read_from_the_top() {
    assert_eq!(get_module_name("module math\nimport io\n"), Some(s("math")));
    assert_eq!(get_module_name("\n   \n  module   spaced name  \r\n"), Some(s("spaced name")));
    assert_eq!(get_module_name("func main:void{}\nmodule late\n"), None);
    assert_eq!(get_module_name(""), None);
    // a `module` line without a space does not name a module; the search goes on
    assert_eq!(get_module_name("module\nmodule real\n"), Some(s("real")));
}

#[test]
fn imports_are_collected_in_order() {
    assert_eq!(get_imports("module a\nimport b\nimport  c \nfunc f:void{}\nimport d\n"), vec![s("b"), s("c"), s("d")]);
    assert_eq!(get_imports("import x\nimport\nimport y\n"), vec![s("x")]);
    assert!(get_imports("").is_empty());
}

#[test]
fn module_map_and_duplicates() {
    let files = vec![s("a.unn"), s("b.unn"), s("c.unn")];
    let sources = vec![Some(s("module a\n")), None, Some(s("module c\n"))];
    let map = build_module_map(&files, &sources).unwrap();
    assert_eq!(map, vec![(s("a"), s("a.unn")), (s("c"), s("c.unn"))]);

    let sources = vec![Some(s("module a\n")), Some(s("module b\n")), Some(s("module a\n"))];
    match build_module_map(&files, &sources) {
        Err(GraphError::DuplicateModule { name, file }) => {
            assert_eq!(name, "a");
            assert_eq!(file, "c.unn");
        }
        other => panic!("{:?}", other),
    }
}

#[test]
fn compile_order_puts_imports_first() {
    let files = vec![s("main.unn"), s("b.unn"), s("c.unn")];
    let sources = vec![
        Some(s("import b\nimport c\n")),
        Some(s("module b\nimport c\n")),
        Some(s("module c\n")),
    ];
    let g = Graph::build(&files, &sources).unwrap();
    assert_eq!(g.compile_order, vec![s("c.unn"), s("b.unn"), s("main.unn")]);
    assert_eq!(g.dependecies[0], (s("main.unn"), vec![s("b"), s("c")]));
    assert_eq!(g.module_map, vec![(s("b"), s("b.unn")), (s("c"), s("c.unn"))]);
}

#[test]
fn every_file_appears_once_even_when_listed_twice() {
    let files = vec![s("x.unn"), s("y.unn"), s("x.unn")];
    let sources = vec![Some(s("import m\n")), Some(s("module m\n")), Some(s("import m\n"))];
    let g = Graph::build(&files, &sources).unwrap();
    assert_eq!(g.compile_order, vec![s("y.unn"), s("x.unn")]);
    assert_eq!(g.dependecies.len(), 2);
}

#[test]
fn undeclared_modules_are_left_unresolved() {
    let files = vec![s("main.unn"), s("io.unn")];
    let sources = vec![
        Some(s("import ghost\nimport io\nimport std_fmt\n")),
        Some(s("module io\nimport std_fmt\nimport ghost\n")),
    ];
    let g = Graph::build(&files, &sources).unwrap();
    assert_eq!(g.compile_order, vec![s("io.unn"), s("main.unn")]);
    assert_eq!(g.unresolved, vec![s("ghost"), s("std_fmt")]);
}

#[test]
fn circular_import_is_reported() {
    let files = vec![s("a.unn"), s("b.unn")];
    let sources = vec![Some(s("module a\nimport b\n")), Some(s("module b\nimport a\n"))];
    match Graph::build(&files, &sources) {
        Err(GraphError::CircularImport { file }) => assert_eq!(file, "a.unn"),
        other => panic!("{:?}", other),
    }
    let files = vec![s("self.unn")];
    let sources = vec![Some(s("module me\nimport me\n"))];
    assert!(matches!(Graph::build(&files, &sources), Err(GraphError::CircularImport { .. })));
}

#[test]
fn index_order_and_failures() {
    let adj = vec![vec![Some(1), Some(2)], vec![Some(2)], vec![]];
    assert_eq!(topological_order(&adj).unwrap(), vec![2, 1, 0]);
    let adj = vec![vec![Some(1)], vec![Some(0)]];
    assert_eq!(topological_order(&adj).unwrap_err(), TopoError::Cycle(0));
    // a need from outside the graph is passed over
    let adj = vec![vec![Some(1), None], vec![None]];
    assert_eq!(topological_order(&adj).unwrap(), vec![1, 0]);
}

#[test]
fn search_follows_the_files_and_their_imports_in_order() {
    let files = vec![s("main.unn"), s("a.unn"), s("b.unn")];
    let sources = vec![Some(s("import b\nimport a\n")), Some(s("module a\n")), Some(s("module b\n"))];
    let g = Graph::build(&files, &sources).unwrap();
    assert_eq!(g.compile_order, vec![s("b.unn"), s("a.unn"), s("main.unn")]);
}

#[test]
fn cycle_is_reported_past_undeclared_modules() {
    // x needs y; y needs x again
    let files = vec![s("x.unn"), s("y.unn")];
    let sources = vec![Some(s("module x\nimport y\nimport zzz\n")), Some(s("module y\nimport x\n"))];
    match Graph::build(&files, &sources) {
        Err(GraphError::CircularImport { file }) => assert_eq!(file, "x.unn"),
        other => panic!("{:?}", other),
    }
    // an undeclared module is passed over; the cycle is still found
    let sources = vec![Some(s("module x\nimport zzz\nimport y\n")), Some(s("module y\nimport x\n"))];
    match Graph::build(&files, &sources) {
        Err(GraphError::CircularImport { file }) => assert_eq!(file, "x.unn"),
        other => panic!("{:?}", other),
    }
}
