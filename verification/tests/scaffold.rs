use lib::config::BuildMode;
use lib::load_config;
use lib::scaffold::{scaffold, ScaffoldStep};

#[test]
fn scaffold_steps() {
    let steps = scaffold(&"demo".to_string());
    assert_eq!(steps.len(), 7);
    assert!(matches!(&steps[0], ScaffoldStep::CreateDir(p) if p == "demo"));
    match &steps[1] {
        ScaffoldStep::WriteFile(p, c) => {
            assert_eq!(p, "demo/belt.lethr");
            assert_eq!(
                c,
                "[project]\nname = \"demo\"\nversion = \"0.1.0\"\nentry = \"src/main.unn\"\nmode = executable\n"
            );
        }
        other => panic!("{:?}", other),
    }
    let dirs: Vec<&str> = steps[2..6]
        .iter()
        .map(|st| match st {
            ScaffoldStep::CreateDirAll(p) => p.as_str(),
            other => panic!("{:?}", other),
        })
        .collect();
    assert_eq!(dirs, vec!["demo/src", "demo/stubs", "demo/objs", "demo/build"]);
    match &steps[6] {
        ScaffoldStep::WriteFile(p, c) => {
            assert_eq!(p, "demo/src/main.unn");
            assert_eq!(c, "\n    func main:void{\n        trace \"Hello world! \"\n    }\n    ");
        }
        other => panic!("{:?}", other),
    }
}

#[test]
fn scaffolded_configuration_reads_back() {
    let steps = scaffold(&"myproject".to_string());
    let text = match &steps[1] {
        ScaffoldStep::WriteFile(_, c) => c.clone(),
        other => panic!("{:?}", other),
    };
    let cfg = load_config(text.chars().collect()).unwrap();
    assert_eq!(cfg.project.name, "myproject");
    assert_eq!(cfg.project.version, "0.1.0");
    assert_eq!(cfg.project.entry.as_deref(), Some("src/main.unn"));
    assert_eq!(cfg.project.mode, BuildMode::Executable);
    assert_eq!(cfg.layout.src, "src");
}
