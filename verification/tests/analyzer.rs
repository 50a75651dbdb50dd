use lib::config::{BuildMode, FreeStanding};
use lib::leather::analyzer::{SemanticError, Semantics};
use lib::leather::lexer::Lexer;
use lib::leather::parser::Parser;
use lib::{load_config, ConfigError};

fn analyze(src: &str) -> Result<lib::config::Config, SemanticError> {
    let mut lexer = Lexer::new();
    lexer.load(src.chars().collect());
    lexer.generate().unwrap();
    let mut parser = Parser::new();
    parser.load(lexer.get_tokens());
    let ast = parser.parse().unwrap();
    Semantics::new(ast).analyze()
}

const PROJECT: &str = "[project]\nname = \"demo\"\nversion = \"0.1.0\"\nentry = \"src/main.unn\"\nmode = executable\n";

#[test]
fn minimal_project_uses_default_layout() {
    let cfg = analyze(PROJECT).unwrap();
    assert_eq!(cfg.project.name, "demo");
    assert_eq!(cfg.project.version, "0.1.0");
    assert_eq!(cfg.project.entry.as_deref(), Some("src/main.unn"));
    assert_eq!(cfg.project.mode, BuildMode::Executable);
    assert_eq!(cfg.project.freestanding, FreeStanding::False);
    assert_eq!(cfg.project.target, None);
    assert_eq!(cfg.project.script, None);
    assert_eq!(
        (cfg.layout.src.as_str(), cfg.layout.stubs.as_str(), cfg.layout.objs.as_str(), cfg.layout.build.as_str()),
        ("src", "stubs", "objs", "build")
    );
    assert!(cfg.dependecies.is_none());
    assert!(cfg.link.is_none());
    assert!(cfg.commands.is_none());
}

#[test]
fn partial_layout_keeps_other_defaults() {
    let cfg = analyze(&format!("{}[layout]\nsrc = \"code\"\nbuild = out\n", PROJECT)).unwrap();
    assert_eq!(cfg.layout.src, "code");
    assert_eq!(cfg.layout.stubs, "stubs");
    assert_eq!(cfg.layout.objs, "objs");
    assert_eq!(cfg.layout.build, "out");
}

#[test]
fn modes() {
    for (text, mode) in [("executable", BuildMode::Executable), ("static", BuildMode::Static), ("obj", BuildMode::Object)] {
        let src = format!("[project]\nname = a\nversion = \"1\"\nmode = {}\n", text);
        assert_eq!(analyze(&src).unwrap().project.mode, mode);
    }
}

#[test]
fn invalid_mode() {
    match analyze("[project]\nname = a\nversion = b\nmode = \"shared\"\n") {
        Err(SemanticError::InvalidMode(v)) => assert_eq!(v, "shared"),
        other => panic!("{:?}", other),
    }
}

#[test]
fn freestanding_target_and_script() {
    let cfg = analyze("[project]\nname = os\nversion = \"0.1\"\nmode = executable\nentry = \"k.unn\"\ntarget = \"x86_64-unknown-none\"\nfreestanding = true\nscript = \"scripts/kernel.ld\"\n").unwrap();
    assert_eq!(cfg.project.freestanding, FreeStanding::True);
    assert_eq!(cfg.project.target.as_deref(), Some("x86_64-unknown-none"));
    assert_eq!(cfg.project.script.as_deref(), Some("scripts/kernel.ld"));
}

#[test]
fn invalid_freestanding() {
    match analyze("[project]\nname = a\nversion = b\nmode = obj\nfreestanding = yes\n") {
        Err(SemanticError::InvalidFreestanding(v)) => assert_eq!(v, "yes"),
        other => panic!("{:?}", other),
    }
}

#[test]
fn missing_fields() {
    assert!(matches!(analyze("[project]\nversion = \"1\"\nmode = obj\n"), Err(SemanticError::MissingName)));
    assert!(matches!(analyze("[project]\nname = a\nmode = obj\n"), Err(SemanticError::MissingVersion)));
    assert!(matches!(analyze("[project]\nname = a\nversion = b\n"), Err(SemanticError::MissingMode)));
    assert!(matches!(analyze("[layout]\nsrc = \"x\"\n"), Err(SemanticError::MissingProject)));
}

#[test]
fn key_errors() {
    assert!(matches!(analyze("[project]\nfoo = \"x\"\n"), Err(SemanticError::ExpectedKeywordKey)));
    assert!(matches!(analyze("[project]\nlink = \"x\"\n"), Err(SemanticError::UnknownProjectKey)));
    assert!(matches!(analyze("[project]\nname = [\"x\"]\n"), Err(SemanticError::ExpectedString)));
    assert!(matches!(analyze(&format!("{}[layout]\nname = \"x\"\n", PROJECT)), Err(SemanticError::ExpectedIdentifierKey)));
    assert!(matches!(analyze(&format!("{}[layout]\nlib = \"x\"\n", PROJECT)), Err(SemanticError::UnknownLayoutKey)));
}

#[test]
fn dependencies_links_and_commands() {
    let cfg = analyze(&format!(
        "{}[dependencies]\nmylib = \"../mylib\"\n[link]\nc = [\"pthread\", \"SDL2\"]\n[commands]\nqemu = \"qemu-system-x86_64 -kernel build/myos.elf\"\n",
        PROJECT
    ))
    .unwrap();
    assert_eq!(cfg.dependecies.unwrap().deps, vec![("mylib".to_string(), "../mylib".to_string())]);
    assert_eq!(
        cfg.link.unwrap().links,
        vec![("c".to_string(), vec!["pthread".to_string(), "SDL2".to_string()])]
    );
    assert_eq!(
        cfg.commands.unwrap().commands,
        vec![("qemu".to_string(), "qemu-system-x86_64 -kernel build/myos.elf".to_string())]
    );
}

#[test]
fn link_values_must_be_arrays_of_words() {
    assert!(matches!(analyze(&format!("{}[link]\nc = \"m\"\n", PROJECT)), Err(SemanticError::ExpectedArray)));
    assert!(matches!(analyze(&format!("{}[link]\nc = [[\"m\"]]\n", PROJECT)), Err(SemanticError::ExpectedString)));
}

#[test]
fn later_values_replace_earlier_ones() {
    let cfg = analyze("[project]\nname = a\nname = b\nversion = \"1\"\nmode = obj\n[project]\nname = c\nversion = \"2\"\nmode = static\n").unwrap();
    assert_eq!(cfg.project.name, "c");
    assert_eq!(cfg.project.mode, BuildMode::Static);
}

#[test]
fn load_config_runs_the_whole_front_end() {
    let cfg = load_config(PROJECT.chars().collect()).unwrap();
    assert_eq!(cfg.project.name, "demo");
    assert!(matches!(load_config("## open".chars().collect()), Err(ConfigError::Lex(_))));
    assert!(matches!(load_config("name".chars().collect()), Err(ConfigError::Parse(_))));
    assert!(matches!(load_config("[layout]\n".chars().collect()), Err(ConfigError::Semantic(SemanticError::MissingProject))));
}
