//! `belt new`: the folders and files of a fresh project.
use vstd::prelude::*;

use crate::config::{Layout, default_layout, default_layout_value};
use crate::text::{push_str, push_string};

verus! {

/// One step of creating a project, to be carried out in order.
#[derive(Debug)]
pub enum ScaffoldStep {
    /// Create a folder; it must not exist yet.
    CreateDir(String),
    /// Create a folder and any missing parents.
    CreateDirAll(String),
    /// Create (or truncate) a file with the given contents.
    WriteFile(String, String),
}

pub enum ScaffoldStepView {
    CreateDir(Seq<char>),
    CreateDirAll(Seq<char>),
    WriteFile(Seq<char>, Seq<char>),
}

impl View for ScaffoldStep {
    type V = ScaffoldStepView;

    open spec fn view(&self) -> ScaffoldStepView {
        match self {
            ScaffoldStep::CreateDir(p) => ScaffoldStepView::CreateDir(p@),
            ScaffoldStep::CreateDirAll(p) => ScaffoldStepView::CreateDirAll(p@),
            ScaffoldStep::WriteFile(p, c) => ScaffoldStepView::WriteFile(p@, c@),
        }
    }
}

/// `dir/name`.
pub open spec fn join_path(dir: Seq<char>, name: Seq<char>) -> Seq<char> {
    dir + seq!['/'] + name
}

/// The `belt.lethr` of a fresh project.
pub open spec fn lethr_text(name: Seq<char>) -> Seq<char> {
    "[project]\nname = \""@ + name + "\"\nversion = \"0.1.0\"\nentry = \"src/main.unn\"\nmode = executable\n"@
}

/// The `main.unn` of a fresh project.
pub open spec fn example_text() -> Seq<char> {
    "\n    func main:void{\n        trace \"Hello world! \"\n    }\n    "@
}

/// The steps that create a project named `name` with the given layout.
pub open spec fn project_steps(name: Seq<char>, layout: crate::config::LayoutView) -> Seq<ScaffoldStepView> {
    seq![
        ScaffoldStepView::CreateDir(name),
        ScaffoldStepView::WriteFile(join_path(name, "belt.lethr"@), lethr_text(name)),
        ScaffoldStepView::CreateDirAll(join_path(name, layout.src)),
        ScaffoldStepView::CreateDirAll(join_path(name, layout.stubs)),
        ScaffoldStepView::CreateDirAll(join_path(name, layout.objs)),
        ScaffoldStepView::CreateDirAll(join_path(name, layout.build)),
        ScaffoldStepView::WriteFile(join_path(join_path(name, layout.src), "main.unn"@), example_text()),
    ]
}

fn join(dir: &String, name: &str) -> (p: String)
    ensures
        p@ == join_path(dir@, name@),
{
    let mut p = String::new();
    push_string(&mut p, dir);
    push_str(&mut p, "/");
    push_str(&mut p, name);
    proof {
        reveal_strlit("/");
    }
    assert(p@ =~= join_path(dir@, name@));
    p
}

fn create_lethr(project_name: &String) -> (step: ScaffoldStep)
    ensures
        step@ == ScaffoldStepView::WriteFile(join_path(project_name@, "belt.lethr"@), lethr_text(project_name@)),
{
    let path = join(project_name, "belt.lethr");
    let mut text = String::new();
    push_str(&mut text, "[project]\nname = \"");
    push_string(&mut text, project_name);
    push_str(&mut text, "\"\nversion = \"0.1.0\"\nentry = \"src/main.unn\"\nmode = executable\n");
    ScaffoldStep::WriteFile(path, text)
}

fn create_example(path: &String) -> (step: ScaffoldStep)
    ensures
        step@ == ScaffoldStepView::WriteFile(join_path(path@, "main.unn"@), example_text()),
{
    let full_path = join(path, "main.unn");
    let mut text = String::new();
    push_str(&mut text, "\n    func main:void{\n        trace \"Hello world! \"\n    }\n    ");
    ScaffoldStep::WriteFile(full_path, text)
}

fn create_project(project_name: &String, layout: &Layout) -> (steps: Vec<ScaffoldStep>)
    ensures
        steps@.map_values(|s: ScaffoldStep| s@) == project_steps(project_name@, layout@),
{
    let mut steps: Vec<ScaffoldStep> = Vec::new();
    steps.push(ScaffoldStep::CreateDir(project_name.clone()));
    steps.push(create_lethr(project_name));
    let src = join(project_name, layout.src.as_str());
    let stubs = join(project_name, layout.stubs.as_str());
    let objs = join(project_name, layout.objs.as_str());
    let build = join(project_name, layout.build.as_str());
    let example = create_example(&src);
    steps.push(ScaffoldStep::CreateDirAll(src));
    steps.push(ScaffoldStep::CreateDirAll(stubs));
    steps.push(ScaffoldStep::CreateDirAll(objs));
    steps.push(ScaffoldStep::CreateDirAll(build));
    steps.push(example);
    assert(steps@.map_values(|s: ScaffoldStep| s@) =~= project_steps(project_name@, layout@));
    steps
}

/// The steps of `belt new <project_name>`: the project folder, its `belt.lethr`,
/// the default folders, and a `main.unn` that prints a greeting.
pub fn scaffold(project_name: &String) -> (steps: Vec<ScaffoldStep>)
    ensures
        steps@.map_values(|s: ScaffoldStep| s@) == project_steps(project_name@, default_layout()),
{
    let layout = default_layout_value();
    create_project(project_name, &layout)
}

} // verus!
