//! The build configuration that the Leather analyzer produces from `belt.lethr`.
use vstd::prelude::*;

verus! {

/// What the build produces: an executable, a static archive, or object files only.
#[derive(Debug, Clone, Copy, PartialEq, Eq, Structural)]
pub enum BuildMode {
    Executable,
    Static,
    Object,
}

/// Whether the project is built without the standard library.
#[derive(Debug, Clone, Copy, PartialEq, Eq, Structural)]
pub enum FreeStanding {
    True,
    False,
}

/// The `[project]` section.
#[derive(Debug)]
pub struct Project {
    pub name: String,
    pub version: String,
    pub entry: Option<String>,
    pub mode: BuildMode,
    pub target: Option<String>,
    pub freestanding: FreeStanding,
    pub script: Option<String>,
}

/// The `[layout]` section, with every folder filled in.
#[derive(Debug)]
pub struct Layout {
    pub src: String,
    pub stubs: String,
    pub objs: String,
    pub build: String,
}

/// The `[dependencies]` section: local projects, as (name, path) pairs in file order.
#[derive(Debug)]
pub struct Dependecies {
    pub deps: Vec<(String, String)>,
}

/// The `[link]` section: (name, libraries) pairs in file order.
#[derive(Debug)]
pub struct Link {
    pub links: Vec<(String, Vec<String>)>,
}

/// The `[commands]` section: user commands, as (name, command line) pairs in file order.
#[derive(Debug)]
pub struct Commands {
    pub commands: Vec<(String, String)>,
}

/// A whole `belt.lethr` file.
#[derive(Debug)]
pub struct Config {
    pub project: Project,
    pub layout: Layout,
    pub dependecies: Option<Dependecies>,
    pub link: Option<Link>,
    pub commands: Option<Commands>,
}

/// The mathematical content of a [`Project`].
pub struct ProjectView {
    pub name: Seq<char>,
    pub version: Seq<char>,
    pub entry: Option<Seq<char>>,
    pub mode: BuildMode,
    pub target: Option<Seq<char>>,
    pub freestanding: FreeStanding,
    pub script: Option<Seq<char>>,
}

/// The mathematical content of a [`Layout`].
pub struct LayoutView {
    pub src: Seq<char>,
    pub stubs: Seq<char>,
    pub objs: Seq<char>,
    pub build: Seq<char>,
}

/// The mathematical content of a [`Config`].
pub struct ConfigView {
    pub project: ProjectView,
    pub layout: LayoutView,
    pub dependecies: Option<Seq<(Seq<char>, Seq<char>)>>,
    pub link: Option<Seq<(Seq<char>, Seq<Seq<char>>)>>,
    pub commands: Option<Seq<(Seq<char>, Seq<char>)>>,
}

impl View for Project {
    type V = ProjectView;

    open spec fn view(&self) -> ProjectView {
        ProjectView {
            name: self.name@,
            version: self.version@,
            entry: self.entry.deep_view(),
            mode: self.mode,
            target: self.target.deep_view(),
            freestanding: self.freestanding,
            script: self.script.deep_view(),
        }
    }
}

impl View for Layout {
    type V = LayoutView;

    open spec fn view(&self) -> LayoutView {
        LayoutView { src: self.src@, stubs: self.stubs@, objs: self.objs@, build: self.build@ }
    }
}

impl View for Config {
    type V = ConfigView;

    open spec fn view(&self) -> ConfigView {
        ConfigView {
            project: self.project@,
            layout: self.layout@,
            dependecies: match &self.dependecies {
                Some(d) => Some(d.deps.deep_view()),
                None => None,
            },
            link: match &self.link {
                Some(l) => Some(l.links.deep_view()),
                None => None,
            },
            commands: match &self.commands {
                Some(c) => Some(c.commands.deep_view()),
                None => None,
            },
        }
    }
}

/// The folders that `belt` uses when `[layout]` does not name them.
pub open spec fn default_layout() -> LayoutView {
    LayoutView {
        src: seq!['s', 'r', 'c'],
        stubs: seq!['s', 't', 'u', 'b', 's'],
        objs: seq!['o', 'b', 'j', 's'],
        build: seq!['b', 'u', 'i', 'l', 'd'],
    }
}

/// A [`Layout`] holding the default folders.
pub fn default_layout_value() -> (l: Layout)
    ensures
        l@ == default_layout(),
{
    Layout {
        src: crate::text::string_from_chars(&['s', 'r', 'c']),
        stubs: crate::text::string_from_chars(&['s', 't', 'u', 'b', 's']),
        objs: crate::text::string_from_chars(&['o', 'b', 'j', 's']),
        build: crate::text::string_from_chars(&['b', 'u', 'i', 'l', 'd']),
    }
}

} // verus!
