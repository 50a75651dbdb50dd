//! The Leather analyzer: checks the sections of a parsed file and builds the [`Config`].
use vstd::prelude::*;

use crate::config::{
    BuildMode, Commands, Config as BeltConfig, ConfigView, Dependecies, FreeStanding, Layout,
    LayoutView, Link, Project, ProjectView, default_layout, default_layout_value,
};
use crate::leather::lexer::TokenType;
use crate::leather::parser::{
    Config as AstConfig, ExprView, Expression, Section, SectionView, Variable, VariableView,
    config_view, expr_view, exprs_view, lemma_exprs_view, section_view, variable_view,
};
use crate::text::{chars_eq, str_chars};

verus! {

/// Why a parsed file is not a valid configuration.
#[derive(Debug)]
pub enum SemanticError {
    /// A value had to be a single word or string and was an array.
    ExpectedString,
    /// A value had to be an array.
    ExpectedArray,
    /// A key in `[project]` is not a keyword.
    ExpectedKeywordKey,
    /// `mode` is none of `executable`, `static`, `obj`.
    InvalidMode(String),
    /// `freestanding` is neither `true` nor `false`.
    InvalidFreestanding(String),
    /// A keyword that `[project]` does not take.
    UnknownProjectKey,
    /// A key in `[layout]` is not an identifier.
    ExpectedIdentifierKey,
    /// A key that `[layout]` does not take.
    UnknownLayoutKey,
    /// `[project]` has no `name`.
    MissingName,
    /// `[project]` has no `version`.
    MissingVersion,
    /// `[project]` has no `mode`.
    MissingMode,
    /// A section that the analyzer does not know.
    UnknownSection,
    /// The file has no `[project]` section.
    MissingProject,
}

/// The mathematical content of a [`SemanticError`].
pub enum SemanticErrorView {
    ExpectedString,
    ExpectedArray,
    ExpectedKeywordKey,
    InvalidMode(Seq<char>),
    InvalidFreestanding(Seq<char>),
    UnknownProjectKey,
    ExpectedIdentifierKey,
    UnknownLayoutKey,
    MissingName,
    MissingVersion,
    MissingMode,
    UnknownSection,
    MissingProject,
}

impl View for SemanticError {
    type V = SemanticErrorView;

    open spec fn view(&self) -> SemanticErrorView {
        match self {
            SemanticError::ExpectedString => SemanticErrorView::ExpectedString,
            SemanticError::ExpectedArray => SemanticErrorView::ExpectedArray,
            SemanticError::ExpectedKeywordKey => SemanticErrorView::ExpectedKeywordKey,
            SemanticError::InvalidMode(v) => SemanticErrorView::InvalidMode(v@),
            SemanticError::InvalidFreestanding(v) => SemanticErrorView::InvalidFreestanding(v@),
            SemanticError::UnknownProjectKey => SemanticErrorView::UnknownProjectKey,
            SemanticError::ExpectedIdentifierKey => SemanticErrorView::ExpectedIdentifierKey,
            SemanticError::UnknownLayoutKey => SemanticErrorView::UnknownLayoutKey,
            SemanticError::MissingName => SemanticErrorView::MissingName,
            SemanticError::MissingVersion => SemanticErrorView::MissingVersion,
            SemanticError::MissingMode => SemanticErrorView::MissingMode,
            SemanticError::UnknownSection => SemanticErrorView::UnknownSection,
            SemanticError::MissingProject => SemanticErrorView::MissingProject,
        }
    }
}

pub type SemanticResult<T> = Result<T, SemanticError>;

// ---------------------------------------------------------------------------------------------
// What a file means.

/// The text of a single value; `None` for an array.
pub open spec fn value_text(e: ExprView) -> Option<Seq<char>> {
    match e {
        ExprView::Identifier(t) => Some(t.literal),
        ExprView::Keyword(t) => Some(t.literal),
        ExprView::StringLit(t) => Some(t.literal),
        ExprView::Array(..) => None,
    }
}

/// The texts of an array of single values.
pub open spec fn array_texts(e: ExprView) -> Result<Seq<Seq<char>>, SemanticErrorView> {
    match e {
        ExprView::Array(_, es, _) => {
            if forall|i: int| 0 <= i < es.len() ==> (#[trigger] value_text(es[i])) is Some {
                Ok(es.map_values(|x: ExprView| value_text(x)->0))
            } else {
                Err(SemanticErrorView::ExpectedString)
            }
        },
        _ => Err(SemanticErrorView::ExpectedArray),
    }
}

/// The fields of `[project]` read so far.
pub struct ProjectFields {
    pub name: Option<Seq<char>>,
    pub version: Option<Seq<char>>,
    pub entry: Option<Seq<char>>,
    pub mode: Option<BuildMode>,
    pub target: Option<Seq<char>>,
    pub freestanding: FreeStanding,
    pub script: Option<Seq<char>>,
}

pub open spec fn no_project_fields() -> ProjectFields {
    ProjectFields {
        name: None,
        version: None,
        entry: None,
        mode: None,
        target: None,
        freestanding: FreeStanding::False,
        script: None,
    }
}

/// The mode that a `mode` value names.
pub open spec fn mode_of(s: Seq<char>) -> Option<BuildMode> {
    if s == seq!['e', 'x', 'e', 'c', 'u', 't', 'a', 'b', 'l', 'e'] {
        Some(BuildMode::Executable)
    } else if s == seq!['s', 't', 'a', 't', 'i', 'c'] {
        Some(BuildMode::Static)
    } else if s == seq!['o', 'b', 'j'] {
        Some(BuildMode::Object)
    } else {
        None
    }
}

/// The flag that a `freestanding` value names.
pub open spec fn freestanding_of(s: Seq<char>) -> Option<FreeStanding> {
    if s == seq!['t', 'r', 'u', 'e'] {
        Some(FreeStanding::True)
    } else if s == seq!['f', 'a', 'l', 's', 'e'] {
        Some(FreeStanding::False)
    } else {
        None
    }
}

/// One `[project]` variable read into the fields; a later value replaces an earlier one.
pub open spec fn project_step(f: ProjectFields, v: VariableView) -> Result<ProjectFields, SemanticErrorView> {
    match v.name {
        ExprView::Keyword(key) => match value_text(v.value) {
            None => Err(SemanticErrorView::ExpectedString),
            Some(value) => {
                let k = key.token_type;
                if k == TokenType::Name {
                    Ok(ProjectFields { name: Some(value), ..f })
                } else if k == TokenType::Version {
                    Ok(ProjectFields { version: Some(value), ..f })
                } else if k == TokenType::Entry {
                    Ok(ProjectFields { entry: Some(value), ..f })
                } else if k == TokenType::Mode {
                    match mode_of(value) {
                        Some(m) => Ok(ProjectFields { mode: Some(m), ..f }),
                        None => Err(SemanticErrorView::InvalidMode(value)),
                    }
                } else if k == TokenType::Freestanding {
                    match freestanding_of(value) {
                        Some(b) => Ok(ProjectFields { freestanding: b, ..f }),
                        None => Err(SemanticErrorView::InvalidFreestanding(value)),
                    }
                } else if k == TokenType::Target {
                    Ok(ProjectFields { target: Some(value), ..f })
                } else if k == TokenType::Script {
                    Ok(ProjectFields { script: Some(value), ..f })
                } else {
                    Err(SemanticErrorView::UnknownProjectKey)
                }
            },
        },
        _ => Err(SemanticErrorView::ExpectedKeywordKey),
    }
}

/// The `[project]` variables from index `i` on, read into `f`.
pub open spec fn project_fold(vars: Seq<VariableView>, i: int, f: ProjectFields) -> Result<
    ProjectFields,
    SemanticErrorView,
>
    decreases vars.len() - i,
{
    if i < 0 || i >= vars.len() {
        Ok(f)
    } else {
        match project_step(f, vars[i]) {
            Ok(f2) => project_fold(vars, i + 1, f2),
            Err(e) => Err(e),
        }
    }
}

/// What a `[project]` section means.
pub open spec fn project_meaning(vars: Seq<VariableView>) -> Result<ProjectView, SemanticErrorView> {
    match project_fold(vars, 0, no_project_fields()) {
        Err(e) => Err(e),
        Ok(f) => {
            if f.name is None {
                Err(SemanticErrorView::MissingName)
            } else if f.version is None {
                Err(SemanticErrorView::MissingVersion)
            } else if f.mode is None {
                Err(SemanticErrorView::MissingMode)
            } else {
                Ok(
                    ProjectView {
                        name: f.name->0,
                        version: f.version->0,
                        entry: f.entry,
                        mode: f.mode->0,
                        target: f.target,
                        freestanding: f.freestanding,
                        script: f.script,
                    },
                )
            }
        },
    }
}

/// The `[layout]` folders read so far.
pub struct LayoutFields {
    pub src: Option<Seq<char>>,
    pub stubs: Option<Seq<char>>,
    pub objs: Option<Seq<char>>,
    pub build: Option<Seq<char>>,
}

/// One `[layout]` variable read into the folders.
pub open spec fn layout_step(f: LayoutFields, v: VariableView) -> Result<LayoutFields, SemanticErrorView> {
    match v.name {
        ExprView::Identifier(key) => match value_text(v.value) {
            None => Err(SemanticErrorView::ExpectedString),
            Some(value) => {
                let k = key.literal;
                if k == default_layout().src {
                    Ok(LayoutFields { src: Some(value), ..f })
                } else if k == default_layout().stubs {
                    Ok(LayoutFields { stubs: Some(value), ..f })
                } else if k == default_layout().objs {
                    Ok(LayoutFields { objs: Some(value), ..f })
                } else if k == default_layout().build {
                    Ok(LayoutFields { build: Some(value), ..f })
                } else {
                    Err(SemanticErrorView::UnknownLayoutKey)
                }
            },
        },
        _ => Err(SemanticErrorView::ExpectedIdentifierKey),
    }
}

/// The `[layout]` variables from index `i` on, read into `f`.
pub open spec fn layout_fold(vars: Seq<VariableView>, i: int, f: LayoutFields) -> Result<
    LayoutFields,
    SemanticErrorView,
>
    decreases vars.len() - i,
{
    if i < 0 || i >= vars.len() {
        Ok(f)
    } else {
        match layout_step(f, vars[i]) {
            Ok(f2) => layout_fold(vars, i + 1, f2),
            Err(e) => Err(e),
        }
    }
}

pub open spec fn or_default(o: Option<Seq<char>>, d: Seq<char>) -> Seq<char> {
    match o {
        Some(s) => s,
        None => d,
    }
}

/// What a `[layout]` section means: the folders it names, the default for the others.
pub open spec fn layout_meaning(vars: Seq<VariableView>) -> Result<LayoutView, SemanticErrorView> {
    match layout_fold(vars, 0, LayoutFields { src: None, stubs: None, objs: None, build: None }) {
        Err(e) => Err(e),
        Ok(f) => Ok(
            LayoutView {
                src: or_default(f.src, default_layout().src),
                stubs: or_default(f.stubs, default_layout().stubs),
                objs: or_default(f.objs, default_layout().objs),
                build: or_default(f.build, default_layout().build),
            },
        ),
    }
}

/// Whether every variable has a single value on both sides.
pub open spec fn all_pairs_are_texts(vars: Seq<VariableView>) -> bool {
    forall|i: int|
        0 <= i < vars.len() ==> (#[trigger] value_text(vars[i].name)) is Some && value_text(
            vars[i].value,
        ) is Some
}

/// What a section of `name = "text"` pairs means (`[dependencies]`, `[commands]`).
pub open spec fn pairs_meaning(vars: Seq<VariableView>) -> Result<Seq<(Seq<char>, Seq<char>)>, SemanticErrorView> {
    if all_pairs_are_texts(vars) {
        Ok(vars.map_values(|v: VariableView| (value_text(v.name)->0, value_text(v.value)->0)))
    } else {
        Err(SemanticErrorView::ExpectedString)
    }
}

/// The first error, in file order, of a `[link]` section.
pub open spec fn link_error(vars: Seq<VariableView>) -> Option<SemanticErrorView>
    decreases vars.len(),
{
    if vars.len() == 0 {
        None
    } else if value_text(vars[0].name) is None {
        Some(SemanticErrorView::ExpectedString)
    } else if array_texts(vars[0].value) is Err {
        Some(array_texts(vars[0].value)->Err_0)
    } else {
        link_error(vars.drop_first())
    }
}

/// What a `[link]` section means: each name with its libraries.
pub open spec fn link_meaning(vars: Seq<VariableView>) -> Result<Seq<(Seq<char>, Seq<Seq<char>>)>, SemanticErrorView> {
    match link_error(vars) {
        Some(e) => Err(e),
        None => Ok(vars.map_values(|v: VariableView| (value_text(v.name)->0, array_texts(v.value)->Ok_0))),
    }
}

/// The sections read so far; a later section of the same kind replaces an earlier one.
pub struct Sections {
    pub project: Option<ProjectView>,
    pub layout: Option<LayoutView>,
    pub dependecies: Option<Seq<(Seq<char>, Seq<char>)>>,
    pub link: Option<Seq<(Seq<char>, Seq<Seq<char>>)>>,
    pub commands: Option<Seq<(Seq<char>, Seq<char>)>>,
}

pub open spec fn section_step(acc: Sections, s: SectionView) -> Result<Sections, SemanticErrorView> {
    let k = s.head.token_type;
    if k == TokenType::Project {
        match project_meaning(s.contents) {
            Ok(p) => Ok(Sections { project: Some(p), ..acc }),
            Err(e) => Err(e),
        }
    } else if k == TokenType::Layout {
        match layout_meaning(s.contents) {
            Ok(l) => Ok(Sections { layout: Some(l), ..acc }),
            Err(e) => Err(e),
        }
    } else if k == TokenType::Dependecies {
        match pairs_meaning(s.contents) {
            Ok(d) => Ok(Sections { dependecies: Some(d), ..acc }),
            Err(e) => Err(e),
        }
    } else if k == TokenType::Link {
        match link_meaning(s.contents) {
            Ok(l) => Ok(Sections { link: Some(l), ..acc }),
            Err(e) => Err(e),
        }
    } else if k == TokenType::Commands {
        match pairs_meaning(s.contents) {
            Ok(c) => Ok(Sections { commands: Some(c), ..acc }),
            Err(e) => Err(e),
        }
    } else {
        Err(SemanticErrorView::UnknownSection)
    }
}

pub open spec fn sections_fold(secs: Seq<SectionView>, i: int, acc: Sections) -> Result<
    Sections,
    SemanticErrorView,
>
    decreases secs.len() - i,
{
    if i < 0 || i >= secs.len() {
        Ok(acc)
    } else {
        match section_step(acc, secs[i]) {
            Ok(a2) => sections_fold(secs, i + 1, a2),
            Err(e) => Err(e),
        }
    }
}

pub open spec fn no_sections() -> Sections {
    Sections { project: None, layout: None, dependecies: None, link: None, commands: None }
}

/// What a parsed file means.
pub open spec fn config_meaning(secs: Seq<SectionView>) -> Result<ConfigView, SemanticErrorView> {
    match sections_fold(secs, 0, no_sections()) {
        Err(e) => Err(e),
        Ok(acc) => match acc.project {
            None => Err(SemanticErrorView::MissingProject),
            Some(p) => Ok(
                ConfigView {
                    project: p,
                    layout: match acc.layout {
                        Some(l) => l,
                        None => default_layout(),
                    },
                    dependecies: acc.dependecies,
                    link: acc.link,
                    commands: acc.commands,
                },
            ),
        },
    }
}


// ---------------------------------------------------------------------------------------------
// The analyzer.

/// Whether the string spells `lit`.
fn text_is(s: &String, lit: &[char]) -> (r: bool)
    ensures
        r == (s@ == lit@),
{
    let chars = str_chars(s.as_str());
    chars_eq(chars.as_slice(), lit)
}

pub open spec fn opt_text(o: Option<String>) -> Option<Seq<char>> {
    match o {
        Some(s) => Some(s@),
        None => None,
    }
}

fn get_string(expression: &Expression) -> (r: SemanticResult<String>)
    ensures
        match value_text(expr_view(*expression)) {
            Some(s) => r matches Ok(x) && x@ == s,
            None => r matches Err(e) && e@ == SemanticErrorView::ExpectedString,
        },
{
    match expression {
        Expression::Identifier(token) => Ok(token.literal.clone()),
        Expression::Keyword(token) => Ok(token.literal.clone()),
        Expression::StringLit(token) => Ok(token.literal.clone()),
        _ => Err(SemanticError::ExpectedString),
    }
}

fn get_array_literal_strings(expression: &Expression) -> (r: SemanticResult<Vec<String>>)
    ensures
        match array_texts(expr_view(*expression)) {
            Ok(ts) => r matches Ok(v) && v.deep_view() == ts,
            Err(e) => r matches Err(x) && x@ == e,
        },
{
    let mut exprs: Vec<String> = Vec::new();
    match expression {
        Expression::Array(literal) => {
            let ghost es = literal.expressions@;
            proof {
                lemma_exprs_view(es);
            }
            let n = literal.expressions.len();
            let mut i: usize = 0;
            while i < n
                invariant
                    n == es.len(),
                    es == literal.expressions@,
                    expr_view(*expression) == ExprView::Array(literal.lbracket@, exprs_view(es), literal.rbracket@),
                    exprs_view(es).len() == es.len(),
                    forall|j: int| 0 <= j < es.len() ==> #[trigger] exprs_view(es)[j] == expr_view(es[j]),
                    i <= n,
                    exprs@.len() == i,
                    forall|j: int| 0 <= j < i ==> (#[trigger] value_text(exprs_view(es)[j])) is Some,
                    forall|j: int| 0 <= j < i ==> #[trigger] exprs@[j]@ == value_text(exprs_view(es)[j])->0,
                decreases n - i,
            {
                let s = match get_string(&literal.expressions[i]) {
                    Ok(s) => s,
                    Err(e) => {
                        assert(value_text(exprs_view(es)[i as int]) is None);
                        return Err(e);
                    },
                };
                exprs.push(s);
                i = i + 1;
            }
            assert(exprs.deep_view() =~= exprs_view(es).map_values(|x: ExprView| value_text(x)->0));
        },
        _ => return Err(SemanticError::ExpectedArray),
    };
    Ok(exprs)
}

/// Checks a parsed file and builds its configuration.
#[derive(Debug)]
pub struct Semantics {
    ast: AstConfig,
}

impl Semantics {
    /// The sections of the parsed file.
    pub closed spec fn sections(&self) -> Seq<SectionView> {
        config_view(self.ast)
    }

    /// An analyzer for the parsed file.
    pub fn new(ast: AstConfig) -> (s: Self)
        ensures
            s.sections() == config_view(ast),
    {
        Semantics { ast }
    }

    fn analyze_project(&self, section: &Section) -> (r: SemanticResult<Project>)
        ensures
            match project_meaning(section_view(*section).contents) {
                Ok(p) => r matches Ok(x) && x@ == p,
                Err(e) => r matches Err(x) && x@ == e,
            },
    {
        let ghost vars = section_view(*section).contents;
        let mut name: Option<String> = None;
        let mut version: Option<String> = None;
        let mut entry: Option<String> = None;
        let mut mode: Option<BuildMode> = None;
        let mut target: Option<String> = None;
        let mut freestanding = FreeStanding::False;
        let mut script: Option<String> = None;
        let n = section.contents.len();
        let mut i: usize = 0;
        while i < n
            invariant
                n == section.contents@.len(),
                vars == section_view(*section).contents,
                vars.len() == n,
                i <= n,
                project_fold(vars, 0, no_project_fields()) == project_fold(
                    vars,
                    i as int,
                    ProjectFields {
                        name: opt_text(name),
                        version: opt_text(version),
                        entry: opt_text(entry),
                        mode,
                        target: opt_text(target),
                        freestanding,
                        script: opt_text(script),
                    },
                ),
            decreases n - i,
        {
            let variable = &section.contents[i];
            assert(vars[i as int] == variable_view(*variable));
            let key = match &variable.name {
                Expression::Keyword(token) => token.token_type,
                _ => return Err(SemanticError::ExpectedKeywordKey),
            };
            let value = get_string(&variable.value)?;
            if key == TokenType::Name {
                name = Some(value);
            } else if key == TokenType::Version {
                version = Some(value);
            } else if key == TokenType::Entry {
                entry = Some(value);
            } else if key == TokenType::Mode {
                if text_is(&value, &['e', 'x', 'e', 'c', 'u', 't', 'a', 'b', 'l', 'e']) {
                    mode = Some(BuildMode::Executable);
                } else if text_is(&value, &['s', 't', 'a', 't', 'i', 'c']) {
                    mode = Some(BuildMode::Static);
                } else if text_is(&value, &['o', 'b', 'j']) {
                    mode = Some(BuildMode::Object);
                } else {
                    return Err(SemanticError::InvalidMode(value));
                }
            } else if key == TokenType::Freestanding {
                if text_is(&value, &['t', 'r', 'u', 'e']) {
                    freestanding = FreeStanding::True;
                } else if text_is(&value, &['f', 'a', 'l', 's', 'e']) {
                    freestanding = FreeStanding::False;
                } else {
                    return Err(SemanticError::InvalidFreestanding(value));
                }
            } else if key == TokenType::Target {
                target = Some(value);
            } else if key == TokenType::Script {
                script = Some(value);
            } else {
                return Err(SemanticError::UnknownProjectKey);
            }
            i = i + 1;
        }
        let name = match name {
            Some(v) => v,
            None => return Err(SemanticError::MissingName),
        };
        let version = match version {
            Some(v) => v,
            None => return Err(SemanticError::MissingVersion),
        };
        let mode = match mode {
            Some(m) => m,
            None => return Err(SemanticError::MissingMode),
        };
        let p = Project { name, version, entry, mode, target, freestanding, script };
        assert(p.entry.deep_view() == opt_text(p.entry));
        assert(p.target.deep_view() == opt_text(p.target));
        assert(p.script.deep_view() == opt_text(p.script));
        Ok(p)
    }

    fn analyze_layout(&self, section: &Section) -> (r: SemanticResult<Layout>)
        ensures
            match layout_meaning(section_view(*section).contents) {
                Ok(l) => r matches Ok(x) && x@ == l,
                Err(e) => r matches Err(x) && x@ == e,
            },
    {
        let ghost vars = section_view(*section).contents;
        let mut src: Option<String> = None;
        let mut stubs: Option<String> = None;
        let mut objs: Option<String> = None;
        let mut build: Option<String> = None;
        let n = section.contents.len();
        let mut i: usize = 0;
        while i < n
            invariant
                n == section.contents@.len(),
                vars == section_view(*section).contents,
                vars.len() == n,
                i <= n,
                layout_fold(vars, 0, LayoutFields { src: None, stubs: None, objs: None, build: None })
                    == layout_fold(
                    vars,
                    i as int,
                    LayoutFields {
                        src: opt_text(src),
                        stubs: opt_text(stubs),
                        objs: opt_text(objs),
                        build: opt_text(build),
                    },
                ),
            decreases n - i,
        {
            let variable = &section.contents[i];
            assert(vars[i as int] == variable_view(*variable));
            let key = match &variable.name {
                Expression::Identifier(_token) => get_string(&variable.name)?,
                _ => return Err(SemanticError::ExpectedIdentifierKey),
            };
            let value = get_string(&variable.value)?;
            if text_is(&key, &['s', 'r', 'c']) {
                src = Some(value);
            } else if text_is(&key, &['s', 't', 'u', 'b', 's']) {
                stubs = Some(value);
            } else if text_is(&key, &['o', 'b', 'j', 's']) {
                objs = Some(value);
            } else if text_is(&key, &['b', 'u', 'i', 'l', 'd']) {
                build = Some(value);
            } else {
                return Err(SemanticError::UnknownLayoutKey);
            }
            i = i + 1;
        }
        let d = default_layout_value();
        Ok(Layout {
            src: match src { Some(v) => v, None => d.src },
            stubs: match stubs { Some(v) => v, None => d.stubs },
            objs: match objs { Some(v) => v, None => d.objs },
            build: match build { Some(v) => v, None => d.build },
        })
    }

    /// A section of `name = "text"` pairs.
    fn analyze_pairs(&self, section: &Section) -> (r: SemanticResult<Vec<(String, String)>>)
        ensures
            match pairs_meaning(section_view(*section).contents) {
                Ok(ps) => r matches Ok(x) && x.deep_view() == ps,
                Err(e) => r matches Err(x) && x@ == e,
            },
    {
        let ghost vars = section_view(*section).contents;
        let mut pairs: Vec<(String, String)> = Vec::new();
        let n = section.contents.len();
        let mut i: usize = 0;
        while i < n
            invariant
                n == section.contents@.len(),
                vars == section_view(*section).contents,
                vars.len() == n,
                i <= n,
                pairs@.len() == i,
                forall|j: int|
                    0 <= j < i ==> (#[trigger] value_text(vars[j].name)) is Some && value_text(
                        vars[j].value,
                    ) is Some,
                forall|j: int|
                    0 <= j < i ==> #[trigger] pairs.deep_view()[j] == (
                        value_text(vars[j].name)->0,
                        value_text(vars[j].value)->0,
                    ),
            decreases n - i,
        {
            let variable = &section.contents[i];
            assert(vars[i as int] == variable_view(*variable));
            let name = match get_string(&variable.name) {
                Ok(x) => x,
                Err(e) => {
                    assert(!all_pairs_are_texts(vars)) by {
                        assert(value_text(vars[i as int].name) is None);
                    }
                    return Err(e);
                },
            };
            let path = match get_string(&variable.value) {
                Ok(x) => x,
                Err(e) => {
                    assert(!all_pairs_are_texts(vars)) by {
                        assert(value_text(vars[i as int].name) is Some);
                    }
                    return Err(e);
                },
            };
            let ghost prev = pairs.deep_view();
            pairs.push((name, path));
            assert(pairs.deep_view() =~= prev.push((name@, path@)));
            i = i + 1;
        }
        assert(pairs.deep_view() =~= vars.map_values(
            |v: VariableView| (value_text(v.name)->0, value_text(v.value)->0),
        ));
        Ok(pairs)
    }

    fn analyze_dependecies(&self, section: &Section) -> (r: SemanticResult<Dependecies>)
        ensures
            match pairs_meaning(section_view(*section).contents) {
                Ok(ps) => r matches Ok(x) && x.deps.deep_view() == ps,
                Err(e) => r matches Err(x) && x@ == e,
            },
    {
        let deps = self.analyze_pairs(section)?;
        Ok(Dependecies { deps })
    }

    fn analyze_commands(&self, section: &Section) -> (r: SemanticResult<Commands>)
        ensures
            match pairs_meaning(section_view(*section).contents) {
                Ok(ps) => r matches Ok(x) && x.commands.deep_view() == ps,
                Err(e) => r matches Err(x) && x@ == e,
            },
    {
        let commands = self.analyze_pairs(section)?;
        Ok(Commands { commands })
    }

    fn analyze_link(&self, section: &Section) -> (r: SemanticResult<Link>)
        ensures
            match link_meaning(section_view(*section).contents) {
                Ok(ls) => r matches Ok(x) && x.links.deep_view() == ls,
                Err(e) => r matches Err(x) && x@ == e,
            },
    {
        let ghost vars = section_view(*section).contents;
        let mut links: Vec<(String, Vec<String>)> = Vec::new();
        assert(vars.skip(0) =~= vars);
        let n = section.contents.len();
        let mut i: usize = 0;
        while i < n
            invariant
                n == section.contents@.len(),
                vars == section_view(*section).contents,
                vars.len() == n,
                i <= n,
                links@.len() == i,
                link_error(vars) == link_error(vars.skip(i as int)),
                forall|j: int|
                    0 <= j < i ==> (#[trigger] value_text(vars[j].name)) is Some && array_texts(
                        vars[j].value,
                    ) is Ok,
                forall|j: int|
                    0 <= j < i ==> #[trigger] links.deep_view()[j] == (
                        value_text(vars[j].name)->0,
                        array_texts(vars[j].value)->Ok_0,
                    ),
            decreases n - i,
        {
            let variable = &section.contents[i];
            assert(vars[i as int] == variable_view(*variable));
            assert(vars.skip(i as int)[0] == vars[i as int]);
            assert(vars.skip(i as int).drop_first() =~= vars.skip(i + 1));
            let link = get_string(&variable.name)?;
            let list_of_links = get_array_literal_strings(&variable.value)?;
            let ghost prev = links.deep_view();
            let ghost entry = (link@, list_of_links.deep_view());
            links.push((link, list_of_links));
            assert(links.deep_view() =~= prev.push(entry));
            i = i + 1;
        }
        assert(links.deep_view() =~= vars.map_values(
            |v: VariableView| (value_text(v.name)->0, array_texts(v.value)->Ok_0),
        ));
        assert(vars.skip(n as int) =~= Seq::<VariableView>::empty());
        Ok(Link { links })
    }

    /// Checks every section, in file order, and builds the configuration.
    ///
    /// A later section of a kind replaces an earlier one; a missing `[layout]`
    /// gives the default folders.
    pub fn analyze(&self) -> (r: SemanticResult<BeltConfig>)
        ensures
            match config_meaning(self.sections()) {
                Ok(c) => r matches Ok(x) && x@ == c,
                Err(e) => r matches Err(x) && x@ == e,
            },
    {
        let ghost secs = config_view(self.ast);
        let mut project: Option<Project> = None;
        let mut layout: Option<Layout> = None;
        let mut dependecies: Option<Dependecies> = None;
        let mut link: Option<Link> = None;
        let mut commands: Option<Commands> = None;
        let n = self.ast.sections.len();
        let mut i: usize = 0;
        while i < n
            invariant
                n == self.ast.sections@.len(),
                secs == config_view(self.ast),
                secs.len() == n,
                i <= n,
                sections_fold(secs, 0, no_sections()) == sections_fold(
                    secs,
                    i as int,
                    Sections {
                        project: match project { Some(p) => Some(p@), None => None },
                        layout: match layout { Some(l) => Some(l@), None => None },
                        dependecies: match dependecies { Some(d) => Some(d.deps.deep_view()), None => None },
                        link: match link { Some(l) => Some(l.links.deep_view()), None => None },
                        commands: match commands { Some(c) => Some(c.commands.deep_view()), None => None },
                    },
                ),
            decreases n - i,
        {
            let section = &self.ast.sections[i];
            assert(secs[i as int] == section_view(*section));
            let k = section.head.head.token_type;
            if k == TokenType::Project {
                project = Some(self.analyze_project(section)?);
            } else if k == TokenType::Layout {
                layout = Some(self.analyze_layout(section)?);
            } else if k == TokenType::Dependecies {
                dependecies = Some(self.analyze_dependecies(section)?);
            } else if k == TokenType::Link {
                link = Some(self.analyze_link(section)?);
            } else if k == TokenType::Commands {
                commands = Some(self.analyze_commands(section)?);
            } else {
                return Err(SemanticError::UnknownSection);
            }
            i = i + 1;
        }
        let project = match project {
            Some(p) => p,
            None => return Err(SemanticError::MissingProject),
        };
        let layout = match layout {
            Some(l) => l,
            None => default_layout_value(),
        };
        Ok(BeltConfig { project, layout, dependecies, link, commands })
    }
}


// ---------------------------------------------------------------------------------------------
// Defaults.

/// The identifier key of a variable, if its key is an identifier.
pub open spec fn identifier_key(v: VariableView) -> Option<Seq<char>> {
    match v.name {
        ExprView::Identifier(t) => Some(t.literal),
        _ => None,
    }
}

pub proof fn lemma_layout_fold_keeps(vars: Seq<VariableView>, i: int, f: LayoutFields)
    requires
        0 <= i,
    ensures
        layout_fold(vars, i, f) matches Ok(f2) ==> {
            &&& (forall|k: int| i <= k < vars.len() ==> #[trigger] identifier_key(vars[k]) != Some(default_layout().src)) ==> f2.src == f.src
            &&& (forall|k: int| i <= k < vars.len() ==> #[trigger] identifier_key(vars[k]) != Some(default_layout().stubs)) ==> f2.stubs == f.stubs
            &&& (forall|k: int| i <= k < vars.len() ==> #[trigger] identifier_key(vars[k]) != Some(default_layout().objs)) ==> f2.objs == f.objs
            &&& (forall|k: int| i <= k < vars.len() ==> #[trigger] identifier_key(vars[k]) != Some(default_layout().build)) ==> f2.build == f.build
        },
    decreases vars.len() - i,
{
    if i < vars.len() {
        if let Ok(f1) = layout_step(f, vars[i]) {
            lemma_layout_fold_keeps(vars, i + 1, f1);
            let key = identifier_key(vars[i]);
            assert(key != Some(default_layout().src) ==> f1.src == f.src);
            assert(key != Some(default_layout().stubs) ==> f1.stubs == f.stubs);
            assert(key != Some(default_layout().objs) ==> f1.objs == f.objs);
            assert(key != Some(default_layout().build) ==> f1.build == f.build);
        }
    }
}

/// Every `[layout]` folder that the section does not name is the default one.
pub proof fn lemma_layout_defaults(vars: Seq<VariableView>)
    ensures
        layout_meaning(vars) matches Ok(l) ==> {
            &&& (forall|k: int| 0 <= k < vars.len() ==> #[trigger] identifier_key(vars[k]) != Some(default_layout().src)) ==> l.src == default_layout().src
            &&& (forall|k: int| 0 <= k < vars.len() ==> #[trigger] identifier_key(vars[k]) != Some(default_layout().stubs)) ==> l.stubs == default_layout().stubs
            &&& (forall|k: int| 0 <= k < vars.len() ==> #[trigger] identifier_key(vars[k]) != Some(default_layout().objs)) ==> l.objs == default_layout().objs
            &&& (forall|k: int| 0 <= k < vars.len() ==> #[trigger] identifier_key(vars[k]) != Some(default_layout().build)) ==> l.build == default_layout().build
        },
{
    lemma_layout_fold_keeps(vars, 0, LayoutFields { src: None, stubs: None, objs: None, build: None });
}

pub proof fn lemma_sections_fold_keeps_layout(secs: Seq<SectionView>, i: int, acc: Sections)
    requires
        0 <= i,
        forall|k: int| i <= k < secs.len() ==> (#[trigger] secs[k]).head.token_type != TokenType::Layout,
    ensures
        sections_fold(secs, i, acc) matches Ok(a) ==> a.layout == acc.layout,
    decreases secs.len() - i,
{
    if i < secs.len() {
        assert(secs[i].head.token_type != TokenType::Layout);
        if let Ok(a1) = section_step(acc, secs[i]) {
            lemma_sections_fold_keeps_layout(secs, i + 1, a1);
        }
    }
}

/// A file without a `[layout]` section has the default folders.
pub proof fn lemma_no_layout_section(secs: Seq<SectionView>)
    requires
        forall|k: int| 0 <= k < secs.len() ==> (#[trigger] secs[k]).head.token_type != TokenType::Layout,
    ensures
        config_meaning(secs) matches Ok(c) ==> c.layout == default_layout(),
{
    lemma_sections_fold_keeps_layout(secs, 0, no_sections());
}

/// A file without a `[project]` section is refused.
pub proof fn lemma_project_required(secs: Seq<SectionView>)
    ensures
        (forall|k: int| 0 <= k < secs.len() ==> (#[trigger] secs[k]).head.token_type != TokenType::Project)
            ==> config_meaning(secs) is Err,
{
    if forall|k: int| 0 <= k < secs.len() ==> (#[trigger] secs[k]).head.token_type != TokenType::Project {
        lemma_sections_fold_keeps_project(secs, 0, no_sections());
    }
}

pub proof fn lemma_sections_fold_keeps_project(secs: Seq<SectionView>, i: int, acc: Sections)
    requires
        0 <= i,
        forall|k: int| i <= k < secs.len() ==> (#[trigger] secs[k]).head.token_type != TokenType::Project,
    ensures
        sections_fold(secs, i, acc) matches Ok(a) ==> a.project == acc.project,
    decreases secs.len() - i,
{
    if i < secs.len() {
        assert(secs[i].head.token_type != TokenType::Project);
        if let Ok(a1) = section_step(acc, secs[i]) {
            lemma_sections_fold_keeps_project(secs, i + 1, a1);
        }
    }
}

/// The keyword a variable is keyed by, where it is keyed by one.
pub open spec fn keyword_key(v: VariableView) -> Option<TokenType> {
    match v.name {
        ExprView::Keyword(t) => Some(t.token_type),
        _ => None,
    }
}

proof fn lemma_project_fold_keeps(vars: Seq<VariableView>, i: int, f: ProjectFields)
    requires
        0 <= i,
    ensures
        project_fold(vars, i, f) matches Ok(f2) ==> {
            &&& (forall|k: int| i <= k < vars.len() ==> #[trigger] keyword_key(vars[k]) != Some(TokenType::Name)) ==> f2.name == f.name
            &&& (forall|k: int| i <= k < vars.len() ==> #[trigger] keyword_key(vars[k]) != Some(TokenType::Version)) ==> f2.version == f.version
            &&& (forall|k: int| i <= k < vars.len() ==> #[trigger] keyword_key(vars[k]) != Some(TokenType::Mode)) ==> f2.mode == f.mode
        },
    decreases vars.len() - i,
{
    if i < vars.len() {
        if let Ok(f1) = project_step(f, vars[i]) {
            lemma_project_fold_keeps(vars, i + 1, f1);
            let key = keyword_key(vars[i]);
            assert(key != Some(TokenType::Name) ==> f1.name == f.name);
            assert(key != Some(TokenType::Version) ==> f1.version == f.version);
            assert(key != Some(TokenType::Mode) ==> f1.mode == f.mode);
        }
    }
}

/// A `[project]` section without a `name`, a `version` or a `mode` is refused.
pub proof fn lemma_project_fields_required(vars: Seq<VariableView>)
    ensures
        (forall|k: int| 0 <= k < vars.len() ==> #[trigger] keyword_key(vars[k]) != Some(TokenType::Name)) ==> project_meaning(vars) is Err,
        (forall|k: int| 0 <= k < vars.len() ==> #[trigger] keyword_key(vars[k]) != Some(TokenType::Version)) ==> project_meaning(vars) is Err,
        (forall|k: int| 0 <= k < vars.len() ==> #[trigger] keyword_key(vars[k]) != Some(TokenType::Mode)) ==> project_meaning(vars) is Err,
{
    lemma_project_fold_keeps(vars, 0, no_project_fields());
}

proof fn lemma_link_error_none(vars: Seq<VariableView>)
    ensures
        link_error(vars) is None ==> forall|i: int|
            0 <= i < vars.len() ==> (#[trigger] value_text(vars[i].name)) is Some && array_texts(vars[i].value) is Ok,
    decreases vars.len(),
{
    if vars.len() > 0 {
        lemma_link_error_none(vars.drop_first());
        if link_error(vars) is None {
            assert forall|i: int| 0 <= i < vars.len() implies (#[trigger] value_text(vars[i].name)) is Some
                && array_texts(vars[i].value) is Ok by {
                if i > 0 {
                    assert(vars[i] == vars.drop_first()[i - 1]);
                }
            }
        }
    }
}

/// A `[link]` section that reads gives one entry per variable, in order: the
/// variable's name, and the text of every element of its array, in order.
pub proof fn lemma_link_entries(vars: Seq<VariableView>)
    ensures
        link_meaning(vars) matches Ok(ls) ==> {
            &&& ls.len() == vars.len()
            &&& forall|i: int| 0 <= i < vars.len() ==> Some(#[trigger] ls[i].0) == value_text(vars[i].name)
            &&& forall|i: int|
                0 <= i < vars.len() ==> (#[trigger] vars[i].value matches ExprView::Array(_, es, _) && ls[i].1.len()
                    == es.len() && forall|j: int| 0 <= j < es.len() ==> Some(#[trigger] ls[i].1[j]) == value_text(es[j]))
        },
{
    lemma_link_error_none(vars);
    if let Ok(ls) = link_meaning(vars) {
        assert forall|i: int| 0 <= i < vars.len() implies (#[trigger] vars[i].value matches ExprView::Array(_, es, _)
            && ls[i].1.len() == es.len() && forall|j: int| 0 <= j < es.len() ==> Some(#[trigger] ls[i].1[j])
            == value_text(es[j])) by {
            assert(value_text(vars[i].name) is Some);
            assert(array_texts(vars[i].value) is Ok);
            assert(ls[i].1 == array_texts(vars[i].value)->Ok_0);
            if let ExprView::Array(_, es, _) = vars[i].value {
                assert forall|j: int| 0 <= j < es.len() implies Some(#[trigger] ls[i].1[j]) == value_text(es[j]) by {
                    assert(value_text(es[j]) is Some);
                }
            }
        }
        assert forall|i: int| 0 <= i < vars.len() implies Some(#[trigger] ls[i].0) == value_text(vars[i].name) by {
            assert(value_text(vars[i].name) is Some);
        }
    }
}

/// A `[dependencies]` or `[commands]` section that reads gives one pair per
/// variable, in order: the variable's name and its value.
pub proof fn lemma_pair_entries(vars: Seq<VariableView>)
    ensures
        pairs_meaning(vars) matches Ok(ps) ==> {
            &&& ps.len() == vars.len()
            &&& forall|i: int|
                0 <= i < vars.len() ==> Some(#[trigger] ps[i].0) == value_text(vars[i].name) && Some(ps[i].1)
                    == value_text(vars[i].value)
        },
{
    if let Ok(ps) = pairs_meaning(vars) {
        assert forall|i: int| 0 <= i < vars.len() implies Some(#[trigger] ps[i].0) == value_text(vars[i].name) && Some(
            ps[i].1,
        ) == value_text(vars[i].value) by {
            assert(value_text(vars[i].name) is Some);
        }
    }
}

// ---------------------------------------------------------------------------------------------
// The last section of each kind counts.

proof fn lemma_fold_keeps_kind(secs: Seq<SectionView>, i: int, acc: Sections, kind: TokenType)
    requires
        0 <= i,
        forall|k: int| i <= k < secs.len() ==> (#[trigger] secs[k]).head.token_type != kind,
    ensures
        sections_fold(secs, i, acc) matches Ok(a) ==> {
            &&& kind == TokenType::Link ==> a.link == acc.link
            &&& kind == TokenType::Dependecies ==> a.dependecies == acc.dependecies
            &&& kind == TokenType::Commands ==> a.commands == acc.commands
        },
    decreases secs.len() - i,
{
    if i < secs.len() {
        assert(secs[i].head.token_type != kind);
        if let Ok(a1) = section_step(acc, secs[i]) {
            lemma_fold_keeps_kind(secs, i + 1, a1, kind);
        }
    }
}

proof fn lemma_fold_last_of_kind(secs: Seq<SectionView>, i: int, acc: Sections, k: int)
    requires
        0 <= i <= k < secs.len(),
        forall|k2: int| k < k2 < secs.len() ==> (#[trigger] secs[k2]).head.token_type != secs[k].head.token_type,
    ensures
        sections_fold(secs, i, acc) matches Ok(a) ==> {
            &&& secs[k].head.token_type == TokenType::Link ==> a.link == Some(link_meaning(secs[k].contents)->Ok_0)
            &&& secs[k].head.token_type == TokenType::Dependecies ==> a.dependecies == Some(
                pairs_meaning(secs[k].contents)->Ok_0,
            )
            &&& secs[k].head.token_type == TokenType::Commands ==> a.commands == Some(
                pairs_meaning(secs[k].contents)->Ok_0,
            )
        },
    decreases k - i,
{
    if let Ok(a1) = section_step(acc, secs[i]) {
        if i < k {
            lemma_fold_last_of_kind(secs, i + 1, a1, k);
        } else {
            lemma_fold_keeps_kind(secs, i + 1, a1, secs[k].head.token_type);
        }
    }
}

/// Section `k` is the last section of its kind `kind`.
pub open spec fn last_of_kind(secs: Seq<SectionView>, k: int, kind: TokenType) -> bool {
    &&& 0 <= k < secs.len()
    &&& secs[k].head.token_type == kind
    &&& forall|k2: int| k < k2 < secs.len() ==> (#[trigger] secs[k2]).head.token_type != kind
}

/// The `[link]`, `[dependencies]` and `[commands]` of a configuration are read
/// from the last section of each kind, with every entry of it; with no
/// `[link]` section there is no link list.
pub proof fn lemma_last_section_counts(secs: Seq<SectionView>)
    ensures
        config_meaning(secs) matches Ok(c) ==> {
            &&& forall|k: int| #[trigger] last_of_kind(secs, k, TokenType::Link) ==> c.link == Some(
                link_meaning(secs[k].contents)->Ok_0,
            )
            &&& forall|k: int| #[trigger] last_of_kind(secs, k, TokenType::Dependecies) ==> c.dependecies == Some(
                pairs_meaning(secs[k].contents)->Ok_0,
            )
            &&& forall|k: int| #[trigger] last_of_kind(secs, k, TokenType::Commands) ==> c.commands == Some(
                pairs_meaning(secs[k].contents)->Ok_0,
            )
            &&& (forall|k: int| 0 <= k < secs.len() ==> (#[trigger] secs[k]).head.token_type != TokenType::Link)
                ==> c.link is None
        },
{
    if let Ok(c) = config_meaning(secs) {
        assert forall|k: int| #[trigger] last_of_kind(secs, k, TokenType::Link) implies c.link == Some(
            link_meaning(secs[k].contents)->Ok_0,
        ) by {
            lemma_fold_last_of_kind(secs, 0, no_sections(), k);
        }
        assert forall|k: int| #[trigger] last_of_kind(secs, k, TokenType::Dependecies) implies c.dependecies == Some(
            pairs_meaning(secs[k].contents)->Ok_0,
        ) by {
            lemma_fold_last_of_kind(secs, 0, no_sections(), k);
        }
        assert forall|k: int| #[trigger] last_of_kind(secs, k, TokenType::Commands) implies c.commands == Some(
            pairs_meaning(secs[k].contents)->Ok_0,
        ) by {
            lemma_fold_last_of_kind(secs, 0, no_sections(), k);
        }
        if forall|k: int| 0 <= k < secs.len() ==> (#[trigger] secs[k]).head.token_type != TokenType::Link {
            lemma_fold_keeps_kind(secs, 0, no_sections(), TokenType::Link);
        }
    }
}

} // verus!
