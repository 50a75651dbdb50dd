//! The decisions of a build that do not touch the disk: file extensions for a
//! target, the module of each file, and the builder's module graph.
use vstd::prelude::*;

use crate::config::BuildMode;
use crate::graph::{Graph, GraphError, file_imports, key_index, lemma_key_index, module_map, resolve, search_outcome};
use crate::lock::{LockEntry, LockEntryView, LockFile, dirty, put_entry};
use crate::text::{list_contains, push_str, push_string};
use crate::project::Workspace;
use crate::resolver::{ResolvedDependecy, ResolvedView};

verus! {

/// Whether `p` occurs in `s`.
pub open spec fn contains_text(s: Seq<char>, p: Seq<char>) -> bool {
    exists|i: int| 0 <= i && i + p.len() <= s.len() && #[trigger] s.subrange(i, i + p.len()) == p
}

/// Whether `p` occurs in `s`.
pub fn str_contains(s: &str, p: &str) -> (r: bool)
    ensures
        r == contains_text(s@, p@),
{
    let sc = crate::text::str_chars(s);
    let pc = crate::text::str_chars(p);
    if pc.len() > sc.len() {
        return false;
    }
    let mut i: usize = 0;
    while i <= sc.len() - pc.len()
        invariant
            pc.len() <= sc.len(),
            sc@ == s@,
            pc@ == p@,
            i <= sc.len() - pc.len() + 1,
            forall|j: int| 0 <= j < i ==> #[trigger] s@.subrange(j, j + p@.len()) != p@,
        decreases sc.len() - i,
    {
        let mut k: usize = 0;
        let mut same = true;
        while k < pc.len()
            invariant
                k <= pc.len(),
                i + pc.len() <= sc.len(),
                same == (forall|t: int| 0 <= t < k ==> sc@[i + t] == pc@[t]),
            decreases pc.len() - k,
        {
            if sc[i + k] != pc[k] {
                same = false;
            }
            k = k + 1;
        }
        if same {
            assert(s@.subrange(i as int, i + p@.len()) =~= p@);
            return true;
        }
        assert(s@.subrange(i as int, i + p@.len()) != p@) by {
            let t = choose|t: int| 0 <= t < pc.len() && sc@[i + t] != pc@[t];
            assert(s@.subrange(i as int, i + p@.len())[t] == sc@[i + t]);
        }
        i = i + 1;
    }
    proof {
        assert forall|j: int| 0 <= j && j + p@.len() <= s@.len() implies #[trigger] s@.subrange(j, j + p@.len())
            != p@ by {
            assert(j < i);
        }
    }
    false
}

/// The extension of object files for a target triple.
pub fn target_obj_extension(target: &str) -> (ext: &'static str)
    ensures
        ext@ == if contains_text(target@, "windows"@) {
            ".obj"@
        } else {
            ".o"@
        },
{
    if str_contains(target, "windows") {
        ".obj"
    } else {
        ".o"
    }
}

/// The extension of executables for a target triple: `.exe` on Windows, `.elf`
/// on bare metal (`none` in the triple), none elsewhere.
pub fn target_exe_extension(target: &str) -> (ext: &'static str)
    ensures
        ext@ == if contains_text(target@, "windows"@) {
            ".exe"@
        } else if contains_text(target@, "none"@) {
            ".elf"@
        } else {
            ""@
        },
{
    if str_contains(target, "windows") {
        ".exe"
    } else if str_contains(target, "none") {
        ".elf"
    } else {
        ""
    }
}

/// The module that the graph maps to `file`: the first (module, file) pair for it.
pub open spec fn module_of_file(mm: Seq<(Seq<char>, Seq<char>)>, file: Seq<char>) -> Option<Seq<char>>
    decreases mm.len(),
{
    if mm.len() == 0 {
        None
    } else if mm[0].1 == file {
        Some(mm[0].0)
    } else {
        module_of_file(mm.drop_first(), file)
    }
}

/// The module that `file` declares, according to the module map.
pub fn module_name_for_file(module_map: &Vec<(String, String)>, file: &String) -> (r: Option<String>)
    ensures
        match module_of_file(module_map.deep_view(), file@) {
            Some(m) => r matches Some(s) && s@ == m,
            None => r is None,
        },
{
    let mut i: usize = 0;
    assert(module_map.deep_view().skip(0) =~= module_map.deep_view());
    while i < module_map.len()
        invariant
            i <= module_map@.len(),
            module_of_file(module_map.deep_view(), file@) == module_of_file(module_map.deep_view().skip(i as int), file@),
        decreases module_map@.len() - i,
    {
        let ghost rest = module_map.deep_view().skip(i as int);
        assert(rest[0] == module_map.deep_view()[i as int]);
        assert(rest.drop_first() =~= module_map.deep_view().skip(i + 1));
        if module_map[i].1 == *file {
            return Some(module_map[i].0.clone());
        }
        i = i + 1;
    }
    None
}

/// A workspace with its module graph.
#[derive(Debug)]
pub struct Builder {
    pub workspace: Workspace,
    pub graph: Graph,
}

impl Builder {
    /// The builder of a workspace, `sources[i]` holding the text of the
    /// workspace's `i`-th source file (`None` where it could not be read).
    pub fn new(workspace: Workspace, sources: &Vec<Option<String>>) -> (r: Result<Builder, GraphError>)
        requires
            workspace.source_files.len() == sources.len(),
        ensures
            match module_map(workspace.source_files.deep_view(), sources.deep_view()) {
                Err(e) => r matches Err(x) && x@ == e,
                Ok(mm) => {
                    let deps = file_imports(workspace.source_files.deep_view(), sources.deep_view());
                    match search_outcome(mm, deps) {
                        Ok(order) => r matches Ok(b) && {
                            &&& b.workspace.source_files.deep_view() == workspace.source_files.deep_view()
                            &&& b.workspace.entry@ == workspace.entry@
                            &&& b.workspace.config@ == workspace.config@
                            &&& b.graph.module_map.deep_view() == mm
                            &&& b.graph.dependecies.deep_view() == deps
                            &&& b.graph.compile_order.deep_view() == order
                            &&& crate::graph::is_compile_order(mm, deps, order)
                        },
                        Err(e) => r matches Err(x) && x@ == e,
                    }
                },
            },
    {
        let graph = Graph::build(&workspace.source_files, sources)?;
        Ok(Builder { graph, workspace })
    }
}


// ---------------------------------------------------------------------------------------------
// The plan of a build.

/// One thing the build does, in order; the compiler calls take the project's
/// target and freestanding flag as well.
#[derive(Debug)]
pub enum BuildStep {
    /// Generate the stub of an imported local module from its source.
    GenerateStub { module: String, source: String, stub: String },
    /// Compile a file to an object, loading the stubs of its imports.
    Compile { file: String, object: String, stubs: Vec<String> },
    /// The file is unchanged and is not compiled.
    Skip { file: String },
    /// Publish the stub of a module of the project.
    PublishStub { module: String, source: String, stub: String },
    /// Archive the objects into a static library.
    Archive { output: String, objects: Vec<String> },
    /// Link the objects and libraries into the executable.
    Link { output: String, objects: Vec<String>, script: Option<String> },
    /// Run the front-end checks on a file, loading the stubs of its imports.
    Check { file: String, stubs: Vec<String> },
}

pub enum BuildStepView {
    GenerateStub { module: Seq<char>, source: Seq<char>, stub: Seq<char> },
    Compile { file: Seq<char>, object: Seq<char>, stubs: Seq<Seq<char>> },
    Skip { file: Seq<char> },
    PublishStub { module: Seq<char>, source: Seq<char>, stub: Seq<char> },
    Archive { output: Seq<char>, objects: Seq<Seq<char>> },
    Link { output: Seq<char>, objects: Seq<Seq<char>>, script: Option<Seq<char>> },
    Check { file: Seq<char>, stubs: Seq<Seq<char>> },
}

impl View for BuildStep {
    type V = BuildStepView;

    open spec fn view(&self) -> BuildStepView {
        match self {
            BuildStep::GenerateStub { module, source, stub } => BuildStepView::GenerateStub {
                module: module@,
                source: source@,
                stub: stub@,
            },
            BuildStep::Compile { file, object, stubs } => BuildStepView::Compile {
                file: file@,
                object: object@,
                stubs: stubs.deep_view(),
            },
            BuildStep::Skip { file } => BuildStepView::Skip { file: file@ },
            BuildStep::PublishStub { module, source, stub } => BuildStepView::PublishStub {
                module: module@,
                source: source@,
                stub: stub@,
            },
            BuildStep::Archive { output, objects } => BuildStepView::Archive {
                output: output@,
                objects: objects.deep_view(),
            },
            BuildStep::Link { output, objects, script } => BuildStepView::Link {
                output: output@,
                objects: objects.deep_view(),
                script: script.deep_view(),
            },
            BuildStep::Check { file, stubs } => BuildStepView::Check { file: file@, stubs: stubs.deep_view() },
        }
    }
}

/// What the build reads from the disk before it starts, for the files of the
/// compile order: each file's stem and the hash of its contents (`None` where it
/// could not be read); the stubs that already exist; the object and executable
/// extensions; the stem of the entry file; and the modules that other projects
/// provide (the standard library, the dependencies), with their stubs and
/// artifacts, as the resolver found them.
#[derive(Debug)]
pub struct BuildInputs {
    pub stems: Vec<String>,
    pub hashes: Vec<Option<String>>,
    pub existing_stubs: Vec<String>,
    pub obj_ext: String,
    pub exe_ext: String,
    pub entry_stem: String,
    pub dependencies: Vec<(String, ResolvedDependecy)>,
}

/// The state of the plan: the steps so far, the stubs that exist, the modules
/// compiled again, and the lock entries.
pub struct PlanState {
    pub steps: Seq<BuildStepView>,
    pub stubs: Seq<Seq<char>>,
    pub dirty: Seq<Seq<char>>,
    pub lock: Seq<LockEntryView>,
}

/// What the plan depends on.
pub struct PlanContext {
    pub mm: Seq<(Seq<char>, Seq<char>)>,
    pub deps: Seq<(Seq<char>, Seq<Seq<char>>)>,
    pub order: Seq<Seq<char>>,
    pub stems: Seq<Seq<char>>,
    pub hashes: Seq<Option<Seq<char>>>,
    pub stubs_dir: Seq<char>,
    pub obj_dir: Seq<char>,
    pub obj_ext: Seq<char>,
    /// The modules that other projects provide, with their stubs and artifacts.
    pub ext: Seq<(Seq<char>, ResolvedView)>,
    /// The imported modules that no file of the project declares.
    pub unresolved: Seq<Seq<char>>,
}

/// The stubs of a module that another project provides.
pub open spec fn external_stubs(ext: Seq<(Seq<char>, ResolvedView)>, module: Seq<char>) -> Seq<Seq<char>> {
    match key_index(ext, module) {
        Some(j) => ext[j].1.stubs,
        None => Seq::empty(),
    }
}

/// The artifacts of a module that another project provides.
pub open spec fn external_artifacts(ext: Seq<(Seq<char>, ResolvedView)>, module: Seq<char>) -> Seq<Seq<char>> {
    match key_index(ext, module) {
        Some(j) => ext[j].1.artifacts,
        None => Seq::empty(),
    }
}

/// The artifacts of the given modules of other projects, in order.
pub open spec fn dependency_objects(ext: Seq<(Seq<char>, ResolvedView)>, modules: Seq<Seq<char>>) -> Seq<Seq<char>>
    decreases modules.len(),
{
    if modules.len() == 0 {
        Seq::empty()
    } else {
        dependency_objects(ext, modules.drop_last()) + external_artifacts(ext, modules.last())
    }
}

/// `<stubs>/<module>.stub`
pub open spec fn stub_path(stubs_dir: Seq<char>, module: Seq<char>) -> Seq<char> {
    stubs_dir + "/"@ + module + ".stub"@
}

/// `<objs>/<stem><ext>`
pub open spec fn object_path(obj_dir: Seq<char>, stem: Seq<char>, ext: Seq<char>) -> Seq<char> {
    obj_dir + "/"@ + stem + ext
}

/// The module of a file: the one it declares, else its stem.
pub open spec fn file_module(mm: Seq<(Seq<char>, Seq<char>)>, file: Seq<char>, stem: Seq<char>) -> Seq<char> {
    match module_of_file(mm, file) {
        Some(m) => m,
        None => stem,
    }
}

/// The stubs of the imports from `k` on: a local module's stub is generated
/// first where it does not exist or the module was compiled again; a module of
/// another project brings the stubs the resolver found for it.
pub open spec fn gather_stubs(
    ctx: PlanContext,
    imports: Seq<Seq<char>>,
    k: int,
    st: PlanState,
    paths: Seq<Seq<char>>,
) -> (PlanState, Seq<Seq<char>>)
    decreases imports.len() - k,
{
    if k < 0 || k >= imports.len() {
        (st, paths)
    } else {
        match resolve(ctx.mm, imports[k]) {
            None => gather_stubs(ctx, imports, k + 1, st, paths + external_stubs(ctx.ext, imports[k])),
            Some(source) => {
                let stub = stub_path(ctx.stubs_dir, imports[k]);
                let st2 = if !st.stubs.contains(stub) || st.dirty.contains(imports[k]) {
                    PlanState {
                        steps: st.steps.push(BuildStepView::GenerateStub { module: imports[k], source, stub }),
                        stubs: st.stubs.push(stub),
                        ..st
                    }
                } else {
                    st
                };
                gather_stubs(ctx, imports, k + 1, st2, paths.push(stub))
            },
        }
    }
}

pub open spec fn hash_or_empty(h: Option<Seq<char>>) -> Seq<char> {
    match h {
        Some(x) => x,
        None => Seq::empty(),
    }
}

/// The `i`-th file of the compile order: compiled where it is dirty, else skipped.
pub open spec fn compile_file(ctx: PlanContext, i: int, st: PlanState) -> PlanState {
    let file = ctx.order[i];
    match key_index(ctx.deps, file) {
        None => st,
        Some(j) => {
            let imports = ctx.deps[j].1;
            let module = file_module(ctx.mm, file, ctx.stems[i]);
            let is_dirty = dirty(st.lock, module, ctx.hashes[i], imports, st.dirty);
            let (st2, paths) = gather_stubs(ctx, imports, 0, st, Seq::empty());
            let object = object_path(ctx.obj_dir, ctx.stems[i], ctx.obj_ext);
            if is_dirty {
                PlanState {
                    steps: st2.steps.push(BuildStepView::Compile { file, object, stubs: paths }),
                    stubs: st2.stubs,
                    dirty: st2.dirty.push(module),
                    lock: put_entry(
                        st2.lock,
                        LockEntryView { name: module, path: file, hash: hash_or_empty(ctx.hashes[i]), deps: imports },
                    ),
                }
            } else {
                PlanState { steps: st2.steps.push(BuildStepView::Skip { file }), ..st2 }
            }
        },
    }
}

pub open spec fn compile_files(ctx: PlanContext, i: int, st: PlanState) -> PlanState
    decreases ctx.order.len() - i,
{
    if i < 0 || i >= ctx.order.len() {
        st
    } else {
        compile_files(ctx, i + 1, compile_file(ctx, i, st))
    }
}

/// The `i`-th file's stub is published where it does not exist or its module was compiled again.
pub open spec fn publish_file(ctx: PlanContext, i: int, st: PlanState) -> PlanState {
    let file = ctx.order[i];
    let module = file_module(ctx.mm, file, ctx.stems[i]);
    let stub = stub_path(ctx.stubs_dir, module);
    if !st.stubs.contains(stub) || st.dirty.contains(module) {
        PlanState {
            steps: st.steps.push(BuildStepView::PublishStub { module, source: file, stub }),
            stubs: st.stubs.push(stub),
            ..st
        }
    } else {
        st
    }
}

pub open spec fn publish_files(ctx: PlanContext, i: int, st: PlanState) -> PlanState
    decreases ctx.order.len() - i,
{
    if i < 0 || i >= ctx.order.len() {
        st
    } else {
        publish_files(ctx, i + 1, publish_file(ctx, i, st))
    }
}


/// The objects of the files from the first to the `n`-th, except `entry`'s.
pub open spec fn objects_except(ctx: PlanContext, entry: Seq<char>, n: int) -> Seq<Seq<char>>
    decreases n,
{
    if n <= 0 {
        Seq::empty()
    } else if ctx.order[n - 1] != entry {
        objects_except(ctx, entry, n - 1).push(object_path(ctx.obj_dir, ctx.stems[n - 1], ctx.obj_ext))
    } else {
        objects_except(ctx, entry, n - 1)
    }
}

/// The objects of all files, in compile order.
pub open spec fn all_objects(ctx: PlanContext) -> Seq<Seq<char>> {
    Seq::new(ctx.order.len(), |i: int| object_path(ctx.obj_dir, ctx.stems[i], ctx.obj_ext))
}

/// The libraries of a `[link]` section, in order.
pub open spec fn link_libraries(links: Seq<(Seq<char>, Seq<Seq<char>>)>) -> Seq<Seq<char>>
    decreases links.len(),
{
    if links.len() == 0 {
        Seq::empty()
    } else {
        link_libraries(links.drop_last()) + links.last().1
    }
}

/// The whole plan: compile (or skip) every file in order, publish the stubs,
/// then archive a static library or link an executable. Also gives the lock
/// entries to save.
pub open spec fn build_plan(
    ctx: PlanContext,
    config: crate::config::ConfigView,
    entry: Seq<char>,
    exe_ext: Seq<char>,
    entry_stem: Seq<char>,
    lock: Seq<LockEntryView>,
    existing_stubs: Seq<Seq<char>>,
) -> (Seq<BuildStepView>, Seq<LockEntryView>) {
    let st0 = PlanState { steps: Seq::empty(), stubs: existing_stubs, dirty: Seq::empty(), lock };
    let st1 = compile_files(ctx, 0, st0);
    let st2 = publish_files(ctx, 0, st1);
    let build_dir = config.layout.build;
    let name = config.project.name;
    let steps = if config.project.mode == BuildMode::Static {
        st2.steps.push(
            BuildStepView::Archive { output: build_dir + "/"@ + name + ".a"@, objects: all_objects(ctx) },
        )
    } else if config.project.mode == BuildMode::Executable {
        let libs = match config.link {
            Some(l) => link_libraries(l),
            None => Seq::empty(),
        };
        st2.steps.push(
            BuildStepView::Link {
                output: build_dir + "/"@ + name + exe_ext,
                objects: seq![object_path(ctx.obj_dir, entry_stem, ctx.obj_ext)] + objects_except(
                    ctx,
                    entry,
                    ctx.order.len() as int,
                ) + dependency_objects(ctx.ext, ctx.unresolved) + libs,
                script: config.project.script,
            },
        )
    } else {
        st2.steps
    };
    (steps, st2.lock)
}

/// The `i`-th file of the compile order under `check`: skipped where it is
/// clean; else marked dirty, the stubs of its local imports generated where
/// missing or stale, and the file checked.
pub open spec fn check_file(ctx: PlanContext, i: int, st: PlanState) -> PlanState {
    let file = ctx.order[i];
    match key_index(ctx.deps, file) {
        None => st,
        Some(j) => {
            let imports = ctx.deps[j].1;
            let module = file_module(ctx.mm, file, ctx.stems[i]);
            if !dirty(st.lock, module, ctx.hashes[i], imports, st.dirty) {
                PlanState { steps: st.steps.push(BuildStepView::Skip { file }), ..st }
            } else {
                let st1 = PlanState { dirty: st.dirty.push(module), ..st };
                let (st2, paths) = gather_stubs(ctx, imports, 0, st1, Seq::empty());
                PlanState { steps: st2.steps.push(BuildStepView::Check { file, stubs: paths }), ..st2 }
            }
        },
    }
}

pub open spec fn check_files(ctx: PlanContext, i: int, st: PlanState) -> PlanState
    decreases ctx.order.len() - i,
{
    if i < 0 || i >= ctx.order.len() {
        st
    } else {
        check_files(ctx, i + 1, check_file(ctx, i, st))
    }
}

/// The steps of `check`: every file of the compile order checked or skipped in
/// turn; the lock is only read.
pub open spec fn check_plan(ctx: PlanContext, lock: Seq<LockEntryView>, existing_stubs: Seq<Seq<char>>) -> Seq<BuildStepView> {
    check_files(ctx, 0, PlanState { steps: Seq::empty(), stubs: existing_stubs, dirty: Seq::empty(), lock }).steps
}

pub open spec fn step_views(steps: Seq<BuildStep>) -> Seq<BuildStepView> {
    steps.map_values(|s: BuildStep| s@)
}

fn clone_strings(v: &Vec<String>) -> (r: Vec<String>)
    ensures
        r.deep_view() == v.deep_view(),
{
    let mut r: Vec<String> = Vec::new();
    let mut i: usize = 0;
    while i < v.len()
        invariant
            i <= v@.len(),
            r.deep_view() == v.deep_view().take(i as int),
        decreases v@.len() - i,
    {
        let ghost before = r.deep_view();
        let c = v[i].clone();
        assert(c@ == v.deep_view()[i as int]);
        r.push(c);
        assert(r.deep_view() =~= before.push(c@));
        assert(r.deep_view() =~= v.deep_view().take(i + 1));
        i = i + 1;
    }
    assert(v.deep_view().take(v@.len() as int) =~= v.deep_view());
    r
}

/// Appends the strings of `v`, in order.
fn append_strings(out: &mut Vec<String>, v: &Vec<String>)
    ensures
        final(out).deep_view() == old(out).deep_view() + v.deep_view(),
{
    let ghost base = out.deep_view();
    let mut i: usize = 0;
    assert(base + v.deep_view().take(0) =~= base);
    while i < v.len()
        invariant
            i <= v@.len(),
            out.deep_view() == base + v.deep_view().take(i as int),
        decreases v@.len() - i,
    {
        let ghost before = out.deep_view();
        let c = v[i].clone();
        assert(c@ == v.deep_view()[i as int]);
        out.push(c);
        assert(out.deep_view() =~= before.push(c@));
        assert(out.deep_view() =~= base + v.deep_view().take(i + 1));
        i = i + 1;
    }
    assert(v.deep_view().take(v@.len() as int) =~= v.deep_view());
}

/// The view of the modules that other projects provide.
pub open spec fn external_view(deps: Seq<(String, ResolvedDependecy)>) -> Seq<(Seq<char>, ResolvedView)> {
    deps.map_values(|e: (String, ResolvedDependecy)| (e.0@, e.1@))
}

/// Appends the stubs (or, where `stubs` is false, the artifacts) of the module
/// `name` of another project, where it was resolved.
fn append_external(out: &mut Vec<String>, deps: &Vec<(String, ResolvedDependecy)>, name: &String, stubs: bool)
    ensures
        final(out).deep_view() == old(out).deep_view() + if stubs {
            external_stubs(external_view(deps@), name@)
        } else {
            external_artifacts(external_view(deps@), name@)
        },
{
    let found = crate::graph::find_key_pub(deps, name);
    proof {
        crate::graph::lemma_key_index_same_keys(
            deps@.map_values(|e: (String, ResolvedDependecy)| (e.0@, ())),
            external_view(deps@),
            name@,
        );
        lemma_key_index(external_view(deps@), name@);
        lemma_key_index(deps@.map_values(|e: (String, ResolvedDependecy)| (e.0@, ())), name@);
    }
    match found {
        Some(j) => {
            assert(external_view(deps@)[j as int].1 == deps@[j as int].1@);
            if stubs {
                append_strings(out, &deps[j].1.stubs);
            } else {
                append_strings(out, &deps[j].1.artifacts);
            }
        },
        None => {
            assert(out.deep_view() =~= old(out).deep_view() + Seq::<Seq<char>>::empty());
        },
    }
}

fn path_of(dir: &String, sep: &str, name: &String, ext: &str) -> (p: String)
    ensures
        p@ == dir@ + sep@ + name@ + ext@,
{
    let mut p = String::new();
    push_string(&mut p, dir);
    push_str(&mut p, sep);
    push_string(&mut p, name);
    push_str(&mut p, ext);
    assert(p@ =~= dir@ + sep@ + name@ + ext@);
    p
}

fn path_of_strings(dir: &String, name: &String, ext: &String) -> (p: String)
    ensures
        p@ == dir@ + "/"@ + name@ + ext@,
{
    let mut p = String::new();
    push_string(&mut p, dir);
    push_str(&mut p, "/");
    push_string(&mut p, name);
    push_string(&mut p, ext);
    assert(p@ =~= dir@ + "/"@ + name@ + ext@);
    p
}

impl Builder {
    /// The context of the plan for the given inputs.
    pub open spec fn plan_context(&self, inputs: &BuildInputs) -> PlanContext {
        PlanContext {
            mm: self.graph.module_map.deep_view(),
            deps: self.graph.dependecies.deep_view(),
            order: self.graph.compile_order.deep_view(),
            stems: inputs.stems.deep_view(),
            hashes: inputs.hashes.deep_view(),
            stubs_dir: self.workspace.config.layout.stubs@,
            obj_dir: self.workspace.config.layout.objs@,
            obj_ext: inputs.obj_ext@,
            ext: external_view(inputs.dependencies@),
            unresolved: self.graph.unresolved.deep_view(),
        }
    }

    fn gather(
        &self,
        inputs: &BuildInputs,
        imports: &Vec<String>,
        steps: &mut Vec<BuildStep>,
        stubs: &mut Vec<String>,
        dirty_set: &Vec<String>,
        Ghost(lock): Ghost<Seq<LockEntryView>>,
    ) -> (paths: Vec<String>)
        ensures
            ({
                let st = PlanState {
                    steps: step_views(old(steps)@),
                    stubs: old(stubs).deep_view(),
                    dirty: dirty_set.deep_view(),
                    lock,
                };
                let (st2, ps) = gather_stubs(self.plan_context(inputs), imports.deep_view(), 0, st, Seq::empty());
                &&& st2 == PlanState {
                    steps: step_views(final(steps)@),
                    stubs: final(stubs).deep_view(),
                    dirty: dirty_set.deep_view(),
                    lock,
                }
                &&& ps == paths.deep_view()
            }),
    {
        let ghost ctx = self.plan_context(inputs);
        let ghost ims = imports.deep_view();
        let mut paths: Vec<String> = Vec::new();
        let mut k: usize = 0;
        assert(paths.deep_view() =~= Seq::<Seq<char>>::empty());
        while k < imports.len()
            invariant
                ctx == self.plan_context(inputs),
                ims == imports.deep_view(),
                k <= imports@.len(),
                gather_stubs(
                    ctx,
                    ims,
                    0,
                    PlanState {
                        steps: step_views(old(steps)@),
                        stubs: old(stubs).deep_view(),
                        dirty: dirty_set.deep_view(),
                        lock,
                    },
                    Seq::empty(),
                ) == gather_stubs(
                    ctx,
                    ims,
                    k as int,
                    PlanState {
                        steps: step_views(steps@),
                        stubs: stubs.deep_view(),
                        dirty: dirty_set.deep_view(),
                        lock,
                    },
                    paths.deep_view(),
                ),
            decreases imports@.len() - k,
        {
            let name = &imports[k];
            assert(name@ == ims[k as int]);
            let found = crate::graph::find_key_pub(&self.graph.module_map, name);
            proof {
                crate::graph::lemma_key_index_same_keys(
                    self.graph.module_map@.map_values(|e: (String, String)| (e.0@, ())),
                    ctx.mm,
                    name@,
                );
                lemma_key_index(ctx.mm, name@);
            }
            match found {
                Some(j) => {
                    let source = &self.graph.module_map[j].1;
                    assert(resolve(ctx.mm, name@) == Some(source@));
                    let stub = path_of(&self.workspace.config.layout.stubs, "/", name, ".stub");
                    if !list_contains(stubs, &stub) || list_contains(dirty_set, name) {
                        let ghost sv = step_views(steps@);
                        let ghost stv = stubs.deep_view();
                        steps.push(BuildStep::GenerateStub { module: name.clone(), source: source.clone(), stub: stub.clone() });
                        stubs.push(stub.clone());
                        assert(step_views(steps@) =~= sv.push(
                            BuildStepView::GenerateStub { module: name@, source: source@, stub: stub@ },
                        ));
                        assert(stubs.deep_view() =~= stv.push(stub@));
                    }
                    let ghost pv = paths.deep_view();
                    paths.push(stub);
                    assert(paths.deep_view() =~= pv.push(stub_path(ctx.stubs_dir, name@)));
                },
                None => {
                    append_external(&mut paths, &inputs.dependencies, name, true);
                },
            }
            k = k + 1;
        }
        paths
    }

    fn compile_one(
        &self,
        inputs: &BuildInputs,
        i: usize,
        steps: &mut Vec<BuildStep>,
        stubs: &mut Vec<String>,
        dirty_set: &mut Vec<String>,
        lock: &mut LockFile,
    )
        requires
            i < self.graph.compile_order@.len(),
            inputs.stems@.len() == self.graph.compile_order@.len(),
            inputs.hashes@.len() == self.graph.compile_order@.len(),
        ensures
            compile_file(
                self.plan_context(inputs),
                i as int,
                PlanState {
                    steps: step_views(old(steps)@),
                    stubs: old(stubs).deep_view(),
                    dirty: old(dirty_set).deep_view(),
                    lock: old(lock).view_entries(),
                },
            ) == (PlanState {
                steps: step_views(final(steps)@),
                stubs: final(stubs).deep_view(),
                dirty: final(dirty_set).deep_view(),
                lock: final(lock).view_entries(),
            }),
    {
        let ghost ctx = self.plan_context(inputs);
        let file = &self.graph.compile_order[i];
        assert(file@ == ctx.order[i as int]);
        let found = crate::graph::find_key_pub(&self.graph.dependecies, file);
        proof {
            crate::graph::lemma_key_index_same_keys(
                self.graph.dependecies@.map_values(|e: (String, Vec<String>)| (e.0@, ())),
                ctx.deps,
                file@,
            );
            lemma_key_index(ctx.deps, file@);
        }
        let j = match found {
            Some(j) => j,
            None => return,
        };
        let imports = &self.graph.dependecies[j].1;
        assert(imports.deep_view() == ctx.deps[j as int].1);
        let module = match module_name_for_file(&self.graph.module_map, file) {
            Some(m) => m,
            None => inputs.stems[i].clone(),
        };
        assert(inputs.stems.deep_view()[i as int] == inputs.stems@[i as int]@);
        assert(module@ == file_module(ctx.mm, file@, ctx.stems[i as int]));
        assert(inputs.hashes@[i as int].deep_view() == ctx.hashes[i as int]);
        let is_dirty = lock.is_dirty(&module, &inputs.hashes[i], imports, dirty_set);
        let paths = self.gather(inputs, imports, steps, stubs, dirty_set, Ghost(lock.view_entries()));
        let object = path_of_strings(&self.workspace.config.layout.objs, &inputs.stems[i], &inputs.obj_ext);
        if is_dirty {
            let ghost dv = dirty_set.deep_view();
            dirty_set.push(module.clone());
            assert(dirty_set.deep_view() =~= dv.push(module@));
            let ghost sv = step_views(steps@);
            let ghost pv = paths.deep_view();
            steps.push(BuildStep::Compile { file: file.clone(), object, stubs: paths });
            assert(step_views(steps@) =~= sv.push(BuildStepView::Compile { file: file@, object: object_path(ctx.obj_dir, ctx.stems[i as int], ctx.obj_ext), stubs: pv }));
            let hash = match &inputs.hashes[i] {
                Some(h) => h.clone(),
                None => String::new(),
            };
            let deps = clone_strings(imports);
            lock.insert(LockEntry { name: module, path: file.clone(), hash, deps });
        } else {
            let ghost sv = step_views(steps@);
            steps.push(BuildStep::Skip { file: file.clone() });
            assert(step_views(steps@) =~= sv.push(BuildStepView::Skip { file: file@ }));
        }
    }

    fn publish_one(
        &self,
        inputs: &BuildInputs,
        i: usize,
        steps: &mut Vec<BuildStep>,
        stubs: &mut Vec<String>,
        dirty_set: &Vec<String>,
        Ghost(lock): Ghost<Seq<LockEntryView>>,
    )
        requires
            i < self.graph.compile_order@.len(),
            inputs.stems@.len() == self.graph.compile_order@.len(),
        ensures
            publish_file(
                self.plan_context(inputs),
                i as int,
                PlanState { steps: step_views(old(steps)@), stubs: old(stubs).deep_view(), dirty: dirty_set.deep_view(), lock },
            ) == (PlanState { steps: step_views(final(steps)@), stubs: final(stubs).deep_view(), dirty: dirty_set.deep_view(), lock }),
    {
        let ghost ctx = self.plan_context(inputs);
        let file = &self.graph.compile_order[i];
        assert(file@ == ctx.order[i as int]);
        let module = match module_name_for_file(&self.graph.module_map, file) {
            Some(m) => m,
            None => inputs.stems[i].clone(),
        };
        assert(inputs.stems.deep_view()[i as int] == inputs.stems@[i as int]@);
        let stub = path_of(&self.workspace.config.layout.stubs, "/", &module, ".stub");
        if !list_contains(stubs, &stub) || list_contains(dirty_set, &module) {
            let ghost sv = step_views(steps@);
            let ghost stv = stubs.deep_view();
            steps.push(BuildStep::PublishStub { module: module.clone(), source: file.clone(), stub: stub.clone() });
            stubs.push(stub);
            assert(step_views(steps@) =~= sv.push(BuildStepView::PublishStub { module: module@, source: file@, stub: stub_path(ctx.stubs_dir, module@) }));
            assert(stubs.deep_view() =~= stv.push(stub_path(ctx.stubs_dir, module@)));
        }
    }

    /// The steps of a build and the lock entries to save after it: every file of
    /// the compile order is compiled where its module is dirty (after the stubs
    /// of its local imports are generated where missing or stale) and skipped
    /// otherwise; the stubs of the project's modules are published; then a
    /// static project is archived and an executable linked.
    pub fn plan(&self, lock: LockFile, inputs: &BuildInputs) -> (r: (Vec<BuildStep>, LockFile))
        requires
            inputs.stems@.len() == self.graph.compile_order@.len(),
            inputs.hashes@.len() == self.graph.compile_order@.len(),
        ensures
            (step_views(r.0@), r.1.view_entries()) == build_plan(
                self.plan_context(inputs),
                self.workspace.config@,
                self.workspace.entry@,
                inputs.exe_ext@,
                inputs.entry_stem@,
                lock.view_entries(),
                inputs.existing_stubs.deep_view(),
            ),
    {
        let ghost ctx = self.plan_context(inputs);
        let ghost st0 = PlanState {
            steps: Seq::empty(),
            stubs: inputs.existing_stubs.deep_view(),
            dirty: Seq::empty(),
            lock: lock.view_entries(),
        };
        let mut lock = lock;
        let mut steps: Vec<BuildStep> = Vec::new();
        let mut stubs = clone_strings(&inputs.existing_stubs);
        let mut dirty_set: Vec<String> = Vec::new();
        assert(step_views(steps@) =~= Seq::<BuildStepView>::empty());
        assert(dirty_set.deep_view() =~= Seq::<Seq<char>>::empty());
        let n = self.graph.compile_order.len();
        let mut i: usize = 0;
        while i < n
            invariant
                ctx == self.plan_context(inputs),
                n == self.graph.compile_order@.len(),
                n == ctx.order.len(),
                inputs.stems@.len() == n,
                inputs.hashes@.len() == n,
                i <= n,
                compile_files(ctx, 0, st0) == compile_files(
                    ctx,
                    i as int,
                    PlanState {
                        steps: step_views(steps@),
                        stubs: stubs.deep_view(),
                        dirty: dirty_set.deep_view(),
                        lock: lock.view_entries(),
                    },
                ),
            decreases n - i,
        {
            self.compile_one(inputs, i, &mut steps, &mut stubs, &mut dirty_set, &mut lock);
            i = i + 1;
        }
        let ghost st1 = PlanState {
            steps: step_views(steps@),
            stubs: stubs.deep_view(),
            dirty: dirty_set.deep_view(),
            lock: lock.view_entries(),
        };
        assert(compile_files(ctx, 0, st0) == st1);
        let mut i: usize = 0;
        while i < n
            invariant
                ctx == self.plan_context(inputs),
                n == self.graph.compile_order@.len(),
                n == ctx.order.len(),
                inputs.stems@.len() == n,
                i <= n,
                st1.dirty == dirty_set.deep_view(),
                st1.lock == lock.view_entries(),
                publish_files(ctx, 0, st1) == publish_files(
                    ctx,
                    i as int,
                    PlanState {
                        steps: step_views(steps@),
                        stubs: stubs.deep_view(),
                        dirty: dirty_set.deep_view(),
                        lock: lock.view_entries(),
                    },
                ),
            decreases n - i,
        {
            self.publish_one(inputs, i, &mut steps, &mut stubs, &dirty_set, Ghost(lock.view_entries()));
            i = i + 1;
        }
        let ghost st2 = PlanState {
            steps: step_views(steps@),
            stubs: stubs.deep_view(),
            dirty: dirty_set.deep_view(),
            lock: lock.view_entries(),
        };
        assert(publish_files(ctx, 0, st1) == st2);
        let ghost plan = build_plan(
            ctx,
            self.workspace.config@,
            self.workspace.entry@,
            inputs.exe_ext@,
            inputs.entry_stem@,
            st0.lock,
            st0.stubs,
        );
        assert(plan.1 == st2.lock);
        let config = &self.workspace.config;
        if config.project.mode == BuildMode::Static {
            let output = path_of(&config.layout.build, "/", &config.project.name, ".a");
            let mut objects: Vec<String> = Vec::new();
            let mut i: usize = 0;
            while i < n
                invariant
                    ctx == self.plan_context(inputs),
                    n == ctx.order.len(),
                    inputs.stems@.len() == n,
                    i <= n,
                    *config == self.workspace.config,
                    objects.deep_view() == all_objects(ctx).take(i as int),
                decreases n - i,
            {
                let ghost before = objects.deep_view();
                let o = path_of_strings(&config.layout.objs, &inputs.stems[i], &inputs.obj_ext);
                assert(inputs.stems.deep_view()[i as int] == inputs.stems@[i as int]@);
                objects.push(o);
                assert(objects.deep_view() =~= before.push(o@));
                assert(objects.deep_view() =~= all_objects(ctx).take(i + 1));
                i = i + 1;
            }
            assert(all_objects(ctx).take(n as int) =~= all_objects(ctx));
            let ghost sv = step_views(steps@);
            let ghost ov = objects.deep_view();
            steps.push(BuildStep::Archive { output, objects });
            assert(step_views(steps@) =~= sv.push(BuildStepView::Archive { output: output@, objects: ov }));
            assert(step_views(steps@) == plan.0);
        } else if config.project.mode == BuildMode::Executable {
            let output = path_of_strings(&config.layout.build, &config.project.name, &inputs.exe_ext);
            let mut objects: Vec<String> = Vec::new();
            let entry_object = path_of_strings(&config.layout.objs, &inputs.entry_stem, &inputs.obj_ext);
            let ghost eo = entry_object@;
            objects.push(entry_object);
            let ghost first = objects.deep_view();
            assert(first =~= seq![object_path(ctx.obj_dir, inputs.entry_stem@, ctx.obj_ext)]);
            assert(eo == object_path(ctx.obj_dir, inputs.entry_stem@, ctx.obj_ext));
            let mut i: usize = 0;
            while i < n
                invariant
                    ctx == self.plan_context(inputs),
                    n == ctx.order.len(),
                    n == self.graph.compile_order@.len(),
                    inputs.stems@.len() == n,
                    i <= n,
                    *config == self.workspace.config,
                    objects.deep_view() == first + objects_except(ctx, self.workspace.entry@, i as int),
                decreases n - i,
            {
                let file = &self.graph.compile_order[i];
                assert(file@ == ctx.order[i as int]);
                if *file != self.workspace.entry {
                    let ghost before = objects.deep_view();
                    let o = path_of_strings(&config.layout.objs, &inputs.stems[i], &inputs.obj_ext);
                    assert(inputs.stems.deep_view()[i as int] == inputs.stems@[i as int]@);
                    objects.push(o);
                    assert(objects.deep_view() =~= before.push(o@));
                    assert(objects.deep_view() =~= first + objects_except(ctx, self.workspace.entry@, i + 1));
                } else {
                    assert(objects_except(ctx, self.workspace.entry@, i + 1) == objects_except(ctx, self.workspace.entry@, i as int));
                }
                i = i + 1;
            }
            let ghost files_only = objects.deep_view();
            assert(files_only == seq![object_path(ctx.obj_dir, inputs.entry_stem@, ctx.obj_ext)] + objects_except(
                ctx,
                self.workspace.entry@,
                n as int,
            ));
            let mut d: usize = 0;
            assert(ctx.unresolved.take(0) =~= Seq::<Seq<char>>::empty());
            assert(files_only + dependency_objects(ctx.ext, ctx.unresolved.take(0)) =~= files_only);
            while d < self.graph.unresolved.len()
                invariant
                    ctx == self.plan_context(inputs),
                    ctx.unresolved == self.graph.unresolved.deep_view(),
                    d <= ctx.unresolved.len(),
                    objects.deep_view() == files_only + dependency_objects(ctx.ext, ctx.unresolved.take(d as int)),
                decreases ctx.unresolved.len() - d,
            {
                let ghost before = objects.deep_view();
                append_external(&mut objects, &inputs.dependencies, &self.graph.unresolved[d], false);
                proof {
                    let us = ctx.unresolved;
                    assert(us.take(d + 1).drop_last() =~= us.take(d as int));
                    assert(us.take(d + 1).last() == us[d as int]);
                    assert(self.graph.unresolved@[d as int]@ == us[d as int]);
                    assert(objects.deep_view() =~= files_only + dependency_objects(ctx.ext, us.take(d + 1)));
                }
                d = d + 1;
            }
            assert(ctx.unresolved.take(ctx.unresolved.len() as int) =~= ctx.unresolved);
            let ghost with_files = objects.deep_view();
            assert(with_files == seq![object_path(ctx.obj_dir, inputs.entry_stem@, ctx.obj_ext)] + objects_except(
                ctx,
                self.workspace.entry@,
                n as int,
            ) + dependency_objects(ctx.ext, ctx.unresolved));
            match &config.link {
                Some(link) => {
                    let mut k: usize = 0;
                    assert(link.links.deep_view().take(0) =~= Seq::<(Seq<char>, Seq<Seq<char>>)>::empty());
                    assert(with_files + link_libraries(link.links.deep_view().take(0)) =~= with_files);
                    while k < link.links.len()
                        invariant
                            k <= link.links@.len(),
                            objects.deep_view() == with_files + link_libraries(link.links.deep_view().take(k as int)),
                        decreases link.links@.len() - k,
                    {
                        let libs = &link.links[k].1;
                        let ghost base = objects.deep_view();
                        let mut t: usize = 0;
                        while t < libs.len()
                            invariant
                                t <= libs@.len(),
                                objects.deep_view() == base + libs.deep_view().take(t as int),
                            decreases libs@.len() - t,
                        {
                            let ghost before = objects.deep_view();
                            let l = libs[t].clone();
                            assert(l@ == libs.deep_view()[t as int]);
                            objects.push(l);
                            assert(objects.deep_view() =~= before.push(l@));
                            assert(objects.deep_view() =~= base + libs.deep_view().take(t + 1));
                            t = t + 1;
                        }
                        proof {
                            let ls = link.links.deep_view();
                            assert(libs.deep_view().take(libs@.len() as int) =~= libs.deep_view());
                            assert(ls.take(k + 1).drop_last() =~= ls.take(k as int));
                            assert(ls.take(k + 1).last().1 == libs.deep_view());
                            assert(objects.deep_view() =~= with_files + link_libraries(ls.take(k + 1)));
                        }
                        k = k + 1;
                    }
                    assert(link.links.deep_view().take(link.links@.len() as int) =~= link.links.deep_view());
                },
                None => {
                    assert(objects.deep_view() =~= with_files + Seq::<Seq<char>>::empty());
                },
            }
            let script = match &config.project.script {
                Some(sc) => Some(sc.clone()),
                None => None,
            };
            let ghost sv = step_views(steps@);
            let ghost ov = objects.deep_view();
            let ghost scv = script.deep_view();
            assert(scv == self.workspace.config@.project.script);
            assert(ov == with_files + match self.workspace.config@.link {
                Some(l) => link_libraries(l),
                None => Seq::<Seq<char>>::empty(),
            });
            assert(output@ == self.workspace.config@.layout.build + "/"@ + self.workspace.config@.project.name + inputs.exe_ext@);
            steps.push(BuildStep::Link { output, objects, script });
            assert(step_views(steps@) =~= sv.push(BuildStepView::Link { output: output@, objects: ov, script: scv }));
            assert(step_views(steps@) == plan.0);
        } else {
            assert(step_views(steps@) == plan.0);
        }
        (steps, lock)
    }
}


impl Builder {
    fn check_one(
        &self,
        lock: &LockFile,
        inputs: &BuildInputs,
        i: usize,
        steps: &mut Vec<BuildStep>,
        stubs: &mut Vec<String>,
        dirty_set: &mut Vec<String>,
    )
        requires
            i < self.graph.compile_order@.len(),
            inputs.stems@.len() == self.graph.compile_order@.len(),
            inputs.hashes@.len() == self.graph.compile_order@.len(),
        ensures
            check_file(
                self.plan_context(inputs),
                i as int,
                PlanState {
                    steps: step_views(old(steps)@),
                    stubs: old(stubs).deep_view(),
                    dirty: old(dirty_set).deep_view(),
                    lock: lock.view_entries(),
                },
            ) == (PlanState {
                steps: step_views(final(steps)@),
                stubs: final(stubs).deep_view(),
                dirty: final(dirty_set).deep_view(),
                lock: lock.view_entries(),
            }),
    {
        let ghost ctx = self.plan_context(inputs);
        let file = &self.graph.compile_order[i];
        assert(file@ == ctx.order[i as int]);
        let found = crate::graph::find_key_pub(&self.graph.dependecies, file);
        proof {
            crate::graph::lemma_key_index_same_keys(
                self.graph.dependecies@.map_values(|e: (String, Vec<String>)| (e.0@, ())),
                ctx.deps,
                file@,
            );
            lemma_key_index(ctx.deps, file@);
        }
        let j = match found {
            Some(j) => j,
            None => return,
        };
        let imports = &self.graph.dependecies[j].1;
        assert(imports.deep_view() == ctx.deps[j as int].1);
        let module = match module_name_for_file(&self.graph.module_map, file) {
            Some(m) => m,
            None => inputs.stems[i].clone(),
        };
        assert(inputs.stems.deep_view()[i as int] == inputs.stems@[i as int]@);
        assert(module@ == file_module(ctx.mm, file@, ctx.stems[i as int]));
        assert(inputs.hashes@[i as int].deep_view() == ctx.hashes[i as int]);
        if !lock.is_dirty(&module, &inputs.hashes[i], imports, dirty_set) {
            let ghost sv = step_views(steps@);
            steps.push(BuildStep::Skip { file: file.clone() });
            assert(step_views(steps@) =~= sv.push(BuildStepView::Skip { file: file@ }));
            return;
        }
        let ghost dv = dirty_set.deep_view();
        dirty_set.push(module);
        assert(dirty_set.deep_view() =~= dv.push(module@));
        let paths = self.gather(inputs, imports, steps, stubs, dirty_set, Ghost(lock.view_entries()));
        let ghost sv = step_views(steps@);
        let ghost pv = paths.deep_view();
        steps.push(BuildStep::Check { file: file.clone(), stubs: paths });
        assert(step_views(steps@) =~= sv.push(BuildStepView::Check { file: file@, stubs: pv }));
    }

    /// The steps of a front-end check of the project: each file of the compile
    /// order whose module is dirty is checked, after the stubs of its local
    /// imports are generated where missing or stale; clean files are skipped.
    /// Nothing is archived or linked, and the lock is left as it is.
    pub fn check_plan(&self, lock: &LockFile, inputs: &BuildInputs) -> (steps: Vec<BuildStep>)
        requires
            inputs.stems@.len() == self.graph.compile_order@.len(),
            inputs.hashes@.len() == self.graph.compile_order@.len(),
        ensures
            step_views(steps@) == check_plan(
                self.plan_context(inputs),
                lock.view_entries(),
                inputs.existing_stubs.deep_view(),
            ),
    {
        let ghost ctx = self.plan_context(inputs);
        let ghost st0 = PlanState {
            steps: Seq::empty(),
            stubs: inputs.existing_stubs.deep_view(),
            dirty: Seq::empty(),
            lock: lock.view_entries(),
        };
        let mut steps: Vec<BuildStep> = Vec::new();
        let mut stubs = clone_strings(&inputs.existing_stubs);
        let mut dirty_set: Vec<String> = Vec::new();
        assert(step_views(steps@) =~= Seq::<BuildStepView>::empty());
        assert(dirty_set.deep_view() =~= Seq::<Seq<char>>::empty());
        let n = self.graph.compile_order.len();
        let mut i: usize = 0;
        while i < n
            invariant
                ctx == self.plan_context(inputs),
                n == self.graph.compile_order@.len(),
                n == ctx.order.len(),
                inputs.stems@.len() == n,
                inputs.hashes@.len() == n,
                i <= n,
                check_files(ctx, 0, st0) == check_files(
                    ctx,
                    i as int,
                    PlanState {
                        steps: step_views(steps@),
                        stubs: stubs.deep_view(),
                        dirty: dirty_set.deep_view(),
                        lock: lock.view_entries(),
                    },
                ),
            decreases n - i,
        {
            self.check_one(lock, inputs, i, &mut steps, &mut stubs, &mut dirty_set);
            i = i + 1;
        }
        steps
    }
}

// ---------------------------------------------------------------------------------------------
// What the link step is given.

proof fn lemma_libraries_of_entry(links: Seq<(Seq<char>, Seq<Seq<char>>)>, i: int, j: int)
    requires
        0 <= i < links.len(),
        0 <= j < links[i].1.len(),
    ensures
        link_libraries(links).contains(links[i].1[j]),
    decreases links.len(),
{
    let pre = link_libraries(links.drop_last());
    let last = links.last().1;
    assert(link_libraries(links) == pre + last);
    if i == links.len() - 1 {
        assert((pre + last)[pre.len() + j] == last[j]);
    } else {
        assert(links.drop_last()[i] == links[i]);
        lemma_libraries_of_entry(links.drop_last(), i, j);
        let k = choose|k: int| 0 <= k < pre.len() && pre[k] == links[i].1[j];
        assert((pre + last)[k] == pre[k]);
    }
}

proof fn lemma_artifacts_of_module(ext: Seq<(Seq<char>, ResolvedView)>, us: Seq<Seq<char>>, m: int, e: int, a: int)
    requires
        0 <= m < us.len(),
        key_index(ext, us[m]) == Some(e),
        0 <= e < ext.len(),
        0 <= a < ext[e].1.artifacts.len(),
    ensures
        dependency_objects(ext, us).contains(ext[e].1.artifacts[a]),
    decreases us.len(),
{
    let pre = dependency_objects(ext, us.drop_last());
    let last = external_artifacts(ext, us.last());
    assert(dependency_objects(ext, us) == pre + last);
    if m == us.len() - 1 {
        assert(last == ext[e].1.artifacts);
        assert((pre + last)[pre.len() + a] == last[a]);
    } else {
        assert(us.drop_last()[m] == us[m]);
        lemma_artifacts_of_module(ext, us.drop_last(), m, e, a);
        let k = choose|k: int| 0 <= k < pre.len() && pre[k] == ext[e].1.artifacts[a];
        assert((pre + last)[k] == pre[k]);
    }
}

proof fn lemma_objects_of_files(ctx: PlanContext, entry: Seq<char>, n: int, i: int)
    requires
        0 <= i < n,
        n <= ctx.order.len(),
        ctx.order[i] != entry,
    ensures
        objects_except(ctx, entry, n).contains(object_path(ctx.obj_dir, ctx.stems[i], ctx.obj_ext)),
    decreases n,
{
    let pre = objects_except(ctx, entry, n - 1);
    if i == n - 1 {
        assert(objects_except(ctx, entry, n) == pre.push(object_path(ctx.obj_dir, ctx.stems[i], ctx.obj_ext)));
        assert(objects_except(ctx, entry, n)[pre.len() as int] == object_path(ctx.obj_dir, ctx.stems[i], ctx.obj_ext));
    } else {
        lemma_objects_of_files(ctx, entry, n - 1, i);
        let k = choose|k: int| 0 <= k < pre.len() && pre[k] == object_path(ctx.obj_dir, ctx.stems[i], ctx.obj_ext);
        if ctx.order[n - 1] != entry {
            assert(objects_except(ctx, entry, n)[k] == pre[k]);
        }
    }
}

/// The link step of an executable is the last step of the build, and it is
/// given the entry file's object first, then the object of every other file of
/// the compile order, every artifact of every module of another project that
/// the resolver found, and every library of every `[link]` entry.
pub proof fn lemma_link_step_gets_everything(
    ctx: PlanContext,
    config: crate::config::ConfigView,
    entry: Seq<char>,
    exe_ext: Seq<char>,
    entry_stem: Seq<char>,
    lock: Seq<LockEntryView>,
    stubs: Seq<Seq<char>>,
)
    requires
        config.project.mode == BuildMode::Executable,
    ensures
        ({
            let steps = build_plan(ctx, config, entry, exe_ext, entry_stem, lock, stubs).0;
            &&& steps.len() >= 1
            &&& steps.last() matches BuildStepView::Link { output, objects, script } && {
                &&& output == config.layout.build + "/"@ + config.project.name + exe_ext
                &&& script == config.project.script
                &&& objects.len() >= 1
                &&& objects[0] == object_path(ctx.obj_dir, entry_stem, ctx.obj_ext)
                &&& forall|i: int|
                    0 <= i < ctx.order.len() && #[trigger] ctx.order[i] != entry ==> objects.contains(
                        object_path(ctx.obj_dir, ctx.stems[i], ctx.obj_ext),
                    )
                &&& forall|m: int, e: int, a: int|
                    0 <= m < ctx.unresolved.len() && #[trigger] key_index(ctx.ext, ctx.unresolved[m]) == Some(e)
                        && 0 <= a < ctx.ext[e].1.artifacts.len() ==> objects.contains(#[trigger] ctx.ext[e].1.artifacts[a])
                &&& forall|i: int, j: int|
                    config.link is Some && 0 <= i < config.link->0.len() && 0 <= j < config.link->0[i].1.len()
                        ==> objects.contains(#[trigger] config.link->0[i].1[j])
            }
        }),
{
    let plan = build_plan(ctx, config, entry, exe_ext, entry_stem, lock, stubs);
    let files = objects_except(ctx, entry, ctx.order.len() as int);
    let deps = dependency_objects(ctx.ext, ctx.unresolved);
    let libs = match config.link {
        Some(l) => link_libraries(l),
        None => Seq::empty(),
    };
    let head = seq![object_path(ctx.obj_dir, entry_stem, ctx.obj_ext)];
    let objects = head + files + deps + libs;
    assert(plan.0.last() matches BuildStepView::Link { objects: o, .. } && o == objects);
    assert(objects[0] == head[0]);
    assert forall|i: int|
        0 <= i < ctx.order.len() && #[trigger] ctx.order[i] != entry implies objects.contains(
            object_path(ctx.obj_dir, ctx.stems[i], ctx.obj_ext),
        ) by {
        lemma_objects_of_files(ctx, entry, ctx.order.len() as int, i);
        let k = choose|k: int| 0 <= k < files.len() && files[k] == object_path(ctx.obj_dir, ctx.stems[i], ctx.obj_ext);
        assert(objects[1 + k] == files[k]);
    }
    assert forall|m: int, e: int, a: int|
        0 <= m < ctx.unresolved.len() && #[trigger] key_index(ctx.ext, ctx.unresolved[m]) == Some(e) && 0 <= a
            < ctx.ext[e].1.artifacts.len() implies objects.contains(#[trigger] ctx.ext[e].1.artifacts[a]) by {
        lemma_key_index(ctx.ext, ctx.unresolved[m]);
        lemma_artifacts_of_module(ctx.ext, ctx.unresolved, m, e, a);
        let k = choose|k: int| 0 <= k < deps.len() && deps[k] == ctx.ext[e].1.artifacts[a];
        assert(objects[1 + files.len() + k] == deps[k]);
    }
    assert forall|i: int, j: int|
        config.link is Some && 0 <= i < config.link->0.len() && 0 <= j < config.link->0[i].1.len() implies objects.contains(
            #[trigger] config.link->0[i].1[j],
        ) by {
        let links = config.link->0;
        lemma_libraries_of_entry(links, i, j);
        let k = choose|k: int| 0 <= k < libs.len() && libs[k] == links[i].1[j];
        assert(objects[1 + files.len() + deps.len() + k] == libs[k]);
    }
}

// ---------------------------------------------------------------------------------------------
// What a compile or check step loads.

/// The stubs a file's imports bring: the stub of each import that a file of the
/// project declares, and every stub the resolver found for each import of
/// another project.
pub open spec fn loads_every_import_stub(ctx: PlanContext, imports: Seq<Seq<char>>, from: int, paths: Seq<Seq<char>>) -> bool {
    &&& forall|i: int|
        from <= i < imports.len() && (#[trigger] resolve(ctx.mm, imports[i])) is Some ==> paths.contains(
            stub_path(ctx.stubs_dir, imports[i]),
        )
    &&& forall|i: int, e: int, t: int|
        from <= i < imports.len() && resolve(ctx.mm, imports[i]) is None && #[trigger] key_index(ctx.ext, imports[i])
            == Some(e) && 0 <= t < ctx.ext[e].1.stubs.len() ==> paths.contains(#[trigger] ctx.ext[e].1.stubs[t])
}

proof fn lemma_gather_loads(ctx: PlanContext, imports: Seq<Seq<char>>, k: int, st: PlanState, paths: Seq<Seq<char>>)
    requires
        0 <= k,
    ensures
        forall|x: Seq<char>| paths.contains(x) ==> #[trigger] gather_stubs(ctx, imports, k, st, paths).1.contains(x),
        loads_every_import_stub(ctx, imports, k, gather_stubs(ctx, imports, k, st, paths).1),
    decreases imports.len() - k,
{
    if k < imports.len() {
        let name = imports[k];
        let next_paths = match resolve(ctx.mm, name) {
            None => paths + external_stubs(ctx.ext, name),
            Some(_) => paths.push(stub_path(ctx.stubs_dir, name)),
        };
        let st2 = match resolve(ctx.mm, name) {
            None => st,
            Some(source) => {
                let stub = stub_path(ctx.stubs_dir, name);
                if !st.stubs.contains(stub) || st.dirty.contains(name) {
                    PlanState {
                        steps: st.steps.push(BuildStepView::GenerateStub { module: name, source, stub }),
                        stubs: st.stubs.push(stub),
                        ..st
                    }
                } else {
                    st
                }
            },
        };
        assert(gather_stubs(ctx, imports, k, st, paths) == gather_stubs(ctx, imports, k + 1, st2, next_paths));
        lemma_gather_loads(ctx, imports, k + 1, st2, next_paths);
        let r = gather_stubs(ctx, imports, k, st, paths).1;
        assert forall|x: Seq<char>| paths.contains(x) implies #[trigger] r.contains(x) by {
            let t = choose|t: int| 0 <= t < paths.len() && paths[t] == x;
            assert(next_paths[t] == x);
            assert(next_paths.contains(x));
        }
        assert forall|i: int|
            k <= i < imports.len() && (#[trigger] resolve(ctx.mm, imports[i])) is Some implies r.contains(
                stub_path(ctx.stubs_dir, imports[i]),
            ) by {
            if i == k {
                assert(next_paths[paths.len() as int] == stub_path(ctx.stubs_dir, name));
                assert(next_paths.contains(stub_path(ctx.stubs_dir, name)));
            }
        }
        assert forall|i: int, e: int, t: int|
            k <= i < imports.len() && resolve(ctx.mm, imports[i]) is None && #[trigger] key_index(ctx.ext, imports[i])
                == Some(e) && 0 <= t < ctx.ext[e].1.stubs.len() implies r.contains(#[trigger] ctx.ext[e].1.stubs[t]) by {
            if i == k {
                assert(external_stubs(ctx.ext, name) == ctx.ext[e].1.stubs);
                assert(next_paths[paths.len() + t] == ctx.ext[e].1.stubs[t]);
                assert(next_paths.contains(ctx.ext[e].1.stubs[t]));
            }
        }
    }
}

/// A file compiled again is compiled with the stub of every module it imports:
/// that of each module a file of the project declares, and every stub that the
/// resolver found for each module of another project.
pub proof fn lemma_compile_loads_every_import(ctx: PlanContext, i: int, st: PlanState)
    requires
        key_index(ctx.deps, ctx.order[i]) is Some,
        dirty(
            st.lock,
            file_module(ctx.mm, ctx.order[i], ctx.stems[i]),
            ctx.hashes[i],
            ctx.deps[key_index(ctx.deps, ctx.order[i])->0].1,
            st.dirty,
        ),
    ensures
        compile_file(ctx, i, st).steps.last() matches BuildStepView::Compile { file, object, stubs } && file
            == ctx.order[i] && object == object_path(ctx.obj_dir, ctx.stems[i], ctx.obj_ext) && loads_every_import_stub(
            ctx,
            ctx.deps[key_index(ctx.deps, ctx.order[i])->0].1,
            0,
            stubs,
        ),
{
    let imports = ctx.deps[key_index(ctx.deps, ctx.order[i])->0].1;
    lemma_gather_loads(ctx, imports, 0, st, Seq::empty());
}

/// A file checked is checked with the stub of every module it imports.
pub proof fn lemma_check_loads_every_import(ctx: PlanContext, i: int, st: PlanState)
    requires
        key_index(ctx.deps, ctx.order[i]) is Some,
        dirty(
            st.lock,
            file_module(ctx.mm, ctx.order[i], ctx.stems[i]),
            ctx.hashes[i],
            ctx.deps[key_index(ctx.deps, ctx.order[i])->0].1,
            st.dirty,
        ),
    ensures
        check_file(ctx, i, st).steps.last() matches BuildStepView::Check { file, stubs } && file == ctx.order[i]
            && loads_every_import_stub(ctx, ctx.deps[key_index(ctx.deps, ctx.order[i])->0].1, 0, stubs),
{
    let imports = ctx.deps[key_index(ctx.deps, ctx.order[i])->0].1;
    let st1 = PlanState { dirty: st.dirty.push(file_module(ctx.mm, ctx.order[i], ctx.stems[i])), ..st };
    lemma_gather_loads(ctx, imports, 0, st1, Seq::empty());
}

// ---------------------------------------------------------------------------------------------
// What is published and archived.

/// Whether the step publishes the stub `stub`.
pub open spec fn publishes(step: BuildStepView, stub: Seq<char>) -> bool {
    step matches BuildStepView::PublishStub { stub: s, .. } && s == stub
}

proof fn lemma_publish_files_publish(ctx: PlanContext, i: int, st: PlanState)
    requires
        0 <= i,
    ensures
        publish_files(ctx, i, st).dirty == st.dirty,
        forall|x: BuildStepView| st.steps.contains(x) ==> #[trigger] publish_files(ctx, i, st).steps.contains(x),
        forall|t: int|
            i <= t < ctx.order.len() && st.dirty.contains(#[trigger] file_module(ctx.mm, ctx.order[t], ctx.stems[t]))
                ==> publish_files(ctx, i, st).steps.contains(
                BuildStepView::PublishStub {
                    module: file_module(ctx.mm, ctx.order[t], ctx.stems[t]),
                    source: ctx.order[t],
                    stub: stub_path(ctx.stubs_dir, file_module(ctx.mm, ctx.order[t], ctx.stems[t])),
                },
            ),
        forall|t: int|
            i <= t < ctx.order.len() && !st.stubs.contains(
                stub_path(ctx.stubs_dir, #[trigger] file_module(ctx.mm, ctx.order[t], ctx.stems[t])),
            ) ==> exists|s: int|
                0 <= s < publish_files(ctx, i, st).steps.len() && publishes(#[trigger] publish_files(ctx, i, st).steps[s], stub_path(
                    ctx.stubs_dir,
                    file_module(ctx.mm, ctx.order[t], ctx.stems[t]),
                )),
    decreases ctx.order.len() - i,
{
    if i < ctx.order.len() {
        let st2 = publish_file(ctx, i, st);
        lemma_publish_files_publish(ctx, i + 1, st2);
        let r = publish_files(ctx, i, st);
        let m = file_module(ctx.mm, ctx.order[i], ctx.stems[i]);
        let stub = stub_path(ctx.stubs_dir, m);
        let step = BuildStepView::PublishStub { module: m, source: ctx.order[i], stub };
        assert forall|x: BuildStepView| st.steps.contains(x) implies #[trigger] r.steps.contains(x) by {
            let k = choose|k: int| 0 <= k < st.steps.len() && st.steps[k] == x;
            assert(st2.steps[k] == x);
            assert(st2.steps.contains(x));
        }
        assert forall|x: Seq<char>| st.stubs.contains(x) implies st2.stubs.contains(x) by {
            let k = choose|k: int| 0 <= k < st.stubs.len() && st.stubs[k] == x;
            assert(st2.stubs[k] == x);
        }
        if !st.stubs.contains(stub) || st.dirty.contains(m) {
            assert(st2.steps[st.steps.len() as int] == step);
            assert(st2.steps.contains(step));
            assert(r.steps.contains(step));
        }
        assert forall|t: int|
            i <= t < ctx.order.len() && !st.stubs.contains(
                stub_path(ctx.stubs_dir, #[trigger] file_module(ctx.mm, ctx.order[t], ctx.stems[t])),
            ) implies exists|s: int|
                0 <= s < r.steps.len() && publishes(#[trigger] r.steps[s], stub_path(ctx.stubs_dir, file_module(ctx.mm, ctx.order[t], ctx.stems[t]))) by {
            let mt = file_module(ctx.mm, ctx.order[t], ctx.stems[t]);
            if t == i {
                let s = choose|s: int| 0 <= s < r.steps.len() && r.steps[s] == step;
                assert(publishes(r.steps[s], stub_path(ctx.stubs_dir, mt)));
            } else if st2.stubs.contains(stub_path(ctx.stubs_dir, mt)) {
                // published by the `i`-th file, whose stub is the same path
                assert(st2.stubs != st.stubs);
                assert(st2.stubs == st.stubs.push(stub));
                if stub != stub_path(ctx.stubs_dir, mt) {
                    let k = choose|k: int| 0 <= k < st2.stubs.len() && st2.stubs[k] == stub_path(ctx.stubs_dir, mt);
                    assert(k < st.stubs.len());
                    assert(st.stubs[k] == stub_path(ctx.stubs_dir, mt));
                }
                let s = choose|s: int| 0 <= s < r.steps.len() && r.steps[s] == step;
                assert(publishes(r.steps[s], stub_path(ctx.stubs_dir, mt)));
            }
        }
    }
}

/// Publishing gives a stub step to every module compiled again in this build,
/// and to every module whose stub did not exist when publishing began.
pub proof fn lemma_publish_covers_every_module(ctx: PlanContext, st: PlanState)
    ensures
        forall|t: int|
            0 <= t < ctx.order.len() && st.dirty.contains(#[trigger] file_module(ctx.mm, ctx.order[t], ctx.stems[t]))
                ==> publish_files(ctx, 0, st).steps.contains(
                BuildStepView::PublishStub {
                    module: file_module(ctx.mm, ctx.order[t], ctx.stems[t]),
                    source: ctx.order[t],
                    stub: stub_path(ctx.stubs_dir, file_module(ctx.mm, ctx.order[t], ctx.stems[t])),
                },
            ),
        forall|t: int|
            0 <= t < ctx.order.len() && !st.stubs.contains(
                stub_path(ctx.stubs_dir, #[trigger] file_module(ctx.mm, ctx.order[t], ctx.stems[t])),
            ) ==> exists|s: int|
                0 <= s < publish_files(ctx, 0, st).steps.len() && publishes(#[trigger] publish_files(ctx, 0, st).steps[s], stub_path(
                    ctx.stubs_dir,
                    file_module(ctx.mm, ctx.order[t], ctx.stems[t]),
                )),
{
    lemma_publish_files_publish(ctx, 0, st);
}

/// The archive of a static library holds the object of every file of the
/// compile order, in that order.
pub proof fn lemma_archive_holds_every_object(
    ctx: PlanContext,
    config: crate::config::ConfigView,
    entry: Seq<char>,
    exe_ext: Seq<char>,
    entry_stem: Seq<char>,
    lock: Seq<LockEntryView>,
    stubs: Seq<Seq<char>>,
)
    requires
        config.project.mode == BuildMode::Static,
    ensures
        ({
            let steps = build_plan(ctx, config, entry, exe_ext, entry_stem, lock, stubs).0;
            &&& steps.len() >= 1
            &&& steps.last() matches BuildStepView::Archive { output, objects } && {
                &&& output == config.layout.build + "/"@ + config.project.name + ".a"@
                &&& objects.len() == ctx.order.len()
                &&& forall|i: int| 0 <= i < ctx.order.len() ==> #[trigger] objects[i] == object_path(
                    ctx.obj_dir,
                    ctx.stems[i],
                    ctx.obj_ext,
                )
            }
        }),
{
}

} // verus!
