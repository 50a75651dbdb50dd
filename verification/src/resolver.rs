//! Finding the project that provides a module which no local file declares: the
//! standard library of the compiler first (unless the project is freestanding),
//! then the project's dependencies, each searched depth first through its own
//! dependencies, every project at most once.
//!
//! The search reads the disk, so it runs as a conversation: the resolver says
//! what it needs next (a path made canonical, a project's configuration and
//! stub looked up), and the caller answers.
use vstd::prelude::*;

use crate::config::{Config, FreeStanding};
use crate::graph::{key_index, lemma_key_index};

verus! {

/// What a module that another project provides brings to the build.
#[derive(Debug)]
pub struct ResolvedDependecy {
    pub stubs: Vec<String>,
    /// What we link against.
    pub artifacts: Vec<String>,
}

pub struct ResolvedView {
    pub stubs: Seq<Seq<char>>,
    pub artifacts: Seq<Seq<char>>,
}

impl View for ResolvedDependecy {
    type V = ResolvedView;

    open spec fn view(&self) -> ResolvedView {
        ResolvedView { stubs: self.stubs.deep_view(), artifacts: self.artifacts.deep_view() }
    }
}

/// The modules resolved so far and the projects already searched.
#[derive(Debug)]
pub struct Resolver {
    pub resolved: Vec<(String, ResolvedDependecy)>,
    visited_projects: Vec<String>,
}

/// A search for one module: the projects still to look at, in order, and the one being looked at.
#[derive(Debug)]
pub struct Search {
    module_name: String,
    pending: Vec<String>,
    current: String,
}

/// What the resolver needs next.
#[derive(Debug)]
pub enum ResolveAction {
    /// The search is over: whether the module was found.
    Done(bool),
    /// Make this path canonical and answer with `on_canonical`.
    Canonicalize(String),
    /// Load the configuration of the project at this path, look for the
    /// module's stub in its stubs folder and its artifacts, and answer with
    /// `on_loaded`; a configuration that cannot be loaded ends the search with that error.
    Load(String),
}

pub enum ResolveActionView {
    Done(bool),
    Canonicalize(Seq<char>),
    Load(Seq<char>),
}

impl View for ResolveAction {
    type V = ResolveActionView;

    open spec fn view(&self) -> ResolveActionView {
        match self {
            ResolveAction::Done(b) => ResolveActionView::Done(*b),
            ResolveAction::Canonicalize(p) => ResolveActionView::Canonicalize(p@),
            ResolveAction::Load(p) => ResolveActionView::Load(p@),
        }
    }
}

impl Resolver {
    /// The modules resolved so far, with what each brings.
    pub closed spec fn resolved_view(&self) -> Seq<(Seq<char>, ResolvedView)> {
        self.resolved@.map_values(|e: (String, ResolvedDependecy)| (e.0@, e.1@))
    }

    /// The canonical paths of the projects already searched.
    pub closed spec fn visited(&self) -> Seq<Seq<char>> {
        self.visited_projects.deep_view()
    }
}

impl Search {
    pub closed spec fn module(&self) -> Seq<char> {
        self.module_name@
    }

    /// The paths still to look at, in order.
    pub closed spec fn pending(&self) -> Seq<Seq<char>> {
        self.pending.deep_view()
    }

    /// The path being looked at.
    pub closed spec fn current(&self) -> Seq<char> {
        self.current@
    }
}


/// The next step of a search: the next pending path to make canonical, or the end.
pub open spec fn next_step(pending: Seq<Seq<char>>) -> ResolveActionView {
    if pending.len() == 0 {
        ResolveActionView::Done(false)
    } else {
        ResolveActionView::Canonicalize(pending[0])
    }
}

impl Resolver {
    /// A resolver that has resolved nothing and searched nothing.
    pub fn new() -> (r: Self)
        ensures
            r.resolved_view() == Seq::<(Seq<char>, ResolvedView)>::empty(),
            r.visited() == Seq::<Seq<char>>::empty(),
    {
        let r = Resolver { resolved: Vec::new(), visited_projects: Vec::new() };
        assert(r.resolved_view() =~= Seq::<(Seq<char>, ResolvedView)>::empty());
        assert(r.visited() =~= Seq::<Seq<char>>::empty());
        r
    }

    fn next(&self, search: &mut Search) -> (a: ResolveAction)
        ensures
            a@ == next_step(old(search).pending()),
            final(search).module() == old(search).module(),
            old(search).pending().len() > 0 ==> final(search).pending() == old(search).pending().drop_first()
                && final(search).current() == old(search).pending()[0],
            old(search).pending().len() == 0 ==> final(search).pending() == old(search).pending(),
    {
        if search.pending.len() == 0 {
            return ResolveAction::Done(false);
        }
        let ghost before = search.pending.deep_view();
        let path = search.pending.remove(0);
        assert(search.pending.deep_view() =~= before.drop_first());
        search.current = path.clone();
        ResolveAction::Canonicalize(path)
    }

    /// Starts the search for `module_name`: done at once where it was resolved
    /// before; else the standard library folder (`std_dir`, where the compiler
    /// was found and the project is not freestanding) and then the project's
    /// dependencies are looked at, in order. Each search that starts begins with
    /// no project searched, so a project searched for another module is searched
    /// again.
    pub fn resolve_project(&mut self, module_name: &String, current_config: &Config, std_dir: Option<String>) -> (r: (
        Search,
        ResolveAction,
    ))
        ensures
            final(self).resolved_view() == old(self).resolved_view(),
            r.0.module() == module_name@,
            key_index(old(self).resolved_view(), module_name@) is Some ==> r.1@ == ResolveActionView::Done(true)
                && final(self).visited() == old(self).visited() && r.0.pending() == Seq::<Seq<char>>::empty(),
            key_index(old(self).resolved_view(), module_name@) is None ==> final(self).visited() == Seq::<
                Seq<char>,
            >::empty(),
            key_index(old(self).resolved_view(), module_name@) is None ==> {
                let first: Seq<Seq<char>> = match std_dir {
                    Some(d) => if current_config.project.freestanding != FreeStanding::True {
                        seq![d@]
                    } else {
                        Seq::empty()
                    },
                    None => Seq::empty(),
                };
                let deps: Seq<Seq<char>> = match current_config@.dependecies {
                    Some(ds) => ds.map_values(|p: (Seq<char>, Seq<char>)| p.1),
                    None => Seq::empty(),
                };
                let all = first + deps;
                &&& r.1@ == next_step(all)
                &&& all.len() > 0 ==> r.0.pending() == all.drop_first() && r.0.current() == all[0]
            },
    {
        let mut search = Search { module_name: module_name.clone(), pending: Vec::new(), current: String::new() };
        assert(search.pending() =~= Seq::<Seq<char>>::empty());
        let found = crate::graph::find_key_pub(&self.resolved, module_name);
        proof {
            crate::graph::lemma_key_index_same_keys(
                self.resolved@.map_values(|e: (String, ResolvedDependecy)| (e.0@, ())),
                self.resolved_view(),
                module_name@,
            );
        }
        if found.is_some() {
            return (search, ResolveAction::Done(true));
        }
        self.visited_projects = Vec::new();
        assert(self.visited() =~= Seq::<Seq<char>>::empty());
        if current_config.project.freestanding != FreeStanding::True {
            if let Some(d) = std_dir {
                search.pending.push(d);
            }
        }
        let ghost first = search.pending.deep_view();
        if let Some(deps) = &current_config.dependecies {
            let mut i: usize = 0;
            while i < deps.deps.len()
                invariant
                    i <= deps.deps@.len(),
                    search.module_name@ == module_name@,
                    search.pending.deep_view() == first + deps.deps.deep_view().take(i as int).map_values(
                        |p: (Seq<char>, Seq<char>)| p.1,
                    ),
                decreases deps.deps@.len() - i,
            {
                let ghost before = search.pending.deep_view();
                let p = deps.deps[i].1.clone();
                search.pending.push(p);
                assert(search.pending.deep_view() =~= before.push(deps.deps.deep_view()[i as int].1));
                assert(deps.deps.deep_view().take(i + 1).map_values(|p: (Seq<char>, Seq<char>)| p.1) =~=
                    deps.deps.deep_view().take(i as int).map_values(|p: (Seq<char>, Seq<char>)| p.1).push(
                        deps.deps.deep_view()[i as int].1));
                assert(search.pending.deep_view() =~= first + deps.deps.deep_view().take(i + 1).map_values(
                    |p: (Seq<char>, Seq<char>)| p.1,
                ));
                i = i + 1;
            }
            assert(deps.deps.deep_view().take(deps.deps@.len() as int) =~= deps.deps.deep_view());
        } else {
            assert(search.pending.deep_view() =~= first + Seq::<Seq<char>>::empty());
        }
        let action = self.next(&mut search);
        (search, action)
    }

    /// The canonical form of the path being looked at: a project searched
    /// before is passed over; else it is marked searched and must be loaded.
    pub fn on_canonical(&mut self, search: &mut Search, canonical: String) -> (a: ResolveAction)
        ensures
            final(self).resolved_view() == old(self).resolved_view(),
            final(search).module() == old(search).module(),
            old(self).visited().contains(canonical@) ==> {
                &&& final(self).visited() == old(self).visited()
                &&& a@ == next_step(old(search).pending())
                &&& old(search).pending().len() > 0 ==> final(search).pending() == old(search).pending().drop_first()
                    && final(search).current() == old(search).pending()[0]
            },
            !old(self).visited().contains(canonical@) ==> {
                &&& final(self).visited() == old(self).visited().push(canonical@)
                &&& a@ == ResolveActionView::Load(old(search).current())
                &&& final(search).pending() == old(search).pending()
                &&& final(search).current() == old(search).current()
            },
    {
        if crate::text::list_contains(&self.visited_projects, &canonical) {
            return self.next(search);
        }
        let ghost before = self.visited_projects.deep_view();
        self.visited_projects.push(canonical);
        assert(self.visited_projects.deep_view() =~= before.push(canonical@));
        ResolveAction::Load(search.current.clone())
    }

    /// What the project being looked at holds: where it has the module's stub,
    /// the module is resolved to that stub and the project's artifacts; else
    /// its dependencies are looked at next, before the other pending projects.
    pub fn on_loaded(
        &mut self,
        search: &mut Search,
        stub: Option<String>,
        artifacts: Vec<String>,
        deps: Vec<String>,
    ) -> (a: ResolveAction)
        ensures
            final(self).visited() == old(self).visited(),
            final(search).module() == old(search).module(),
            match stub {
                Some(s) => {
                    &&& a@ == ResolveActionView::Done(true)
                    &&& final(self).resolved_view() == old(self).resolved_view().push(
                        (old(search).module(), ResolvedView { stubs: seq![s@], artifacts: artifacts.deep_view() }),
                    )
                },
                None => {
                    let all = deps.deep_view() + old(search).pending();
                    &&& final(self).resolved_view() == old(self).resolved_view()
                    &&& a@ == next_step(all)
                    &&& all.len() > 0 ==> final(search).pending() == all.drop_first() && final(search).current() == all[0]
                },
            },
    {
        match stub {
            Some(s) => {
                let ghost before = self.resolved_view();
                let ghost sv = s@;
                let ghost av = artifacts.deep_view();
                let mut stubs: Vec<String> = Vec::new();
                stubs.push(s);
                let entry = (search.module_name.clone(), ResolvedDependecy { stubs, artifacts });
                assert(entry.1@ == ResolvedView { stubs: seq![sv], artifacts: av }) by {
                    assert(entry.1.stubs.deep_view() =~= seq![sv]);
                }
                self.resolved.push(entry);
                assert(self.resolved_view() =~= before.push((search.module_name@, ResolvedView { stubs: seq![sv], artifacts: av })));
                ResolveAction::Done(true)
            },
            None => {
                let ghost all = deps.deep_view() + search.pending.deep_view();
                let mut pending = deps;
                let mut i: usize = 0;
                let ghost p0 = pending.deep_view();
                while i < search.pending.len()
                    invariant
                        i <= search.pending@.len(),
                        pending.deep_view() == p0 + search.pending.deep_view().take(i as int),
                    decreases search.pending@.len() - i,
                {
                    let ghost before = pending.deep_view();
                    let p = search.pending[i].clone();
                    pending.push(p);
                    assert(pending.deep_view() =~= before.push(search.pending.deep_view()[i as int]));
                    assert(pending.deep_view() =~= p0 + search.pending.deep_view().take(i + 1));
                    i = i + 1;
                }
                assert(search.pending.deep_view().take(search.pending@.len() as int) =~= search.pending.deep_view());
                search.pending = pending;
                self.next(search)
            },
        }
    }

    /// What the module brings, where it was resolved.
    pub fn get(&self, module_name: &String) -> (r: Option<&ResolvedDependecy>)
        ensures
            match key_index(self.resolved_view(), module_name@) {
                Some(j) => r matches Some(d) && d@ == self.resolved_view()[j].1,
                None => r is None,
            },
    {
        let found = crate::graph::find_key_pub(&self.resolved, module_name);
        proof {
            crate::graph::lemma_key_index_same_keys(
                self.resolved@.map_values(|e: (String, ResolvedDependecy)| (e.0@, ())),
                self.resolved_view(),
                module_name@,
            );
            lemma_key_index(self.resolved_view(), module_name@);
        }
        match found {
            Some(j) => Some(&self.resolved[j].1),
            None => None,
        }
    }
}

/// Whether an extension is one of `exts`.
pub open spec fn has_extension(ext: Option<Seq<char>>, exts: Seq<Seq<char>>) -> bool {
    match ext {
        Some(e) => exts.contains(e),
        None => false,
    }
}

/// The paths of the entries, given with their extensions, whose extension is one of `exts`, in order.
pub open spec fn paths_with_extension(entries: Seq<(Seq<char>, Option<Seq<char>>)>, exts: Seq<Seq<char>>) -> Seq<Seq<char>>
    decreases entries.len(),
{
    if entries.len() == 0 {
        Seq::empty()
    } else {
        let rest = paths_with_extension(entries.drop_last(), exts);
        if has_extension(entries.last().1, exts) {
            rest.push(entries.last().0)
        } else {
            rest
        }
    }
}

fn is_one_of(ext: &Option<String>, a: &str, b: &str) -> (r: bool)
    ensures
        r == has_extension(ext.deep_view(), seq![a@, b@]),
{
    match ext {
        Some(e) => {
            let ec = crate::text::str_chars(e.as_str());
            let r = crate::text::chars_eq(ec.as_slice(), crate::text::str_chars(a).as_slice())
                || crate::text::chars_eq(ec.as_slice(), crate::text::str_chars(b).as_slice());
            assert(seq![a@, b@].contains(e@) <==> (e@ == a@ || e@ == b@)) by {
                if e@ == b@ {
                    assert(seq![a@, b@][1] == b@);
                }
            }
            r
        },
        None => false,
    }
}

fn push_with_extension(out: &mut Vec<String>, entries: &Vec<(String, Option<String>)>, a: &str, b: &str)
    ensures
        final(out).deep_view() == old(out).deep_view() + paths_with_extension(entries.deep_view(), seq![a@, b@]),
{
    let ghost es = entries.deep_view();
    let ghost base = out.deep_view();
    let mut i: usize = 0;
    assert(es.take(0) =~= Seq::<(Seq<char>, Option<Seq<char>>)>::empty());
    assert(out.deep_view() =~= base + paths_with_extension(es.take(0), seq![a@, b@]));
    while i < entries.len()
        invariant
            es == entries.deep_view(),
            i <= es.len(),
            out.deep_view() == base + paths_with_extension(es.take(i as int), seq![a@, b@]),
        decreases es.len() - i,
    {
        assert(es.take(i + 1).drop_last() =~= es.take(i as int));
        assert(es.take(i + 1).last() == es[i as int]);
        assert(es[i as int] == (entries@[i as int].0@, entries@[i as int].1.deep_view()));
        if is_one_of(&entries[i].1, a, b) {
            let ghost before = out.deep_view();
            out.push(entries[i].0.clone());
            assert(out.deep_view() =~= before.push(es[i as int].0));
        }
        i = i + 1;
    }
    assert(es.take(es.len() as int) =~= es);
}

/// The artifacts of a dependency, from the entries of its object folder and
/// of its build folder, each given with its extension: the objects (`o`,
/// `obj`) and then the libraries (`a`, `so`), each in the order given.
pub fn find_artifacts(objs: &Vec<(String, Option<String>)>, build: &Vec<(String, Option<String>)>) -> (r: Vec<String>)
    ensures
        r.deep_view() == paths_with_extension(objs.deep_view(), seq!["o"@, "obj"@]) + paths_with_extension(
            build.deep_view(),
            seq!["a"@, "so"@],
        ),
{
    let mut r: Vec<String> = Vec::new();
    assert(r.deep_view() =~= Seq::<Seq<char>>::empty());
    push_with_extension(&mut r, objs, "o", "obj");
    assert(r.deep_view() =~= paths_with_extension(objs.deep_view(), seq!["o"@, "obj"@]));
    push_with_extension(&mut r, build, "a", "so");
    r
}

// ---------------------------------------------------------------------------------------------
// What a whole search finds.

/// How the caller answers the resolver: the canonical form of each path, whether
/// the project at a path has the module's stub, and the paths of its dependencies.
pub struct World {
    pub canon: spec_fn(Seq<char>) -> Seq<char>,
    pub stub: spec_fn(Seq<char>) -> bool,
    pub deps: spec_fn(Seq<char>) -> Seq<Seq<char>>,
}

/// Paths with the same canonical form are the same project.
pub open spec fn consistent(w: World) -> bool {
    forall|p: Seq<char>, q: Seq<char>|
        #![trigger (w.canon)(p), (w.canon)(q)]
        (w.canon)(p) == (w.canon)(q) ==> (w.stub)(p) == (w.stub)(q) && (w.deps)(p) == (w.deps)(q)
}

/// Each project of `ps` after the first is a dependency of the one before.
pub open spec fn is_dep_walk(w: World, ps: Seq<Seq<char>>) -> bool {
    &&& ps.len() >= 1
    &&& forall|i: int| 0 <= i < ps.len() - 1 ==> (w.deps)(#[trigger] ps[i]).contains(ps[i + 1])
}

/// The project at `q` is reached from one of `roots` through dependencies.
pub open spec fn reachable(w: World, roots: Seq<Seq<char>>, q: Seq<char>) -> bool {
    exists|ps: Seq<Seq<char>>| is_dep_walk(w, ps) && roots.contains(ps[0]) && #[trigger] ps.last() == q
}

/// The search as the resolver carries it out, answered by `w`: the pending paths
/// are taken in order; a project already searched is passed over; a project
/// with the stub ends the search; else its dependencies are searched next.
/// `None` where `fuel` runs out first.
pub open spec fn search(w: World, pending: Seq<Seq<char>>, visited: Seq<Seq<char>>, fuel: nat) -> Option<bool>
    decreases fuel,
{
    if fuel == 0 {
        None
    } else if pending.len() == 0 {
        Some(false)
    } else {
        let p = pending[0];
        if visited.contains((w.canon)(p)) {
            search(w, pending.drop_first(), visited, (fuel - 1) as nat)
        } else if (w.stub)(p) {
            Some(true)
        } else {
            search(w, (w.deps)(p) + pending.drop_first(), visited.push((w.canon)(p)), (fuel - 1) as nat)
        }
    }
}

proof fn lemma_walk_extend(w: World, ps: Seq<Seq<char>>, p: Seq<char>)
    requires
        is_dep_walk(w, ps),
        (w.deps)(p).contains(ps[0]),
    ensures
        is_dep_walk(w, seq![p] + ps),
        (seq![p] + ps)[0] == p,
        (seq![p] + ps).last() == ps.last(),
{
    let qs = seq![p] + ps;
    assert forall|i: int| 0 <= i < qs.len() - 1 implies (w.deps)(#[trigger] qs[i]).contains(qs[i + 1]) by {
        if i > 0 {
            assert(qs[i] == ps[i - 1]);
            assert(qs[i + 1] == ps[i]);
        }
    }
}

/// A search that finds the stub found it in a project reached from the pending paths.
proof fn lemma_search_sound(w: World, pending: Seq<Seq<char>>, visited: Seq<Seq<char>>, fuel: nat)
    requires
        search(w, pending, visited, fuel) == Some(true),
    ensures
        exists|q: Seq<char>| #[trigger] reachable(w, pending, q) && (w.stub)(q),
    decreases fuel,
{
    let p = pending[0];
    let rest = pending.drop_first();
    if visited.contains((w.canon)(p)) {
        lemma_search_sound(w, rest, visited, (fuel - 1) as nat);
        let q = choose|q: Seq<char>| #[trigger] reachable(w, rest, q) && (w.stub)(q);
        let ps = choose|ps: Seq<Seq<char>>| is_dep_walk(w, ps) && rest.contains(ps[0]) && #[trigger] ps.last() == q;
        let j = choose|j: int| 0 <= j < rest.len() && rest[j] == ps[0];
        assert(pending[j + 1] == ps[0]);
        assert(reachable(w, pending, q));
    } else if (w.stub)(p) {
        let ps = seq![p];
        assert(pending[0] == ps[0]);
        assert(pending.contains(ps[0]));
        assert(is_dep_walk(w, ps));
        assert(ps.last() == p);
        assert(reachable(w, pending, p));
    } else {
        let next = (w.deps)(p) + rest;
        lemma_search_sound(w, next, visited.push((w.canon)(p)), (fuel - 1) as nat);
        let q = choose|q: Seq<char>| #[trigger] reachable(w, next, q) && (w.stub)(q);
        let ps = choose|ps: Seq<Seq<char>>| is_dep_walk(w, ps) && next.contains(ps[0]) && #[trigger] ps.last() == q;
        let j = choose|j: int| 0 <= j < next.len() && next[j] == ps[0];
        if j < (w.deps)(p).len() {
            assert((w.deps)(p)[j] == ps[0]);
            lemma_walk_extend(w, ps, p);
            let qs = seq![p] + ps;
            assert(pending[0] == qs[0]);
            assert(reachable(w, pending, q));
        } else {
            assert(rest[j - (w.deps)(p).len()] == ps[0]);
            assert(pending[j - (w.deps)(p).len() + 1] == ps[0]);
            assert(reachable(w, pending, q));
        }
    }
}

/// Every project searched so far lacks the stub, and each of its dependencies
/// was searched too or is still pending.
pub open spec fn search_closed(w: World, pending: Seq<Seq<char>>, visited: Seq<Seq<char>>) -> bool {
    forall|q: Seq<char>|
        #[trigger] visited.contains((w.canon)(q)) ==> !(w.stub)(q) && forall|d: Seq<char>|
            #[trigger] (w.deps)(q).contains(d) ==> visited.contains((w.canon)(d)) || pending.contains(d)
}

/// A walk that starts at a searched project stays among searched projects until
/// it meets a project reached from `rest`.
proof fn lemma_walk_through_searched(
    w: World,
    p: Seq<char>,
    rest: Seq<Seq<char>>,
    visited: Seq<Seq<char>>,
    ps: Seq<Seq<char>>,
    k: int,
)
    requires
        search_closed(w, seq![p] + rest, visited),
        visited.contains((w.canon)(p)),
        is_dep_walk(w, ps),
        ps[0] == p,
        0 <= k < ps.len(),
    ensures
        visited.contains((w.canon)(ps[k])) || reachable(w, rest, ps[k]),
    decreases k,
{
    if k > 0 {
        lemma_walk_through_searched(w, p, rest, visited, ps, k - 1);
        let prev = ps[k - 1];
        assert((w.deps)(prev).contains(ps[k]));
        if visited.contains((w.canon)(prev)) {
            let pending = seq![p] + rest;
            assert(visited.contains((w.canon)(ps[k])) || pending.contains(ps[k]));
            if !visited.contains((w.canon)(ps[k])) {
                let j = choose|j: int| 0 <= j < pending.len() && pending[j] == ps[k];
                if j == 0 {
                    assert(ps[k] == p);
                } else {
                    assert(rest[j - 1] == ps[k]);
                    let one = seq![ps[k]];
                    assert(is_dep_walk(w, one));
                    assert(one.last() == ps[k]);
                    assert(reachable(w, rest, ps[k]));
                }
            }
        } else {
            let qs = choose|qs: Seq<Seq<char>>| is_dep_walk(w, qs) && rest.contains(qs[0]) && #[trigger] qs.last() == prev;
            let ext = qs.push(ps[k]);
            assert forall|i: int| 0 <= i < ext.len() - 1 implies (w.deps)(#[trigger] ext[i]).contains(ext[i + 1]) by {
                if i < qs.len() - 1 {
                    assert(ext[i] == qs[i] && ext[i + 1] == qs[i + 1]);
                } else {
                    assert(ext[i] == prev);
                }
            }
            assert(ext[0] == qs[0]);
            assert(ext.last() == ps[k]);
            assert(reachable(w, rest, ps[k]));
        }
    }
}

/// A search that ends without the stub leaves no project with it among those
/// reached from the pending paths or already searched.
proof fn lemma_search_complete(w: World, pending: Seq<Seq<char>>, visited: Seq<Seq<char>>, fuel: nat)
    requires
        consistent(w),
        search_closed(w, pending, visited),
        search(w, pending, visited, fuel) == Some(false),
    ensures
        forall|q: Seq<char>| #[trigger] reachable(w, pending, q) ==> !(w.stub)(q),
    decreases fuel,
{
    if pending.len() > 0 {
        let p = pending[0];
        let rest = pending.drop_first();
        assert(pending =~= seq![p] + rest);
        if visited.contains((w.canon)(p)) {
            assert(search_closed(w, rest, visited)) by {
                assert forall|q: Seq<char>| #[trigger] visited.contains((w.canon)(q)) implies !(w.stub)(q) && forall|d: Seq<char>|
                    #[trigger] (w.deps)(q).contains(d) ==> visited.contains((w.canon)(d)) || rest.contains(d) by {
                    assert forall|d: Seq<char>| #[trigger] (w.deps)(q).contains(d) implies visited.contains((w.canon)(d))
                        || rest.contains(d) by {
                        if !visited.contains((w.canon)(d)) {
                            assert(pending.contains(d));
                            let j = choose|j: int| 0 <= j < pending.len() && pending[j] == d;
                            if j == 0 {
                                assert(d == p);
                            } else {
                                assert(rest[j - 1] == d);
                            }
                        }
                    }
                }
            }
            lemma_search_complete(w, rest, visited, (fuel - 1) as nat);
            assert forall|q: Seq<char>| #[trigger] reachable(w, pending, q) implies !(w.stub)(q) by {
                let ps = choose|ps: Seq<Seq<char>>| is_dep_walk(w, ps) && pending.contains(ps[0]) && #[trigger] ps.last() == q;
                let j = choose|j: int| 0 <= j < pending.len() && pending[j] == ps[0];
                if j == 0 {
                    lemma_walk_through_searched(w, p, rest, visited, ps, ps.len() - 1);
                    if visited.contains((w.canon)(q)) {
                        assert(!(w.stub)(q));
                    } else {
                        assert(reachable(w, rest, q));
                    }
                } else {
                    assert(rest[j - 1] == ps[0]);
                    assert(reachable(w, rest, q));
                }
            }
        } else {
            assert(!(w.stub)(p));
            let next = (w.deps)(p) + rest;
            let v2 = visited.push((w.canon)(p));
            assert(search_closed(w, next, v2)) by {
                assert forall|q: Seq<char>| #[trigger] v2.contains((w.canon)(q)) implies !(w.stub)(q) && forall|d: Seq<char>|
                    #[trigger] (w.deps)(q).contains(d) ==> v2.contains((w.canon)(d)) || next.contains(d) by {
                    if (w.canon)(q) == (w.canon)(p) {
                        assert((w.stub)(q) == (w.stub)(p) && (w.deps)(q) == (w.deps)(p));
                        assert forall|d: Seq<char>| #[trigger] (w.deps)(q).contains(d) implies v2.contains((w.canon)(d))
                            || next.contains(d) by {
                            let j = choose|j: int| 0 <= j < (w.deps)(p).len() && #[trigger] (w.deps)(p)[j] == d;
                            assert(next[j] == d);
                        }
                    } else {
                        assert(visited.contains((w.canon)(q))) by {
                            let j = choose|j: int| 0 <= j < v2.len() && v2[j] == (w.canon)(q);
                            assert(j < visited.len());
                            assert(visited[j] == (w.canon)(q));
                        }
                        assert forall|d: Seq<char>| #[trigger] (w.deps)(q).contains(d) implies v2.contains((w.canon)(d))
                            || next.contains(d) by {
                            if visited.contains((w.canon)(d)) {
                                let j = choose|j: int| 0 <= j < visited.len() && visited[j] == (w.canon)(d);
                                assert(v2[j] == (w.canon)(d));
                            } else {
                                assert(pending.contains(d));
                                let j = choose|j: int| 0 <= j < pending.len() && pending[j] == d;
                                if j == 0 {
                                    assert(d == p);
                                    assert(v2[visited.len() as int] == (w.canon)(d));
                                } else {
                                    assert(rest[j - 1] == d);
                                    assert(next[(w.deps)(p).len() + j - 1] == d);
                                }
                            }
                        }
                    }
                }
            }
            lemma_search_complete(w, next, v2, (fuel - 1) as nat);
            assert forall|q: Seq<char>| #[trigger] reachable(w, pending, q) implies !(w.stub)(q) by {
                let ps = choose|ps: Seq<Seq<char>>| is_dep_walk(w, ps) && pending.contains(ps[0]) && #[trigger] ps.last() == q;
                let j = choose|j: int| 0 <= j < pending.len() && pending[j] == ps[0];
                if j == 0 {
                    if ps.len() == 1 {
                        assert(q == p);
                    } else {
                        let tail = ps.drop_first();
                        assert((w.deps)(p).contains(ps[1]));
                        let k = choose|k: int| 0 <= k < (w.deps)(p).len() && #[trigger] (w.deps)(p)[k] == ps[1];
                        assert(next[k] == tail[0]);
                        assert forall|i: int| 0 <= i < tail.len() - 1 implies (w.deps)(#[trigger] tail[i]).contains(tail[i + 1]) by {
                            assert(tail[i] == ps[i + 1] && tail[i + 1] == ps[i + 2]);
                        }
                        assert(tail.last() == q);
                        assert(reachable(w, next, q));
                    }
                } else {
                    assert(rest[j - 1] == ps[0]);
                    assert(next[(w.deps)(p).len() + j - 1] == ps[0]);
                    assert(reachable(w, next, q));
                }
            }
        }
    }
}

/// A search for a module, answered consistently (paths with the same canonical
/// form are the same project), ends with the module found exactly where some
/// project reached from the first paths through `[dependencies]` has its stub,
/// whatever earlier searches did: each search starts with no project searched.
pub proof fn lemma_search_finds_exactly(w: World, roots: Seq<Seq<char>>, fuel: nat, found: bool)
    requires
        consistent(w),
        search(w, roots, Seq::empty(), fuel) == Some(found),
    ensures
        found <==> exists|q: Seq<char>| #[trigger] reachable(w, roots, q) && (w.stub)(q),
{
    if found {
        lemma_search_sound(w, roots, Seq::empty(), fuel);
    } else {
        lemma_search_complete(w, roots, Seq::empty(), fuel);
    }
}

proof fn lemma_paths_with_extension(entries: Seq<(Seq<char>, Option<Seq<char>>)>, exts: Seq<Seq<char>>, x: Seq<char>)
    ensures
        paths_with_extension(entries, exts).contains(x) <==> exists|i: int|
            0 <= i < entries.len() && #[trigger] entries[i].0 == x && has_extension(entries[i].1, exts),
    decreases entries.len(),
{
    if entries.len() > 0 {
        let front = entries.drop_last();
        lemma_paths_with_extension(front, exts, x);
        let rest = paths_with_extension(front, exts);
        let r = paths_with_extension(entries, exts);
        if r.contains(x) {
            let k = choose|k: int| 0 <= k < r.len() && r[k] == x;
            if k < rest.len() {
                assert(rest[k] == x);
                let i = choose|i: int| 0 <= i < front.len() && #[trigger] front[i].0 == x && has_extension(front[i].1, exts);
                assert(entries[i] == front[i]);
            } else {
                assert(entries[entries.len() - 1].0 == x);
            }
        }
        if exists|i: int| 0 <= i < entries.len() && #[trigger] entries[i].0 == x && has_extension(entries[i].1, exts) {
            let i = choose|i: int| 0 <= i < entries.len() && #[trigger] entries[i].0 == x && has_extension(entries[i].1, exts);
            if i < entries.len() - 1 {
                assert(front[i] == entries[i]);
                let k = choose|k: int| 0 <= k < rest.len() && rest[k] == x;
                if has_extension(entries.last().1, exts) {
                    assert(r[k] == rest[k]);
                }
            } else {
                assert(r == rest.push(x));
                assert(r[rest.len() as int] == x);
            }
        }
    }
}

/// The artifacts of a dependency are exactly the object files (`o`, `obj`) of
/// its object folder and the libraries (`a`, `so`) of its build folder.
pub proof fn lemma_artifacts_exactly(
    objs: Seq<(Seq<char>, Option<Seq<char>>)>,
    build: Seq<(Seq<char>, Option<Seq<char>>)>,
    artifacts: Seq<Seq<char>>,
)
    requires
        artifacts == paths_with_extension(objs, seq!["o"@, "obj"@]) + paths_with_extension(build, seq!["a"@, "so"@]),
    ensures
        forall|x: Seq<char>|
            #[trigger] artifacts.contains(x) <==> {
                ||| exists|i: int| 0 <= i < objs.len() && #[trigger] objs[i].0 == x && has_extension(objs[i].1, seq!["o"@, "obj"@])
                ||| exists|i: int| 0 <= i < build.len() && #[trigger] build[i].0 == x && has_extension(build[i].1, seq!["a"@, "so"@])
            },
{
    let a = paths_with_extension(objs, seq!["o"@, "obj"@]);
    let b = paths_with_extension(build, seq!["a"@, "so"@]);
    assert forall|x: Seq<char>|
        #[trigger] artifacts.contains(x) <==> {
            ||| exists|i: int| 0 <= i < objs.len() && #[trigger] objs[i].0 == x && has_extension(objs[i].1, seq!["o"@, "obj"@])
            ||| exists|i: int| 0 <= i < build.len() && #[trigger] build[i].0 == x && has_extension(build[i].1, seq!["a"@, "so"@])
        } by {
        lemma_paths_with_extension(objs, seq!["o"@, "obj"@], x);
        lemma_paths_with_extension(build, seq!["a"@, "so"@], x);
        if artifacts.contains(x) {
            let k = choose|k: int| 0 <= k < artifacts.len() && artifacts[k] == x;
            if k < a.len() {
                assert(a[k] == x);
            } else {
                assert(b[k - a.len()] == x);
            }
        }
        if a.contains(x) {
            let k = choose|k: int| 0 <= k < a.len() && a[k] == x;
            assert(artifacts[k] == x);
        }
        if b.contains(x) {
            let k = choose|k: int| 0 <= k < b.len() && b[k] == x;
            assert(artifacts[a.len() + k] == x);
        }
    }
}

} // verus!
