//! The module graph of a project: which file declares which module, what each
//! file imports, and an order in which every file comes after the files it imports.
use vstd::prelude::*;

use crate::text::{
    after_first_space, chars_after_first_space, chars_start_with, char_seqs, lines, list_contains, split_lines,
    str_chars, string_from_chars, trim, trim_chars,
};
use crate::topo::{
    TopoError, adj_view, adj_wf, dfs_order, edge, error_holds, has_cycle, is_topological_order,
    is_walk, on_cycle, topological_order,
};

verus! {

// ---------------------------------------------------------------------------------------------
// Module declarations and imports in a source text.

pub open spec fn module_word() -> Seq<char> {
    seq!['m', 'o', 'd', 'u', 'l', 'e']
}

pub open spec fn import_word() -> Seq<char> {
    seq!['i', 'm', 'p', 'o', 'r', 't']
}

/// The module that the lines declare: the first line, after blank ones, that
/// starts with `module` and has a space names it; any other non-blank line first
/// means there is none.
pub open spec fn module_decl(ls: Seq<Seq<char>>) -> Option<Seq<char>>
    decreases ls.len(),
{
    if ls.len() == 0 {
        None
    } else {
        let t = trim(ls[0]);
        if crate::text::starts_with(t, module_word()) {
            match after_first_space(t) {
                Some(rest) => Some(trim(rest)),
                None => module_decl(ls.drop_first()),
            }
        } else if t.len() > 0 {
            None
        } else {
            module_decl(ls.drop_first())
        }
    }
}

/// The modules that the lines import: each line that starts with `import` names
/// one after its first space; such a line without a space ends the list.
pub open spec fn import_decls(ls: Seq<Seq<char>>) -> Seq<Seq<char>>
    decreases ls.len(),
{
    if ls.len() == 0 {
        Seq::empty()
    } else {
        let t = trim(ls[0]);
        if crate::text::starts_with(t, import_word()) {
            match after_first_space(t) {
                Some(rest) => seq![trim(rest)] + import_decls(ls.drop_first()),
                None => Seq::empty(),
            }
        } else {
            import_decls(ls.drop_first())
        }
    }
}

/// The module that a source text declares.
pub open spec fn module_name_of(text: Seq<char>) -> Option<Seq<char>> {
    module_decl(lines(text))
}

/// The modules that a source text imports, in order.
pub open spec fn imports_of(text: Seq<char>) -> Seq<Seq<char>> {
    import_decls(lines(text))
}

/// The module that a source text declares.
pub fn get_module_name(content: &str) -> (r: Option<String>)
    ensures
        match module_name_of(content@) {
            Some(name) => r matches Some(s) && s@ == name,
            None => r is None,
        },
{
    let chars = str_chars(content);
    let ls = split_lines(chars.as_slice());
    assert(char_seqs(ls@).skip(0) =~= char_seqs(ls@));
    let n = ls.len();
    let mut i: usize = 0;
    while i < n
        invariant
            n == ls@.len(),
            i <= n,
            char_seqs(ls@) == lines(content@),
            module_name_of(content@) == module_decl(char_seqs(ls@).skip(i as int)),
        decreases n - i,
    {
        let ghost rest = char_seqs(ls@).skip(i as int);
        assert(rest[0] == ls@[i as int]@);
        assert(rest.drop_first() =~= char_seqs(ls@).skip(i + 1));
        let t = trim_chars(ls[i].as_slice());
        if chars_start_with(t.as_slice(), &['m', 'o', 'd', 'u', 'l', 'e']) {
            match chars_after_first_space(t.as_slice()) {
                Some(rest_chars) => {
                    let name = trim_chars(rest_chars.as_slice());
                    return Some(string_from_chars(name.as_slice()));
                },
                None => {},
            }
        } else if t.len() > 0 {
            return None;
        }
        i = i + 1;
    }
    assert(char_seqs(ls@).skip(n as int) =~= Seq::<Seq<char>>::empty());
    None
}

/// The modules that a source text imports, in order.
pub fn get_imports(content: &str) -> (r: Vec<String>)
    ensures
        r.deep_view() == imports_of(content@),
{
    let chars = str_chars(content);
    let ls = split_lines(chars.as_slice());
    let mut imports: Vec<String> = Vec::new();
    assert(char_seqs(ls@).skip(0) =~= char_seqs(ls@));
    assert(imports.deep_view() + import_decls(char_seqs(ls@)) =~= import_decls(char_seqs(ls@)));
    let n = ls.len();
    let mut i: usize = 0;
    while i < n
        invariant
            n == ls@.len(),
            i <= n,
            char_seqs(ls@) == lines(content@),
            imports_of(content@) == imports.deep_view() + import_decls(char_seqs(ls@).skip(i as int)),
        decreases n - i,
    {
        let ghost rest = char_seqs(ls@).skip(i as int);
        assert(rest[0] == ls@[i as int]@);
        assert(rest.drop_first() =~= char_seqs(ls@).skip(i + 1));
        let t = trim_chars(ls[i].as_slice());
        if chars_start_with(t.as_slice(), &['i', 'm', 'p', 'o', 'r', 't']) {
            match chars_after_first_space(t.as_slice()) {
                Some(rest_chars) => {
                    let name = trim_chars(rest_chars.as_slice());
                    let ghost before = imports.deep_view();
                    let s = string_from_chars(name.as_slice());
                    imports.push(s);
                    assert(imports.deep_view() =~= before.push(name@));
                    assert(before + import_decls(rest) =~= imports.deep_view() + import_decls(
                        char_seqs(ls@).skip(i + 1),
                    ));
                },
                None => {
                    assert(imports.deep_view() + Seq::<Seq<char>>::empty() =~= imports.deep_view());
                    return imports;
                },
            }
        }
        i = i + 1;
    }
    assert(char_seqs(ls@).skip(n as int) =~= Seq::<Seq<char>>::empty());
    assert(imports.deep_view() + Seq::<Seq<char>>::empty() =~= imports.deep_view());
    imports
}


// ---------------------------------------------------------------------------------------------
// Keyed lists.

/// The first index whose key is `k`.
pub open spec fn key_index<V>(m: Seq<(Seq<char>, V)>, k: Seq<char>) -> Option<int>
    decreases m.len(),
{
    if m.len() == 0 {
        None
    } else if m[0].0 == k {
        Some(0)
    } else {
        match key_index(m.drop_first(), k) {
            Some(j) => Some(j + 1),
            None => None,
        }
    }
}

pub proof fn lemma_key_index<V>(m: Seq<(Seq<char>, V)>, k: Seq<char>)
    ensures
        match key_index(m, k) {
            Some(j) => 0 <= j < m.len() && m[j].0 == k && forall|i: int| 0 <= i < j ==> #[trigger] m[i].0 != k,
            None => forall|i: int| 0 <= i < m.len() ==> #[trigger] m[i].0 != k,
        },
    decreases m.len(),
{
    if m.len() > 0 && m[0].0 != k {
        lemma_key_index(m.drop_first(), k);
        match key_index(m.drop_first(), k) {
            Some(j) => {
                assert forall|i: int| 0 <= i < j + 1 implies #[trigger] m[i].0 != k by {
                    if i > 0 {
                        assert(m[i] == m.drop_first()[i - 1]);
                    }
                }
            },
            None => {
                assert forall|i: int| 0 <= i < m.len() implies #[trigger] m[i].0 != k by {
                    if i > 0 {
                        assert(m[i] == m.drop_first()[i - 1]);
                    }
                }
            },
        }
    }
}

/// The keys are distinct.
pub open spec fn keys_distinct<V>(m: Seq<(Seq<char>, V)>) -> bool {
    forall|i: int, j: int| 0 <= i < j < m.len() ==> #[trigger] m[i].0 != #[trigger] m[j].0
}

/// Some entry has key `k`.
pub open spec fn has_key<V>(m: Seq<(Seq<char>, V)>, k: Seq<char>) -> bool {
    exists|i: int| 0 <= i < m.len() && #[trigger] m[i].0 == k
}

/// The index of key `k` in the list.
pub fn find_key_pub<V>(m: &Vec<(String, V)>, k: &String) -> (r: Option<usize>)
    ensures
        match r {
            Some(j) => key_index(m@.map_values(|e: (String, V)| (e.0@, ())), k@) == Some(j as int),
            None => key_index(m@.map_values(|e: (String, V)| (e.0@, ())), k@) is None,
        },
{
    find_key(m, k)
}

/// The index of key `k` in the list.
fn find_key<V>(m: &Vec<(String, V)>, k: &String) -> (r: Option<usize>)
    ensures
        match r {
            Some(j) => key_index(m@.map_values(|e: (String, V)| (e.0@, ())), k@) == Some(j as int),
            None => key_index(m@.map_values(|e: (String, V)| (e.0@, ())), k@) is None,
        },
{
    let ghost ks = m@.map_values(|e: (String, V)| (e.0@, ()));
    proof {
        lemma_key_index(ks, k@);
    }
    let mut j: usize = 0;
    while j < m.len()
        invariant
            j <= m.len(),
            ks == m@.map_values(|e: (String, V)| (e.0@, ())),
            forall|i: int| 0 <= i < j ==> #[trigger] ks[i].0 != k@,
            match key_index(ks, k@) {
                Some(x) => 0 <= x < ks.len() && ks[x].0 == k@ && forall|i: int| 0 <= i < x ==> #[trigger] ks[i].0 != k@,
                None => forall|i: int| 0 <= i < ks.len() ==> #[trigger] ks[i].0 != k@,
            },
        decreases m.len() - j,
    {
        if m[j].0 == *k {
            assert(ks[j as int].0 == k@);
            return Some(j);
        }
        assert(ks[j as int].0 != k@);
        j = j + 1;
    }
    None
}

// ---------------------------------------------------------------------------------------------
// The module map and the imports of each file.

/// The module that a source declares; an unreadable source declares none.
pub open spec fn source_module(src: Option<Seq<char>>) -> Option<Seq<char>> {
    match src {
        Some(t) => module_name_of(t),
        None => None,
    }
}

/// The imports of a source; an unreadable source imports nothing.
pub open spec fn source_imports(src: Option<Seq<char>>) -> Seq<Seq<char>> {
    match src {
        Some(t) => imports_of(t),
        None => Seq::empty(),
    }
}

/// Why a module graph cannot be built.
#[derive(Debug)]
pub enum GraphError {
    /// Two files declare the same module; `file` is the later one.
    DuplicateModule { name: String, file: String },
    /// The file imports itself, directly or through other files.
    CircularImport { file: String },
}

/// The mathematical content of a [`GraphError`].
pub enum GraphErrorView {
    DuplicateModule { name: Seq<char>, file: Seq<char> },
    CircularImport { file: Seq<char> },
}

impl View for GraphError {
    type V = GraphErrorView;

    open spec fn view(&self) -> GraphErrorView {
        match self {
            GraphError::DuplicateModule { name, file } => GraphErrorView::DuplicateModule { name: name@, file: file@ },
            GraphError::CircularImport { file } => GraphErrorView::CircularImport { file: file@ },
        }
    }
}

/// The (module, file) pairs of the files from index `i` on, after those in `acc`;
/// a module declared twice is an error that names the later file.
pub open spec fn module_map_from(
    files: Seq<Seq<char>>,
    srcs: Seq<Option<Seq<char>>>,
    i: int,
    acc: Seq<(Seq<char>, Seq<char>)>,
) -> Result<Seq<(Seq<char>, Seq<char>)>, GraphErrorView>
    decreases files.len() - i,
{
    if i < 0 || i >= files.len() {
        Ok(acc)
    } else {
        match source_module(srcs[i]) {
            None => module_map_from(files, srcs, i + 1, acc),
            Some(name) => {
                if has_key(acc, name) {
                    Err(GraphErrorView::DuplicateModule { name, file: files[i] })
                } else {
                    module_map_from(files, srcs, i + 1, acc.push((name, files[i])))
                }
            },
        }
    }
}

/// Which file declares each module.
pub open spec fn module_map(files: Seq<Seq<char>>, srcs: Seq<Option<Seq<char>>>) -> Result<
    Seq<(Seq<char>, Seq<char>)>,
    GraphErrorView,
> {
    module_map_from(files, srcs, 0, Seq::empty())
}

/// The list with `k` mapped to `v`: in place where `k` is already a key, else at the end.
pub open spec fn put(m: Seq<(Seq<char>, Seq<Seq<char>>)>, k: Seq<char>, v: Seq<Seq<char>>) -> Seq<
    (Seq<char>, Seq<Seq<char>>),
> {
    match key_index(m, k) {
        Some(j) => m.update(j, (k, v)),
        None => m.push((k, v)),
    }
}

/// The imports of each file from index `i` on, put into `acc`.
pub open spec fn imports_from(
    files: Seq<Seq<char>>,
    srcs: Seq<Option<Seq<char>>>,
    i: int,
    acc: Seq<(Seq<char>, Seq<Seq<char>>)>,
) -> Seq<(Seq<char>, Seq<Seq<char>>)>
    decreases files.len() - i,
{
    if i < 0 || i >= files.len() {
        acc
    } else {
        imports_from(files, srcs, i + 1, put(acc, files[i], source_imports(srcs[i])))
    }
}

/// Each file, once, in order of first appearance, with what its last appearance imports.
pub open spec fn file_imports(files: Seq<Seq<char>>, srcs: Seq<Option<Seq<char>>>) -> Seq<
    (Seq<char>, Seq<Seq<char>>),
> {
    imports_from(files, srcs, 0, Seq::empty())
}

/// Which file declares each module.
///
/// Fails where two files declare the same module, naming the later one.
pub fn build_module_map(source_files: &Vec<String>, sources: &Vec<Option<String>>) -> (r: Result<
    Vec<(String, String)>,
    GraphError,
>)
    requires
        source_files.len() == sources.len(),
    ensures
        match module_map(source_files.deep_view(), sources.deep_view()) {
            Ok(m) => r matches Ok(x) && x.deep_view() == m,
            Err(e) => r matches Err(x) && x@ == e,
        },
{
    let ghost files = source_files.deep_view();
    let ghost srcs = sources.deep_view();
    let mut map: Vec<(String, String)> = Vec::new();
    assert(map.deep_view() =~= Seq::<(Seq<char>, Seq<char>)>::empty());
    let n = source_files.len();
    let mut i: usize = 0;
    while i < n
        invariant
            n == source_files.len(),
            n == sources.len(),
            files == source_files.deep_view(),
            srcs == sources.deep_view(),
            i <= n,
            module_map(files, srcs) == module_map_from(files, srcs, i as int, map.deep_view()),
        decreases n - i,
    {
        let ghost acc = map.deep_view();
        assert(srcs[i as int] == match &sources[i as int] {
            Some(t) => Some(t@),
            None => None::<Seq<char>>,
        });
        let declared = match &sources[i] {
            Some(content) => get_module_name(content.as_str()),
            None => None,
        };
        match declared {
            Some(module_name) => {
                let found = find_key(&map, &module_name);
                proof {
                    let ks = map@.map_values(|e: (String, String)| (e.0@, ()));
                    lemma_key_index(ks, module_name@);
                    assert(has_key(acc, module_name@) <==> key_index(ks, module_name@) is Some) by {
                        if has_key(acc, module_name@) {
                            let j = choose|j: int| 0 <= j < acc.len() && #[trigger] acc[j].0 == module_name@;
                            assert(ks[j].0 == acc[j].0);
                        }
                        if key_index(ks, module_name@) is Some {
                            let j = key_index(ks, module_name@)->0;
                            assert(ks[j].0 == acc[j].0);
                        }
                    }
                }
                if found.is_some() {
                    return Err(GraphError::DuplicateModule { name: module_name, file: source_files[i].clone() });
                }
                map.push((module_name, source_files[i].clone()));
                assert(map.deep_view() =~= acc.push((module_name@, files[i as int])));
            },
            None => {},
        }
        i = i + 1;
    }
    Ok(map)
}


pub proof fn lemma_key_index_same_keys<V1, V2>(m1: Seq<(Seq<char>, V1)>, m2: Seq<(Seq<char>, V2)>, k: Seq<char>)
    requires
        m1.len() == m2.len(),
        forall|i: int| 0 <= i < m1.len() ==> #[trigger] m1[i].0 == m2[i].0,
    ensures
        key_index(m1, k) == key_index(m2, k),
    decreases m1.len(),
{
    if m1.len() > 0 {
        assert(m1[0].0 == m2[0].0);
        lemma_key_index_same_keys(m1.drop_first(), m2.drop_first(), k);
        assert forall|i: int| 0 <= i < m1.drop_first().len() implies #[trigger] m1.drop_first()[i].0
            == m2.drop_first()[i].0 by {
            assert(m1[i + 1].0 == m2[i + 1].0);
        }
    }
}

/// The imports of each file, once per file, in order of first appearance.
fn collect_imports(source_files: &Vec<String>, sources: &Vec<Option<String>>) -> (r: Vec<(String, Vec<String>)>)
    requires
        source_files.len() == sources.len(),
    ensures
        r.deep_view() == file_imports(source_files.deep_view(), sources.deep_view()),
{
    let ghost files = source_files.deep_view();
    let ghost srcs = sources.deep_view();
    let mut deps: Vec<(String, Vec<String>)> = Vec::new();
    assert(deps.deep_view() =~= Seq::<(Seq<char>, Seq<Seq<char>>)>::empty());
    let n = source_files.len();
    let mut i: usize = 0;
    while i < n
        invariant
            n == source_files.len(),
            n == sources.len(),
            files == source_files.deep_view(),
            srcs == sources.deep_view(),
            i <= n,
            file_imports(files, srcs) == imports_from(files, srcs, i as int, deps.deep_view()),
        decreases n - i,
    {
        let ghost acc = deps.deep_view();
        assert(srcs[i as int] == match &sources[i as int] {
            Some(t) => Some(t@),
            None => None::<Seq<char>>,
        });
        let imports = match &sources[i] {
            Some(content) => get_imports(content.as_str()),
            None => Vec::new(),
        };
        assert(imports.deep_view() =~= source_imports(srcs[i as int]));
        let file = source_files[i].clone();
        let found = find_key(&deps, &file);
        proof {
            lemma_key_index_same_keys(deps@.map_values(|e: (String, Vec<String>)| (e.0@, ())), acc, file@);
            lemma_key_index(acc, file@);
        }
        match found {
            Some(j) => {
                deps.set(j, (file, imports));
            },
            None => {
                deps.push((file, imports));
            },
        }
        assert(deps.deep_view() =~= put(acc, files[i as int], source_imports(srcs[i as int])));
        i = i + 1;
    }
    deps
}

// ---------------------------------------------------------------------------------------------
// The import relation between files.

/// The file that declares module `name`.
pub open spec fn resolve(mm: Seq<(Seq<char>, Seq<char>)>, name: Seq<char>) -> Option<Seq<char>> {
    match key_index(mm, name) {
        Some(j) => Some(mm[j].1),
        None => None,
    }
}

/// What file `f` imports.
pub open spec fn imports_of_file(deps: Seq<(Seq<char>, Seq<Seq<char>>)>, f: Seq<char>) -> Seq<Seq<char>> {
    match key_index(deps, f) {
        Some(j) => deps[j].1,
        None => Seq::empty(),
    }
}

/// File `f` imports a module that file `g` declares.
pub open spec fn depends(
    mm: Seq<(Seq<char>, Seq<char>)>,
    deps: Seq<(Seq<char>, Seq<Seq<char>>)>,
    f: Seq<char>,
    g: Seq<char>,
) -> bool {
    &&& has_key(deps, f)
    &&& exists|k: int| 0 <= k < imports_of_file(deps, f).len() && #[trigger] resolve(mm, imports_of_file(deps, f)[k]) == Some(g)
}

/// Each file of `p` imports from the next.
pub open spec fn import_walk(mm: Seq<(Seq<char>, Seq<char>)>, deps: Seq<(Seq<char>, Seq<Seq<char>>)>, p: Seq<Seq<char>>) -> bool {
    &&& p.len() >= 1
    &&& forall|i: int| 0 <= i < p.len() - 1 ==> depends(mm, deps, #[trigger] p[i], p[i + 1])
}

/// File `f` imports itself, directly or through other files.
pub open spec fn import_cycle_through(
    mm: Seq<(Seq<char>, Seq<char>)>,
    deps: Seq<(Seq<char>, Seq<Seq<char>>)>,
    f: Seq<char>,
) -> bool {
    exists|p: Seq<Seq<char>>| import_walk(mm, deps, p) && p.len() >= 2 && p[0] == f && #[trigger] p.last() == f
}

/// Some file lies on an import cycle.
pub open spec fn has_import_cycle(mm: Seq<(Seq<char>, Seq<char>)>, deps: Seq<(Seq<char>, Seq<Seq<char>>)>) -> bool {
    exists|f: Seq<char>| #[trigger] import_cycle_through(mm, deps, f)
}

/// The imports of all files, file after file, each file's in order.
pub open spec fn all_imports(deps: Seq<(Seq<char>, Seq<Seq<char>>)>) -> Seq<Seq<char>>
    decreases deps.len(),
{
    if deps.len() == 0 {
        Seq::empty()
    } else {
        all_imports(deps.drop_last()) + deps.last().1
    }
}

/// The names that no file declares, each once, in order of first appearance.
pub open spec fn undeclared(mm: Seq<(Seq<char>, Seq<char>)>, names: Seq<Seq<char>>) -> Seq<Seq<char>>
    decreases names.len(),
{
    if names.len() == 0 {
        Seq::empty()
    } else {
        let rest = undeclared(mm, names.drop_last());
        let x = names.last();
        if resolve(mm, x) is None && !rest.contains(x) {
            rest.push(x)
        } else {
            rest
        }
    }
}

/// The imported modules that no file of the project declares (they come from
/// the standard library or a dependency), each once, in order of first import.
pub open spec fn undeclared_imports(mm: Seq<(Seq<char>, Seq<char>)>, deps: Seq<(Seq<char>, Seq<Seq<char>>)>) -> Seq<
    Seq<char>,
> {
    undeclared(mm, all_imports(deps))
}

/// `order` lists each file once, each after the files that declare what it
/// imports; imports that no file declares are left to other projects.
pub open spec fn is_compile_order(
    mm: Seq<(Seq<char>, Seq<char>)>,
    deps: Seq<(Seq<char>, Seq<Seq<char>>)>,
    order: Seq<Seq<char>>,
) -> bool {
    &&& forall|i: int, j: int| 0 <= i < j < order.len() ==> #[trigger] order[i] != #[trigger] order[j]
    &&& forall|j: int| 0 <= j < deps.len() ==> order.contains(#[trigger] deps[j].0)
    &&& forall|i: int| 0 <= i < order.len() ==> has_key(deps, #[trigger] order[i])
    &&& forall|i: int, k: int|
        0 <= i < order.len() && 0 <= k < imports_of_file(deps, order[i]).len()
            && (#[trigger] resolve(mm, imports_of_file(deps, order[i])[k])) is Some
            ==> exists|j: int| 0 <= j < i && order[j] == resolve(mm, imports_of_file(deps, order[i])[k])->0
}

/// The import relation between file indices.
pub open spec fn import_adj(mm: Seq<(Seq<char>, Seq<char>)>, deps: Seq<(Seq<char>, Seq<Seq<char>>)>) -> Seq<
    Seq<Option<usize>>,
> {
    Seq::new(
        deps.len(),
        |u: int|
            Seq::new(
                deps[u].1.len(),
                |k: int|
                    match resolve(mm, deps[u].1[k]) {
                        Some(f) => match key_index(deps, f) {
                            Some(v) => Some(v as usize),
                            None => None,
                        },
                        None => None,
                    },
            ),
    )
}


pub proof fn lemma_put(m: Seq<(Seq<char>, Seq<Seq<char>>)>, k: Seq<char>, v: Seq<Seq<char>>)
    requires
        keys_distinct(m),
    ensures
        keys_distinct(put(m, k, v)),
        has_key(put(m, k, v), k),
        forall|x: Seq<char>| has_key(m, x) ==> has_key(put(m, k, v), x),
{
    lemma_key_index(m, k);
    let r = put(m, k, v);
    match key_index(m, k) {
        Some(j) => {
            assert(r[j].0 == k);
            assert forall|x: Seq<char>| has_key(m, x) implies has_key(r, x) by {
                let i = choose|i: int| 0 <= i < m.len() && #[trigger] m[i].0 == x;
                assert(r[i].0 == x);
            }
        },
        None => {
            assert(r[m.len() as int].0 == k);
            assert forall|x: Seq<char>| has_key(m, x) implies has_key(r, x) by {
                let i = choose|i: int| 0 <= i < m.len() && #[trigger] m[i].0 == x;
                assert(r[i].0 == x);
            }
        },
    }
}

pub proof fn lemma_imports_from(
    files: Seq<Seq<char>>,
    srcs: Seq<Option<Seq<char>>>,
    i: int,
    acc: Seq<(Seq<char>, Seq<Seq<char>>)>,
)
    requires
        0 <= i,
        keys_distinct(acc),
    ensures
        keys_distinct(imports_from(files, srcs, i, acc)),
        forall|t: int| i <= t < files.len() ==> has_key(imports_from(files, srcs, i, acc), #[trigger] files[t]),
        forall|x: Seq<char>| has_key(acc, x) ==> has_key(imports_from(files, srcs, i, acc), x),
    decreases files.len() - i,
{
    if i < files.len() {
        let acc2 = put(acc, files[i], source_imports(srcs[i]));
        lemma_put(acc, files[i], source_imports(srcs[i]));
        lemma_imports_from(files, srcs, i + 1, acc2);
    }
}

pub proof fn lemma_module_map_from(
    files: Seq<Seq<char>>,
    srcs: Seq<Option<Seq<char>>>,
    i: int,
    acc: Seq<(Seq<char>, Seq<char>)>,
)
    requires
        0 <= i,
        forall|e: int| 0 <= e < acc.len() ==> files.contains(#[trigger] acc[e].1),
    ensures
        module_map_from(files, srcs, i, acc) matches Ok(m) ==> forall|e: int|
            0 <= e < m.len() ==> files.contains(#[trigger] m[e].1),
    decreases files.len() - i,
{
    if i < files.len() {
        match source_module(srcs[i]) {
            None => lemma_module_map_from(files, srcs, i + 1, acc),
            Some(name) => {
                if !has_key(acc, name) {
                    let acc2 = acc.push((name, files[i]));
                    assert forall|e: int| 0 <= e < acc2.len() implies files.contains(#[trigger] acc2[e].1) by {
                        if e == acc.len() {
                            assert(files[i] == acc2[e].1);
                        } else {
                            assert(acc2[e] == acc[e]);
                        }
                    }
                    lemma_module_map_from(files, srcs, i + 1, acc2);
                }
            },
        }
    }
}

/// Facts that tie the module map to the file list: file keys are distinct, and
/// every file that declares a module is a key.
pub proof fn lemma_graph_inputs(files: Seq<Seq<char>>, srcs: Seq<Option<Seq<char>>>)
    ensures
        keys_distinct(file_imports(files, srcs)),
        module_map(files, srcs) matches Ok(mm) ==> forall|e: int|
            0 <= e < mm.len() ==> has_key(file_imports(files, srcs), #[trigger] mm[e].1),
{
    lemma_imports_from(files, srcs, 0, Seq::empty());
    lemma_module_map_from(files, srcs, 0, Seq::empty());
    if let Ok(mm) = module_map(files, srcs) {
        assert forall|e: int| 0 <= e < mm.len() implies has_key(file_imports(files, srcs), #[trigger] mm[e].1) by {
            assert(files.contains(mm[e].1));
            let t = choose|t: int| 0 <= t < files.len() && files[t] == mm[e].1;
            assert(has_key(file_imports(files, srcs), files[t]));
        }
    }
}

/// The module map's files are files of the import list, whose keys are distinct.
pub open spec fn graph_inputs_agree(mm: Seq<(Seq<char>, Seq<char>)>, deps: Seq<(Seq<char>, Seq<Seq<char>>)>) -> bool {
    &&& keys_distinct(deps)
    &&& forall|e: int| 0 <= e < mm.len() ==> has_key(deps, #[trigger] mm[e].1)
}

pub proof fn lemma_key_index_distinct(deps: Seq<(Seq<char>, Seq<Seq<char>>)>, v: int)
    requires
        keys_distinct(deps),
        0 <= v < deps.len(),
    ensures
        key_index(deps, deps[v].0) == Some(v),
{
    lemma_key_index(deps, deps[v].0);
    match key_index(deps, deps[v].0) {
        Some(j) => {
            if j < v {
                assert(deps[j].0 != deps[v].0);
            }
        },
        None => {},
    }
}

pub proof fn lemma_resolved_is_file(mm: Seq<(Seq<char>, Seq<char>)>, deps: Seq<(Seq<char>, Seq<Seq<char>>)>, name: Seq<char>)
    requires
        graph_inputs_agree(mm, deps),
    ensures
        resolve(mm, name) matches Some(f) ==> key_index(deps, f) matches Some(v) && 0 <= v < deps.len()
            && deps[v].0 == f,
{
    lemma_key_index(mm, name);
    if let Some(f) = resolve(mm, name) {
        let j = key_index(mm, name)->0;
        assert(has_key(deps, mm[j].1));
        lemma_key_index(deps, f);
    }
}

/// Index edges are import edges between the files at those indices.
pub proof fn lemma_adj_edge(mm: Seq<(Seq<char>, Seq<char>)>, deps: Seq<(Seq<char>, Seq<Seq<char>>)>, u: int, v: int)
    requires
        graph_inputs_agree(mm, deps),
        0 <= u < deps.len(),
        0 <= v < deps.len(),
        deps.len() <= usize::MAX,
    ensures
        edge(import_adj(mm, deps), u, v) <==> depends(mm, deps, deps[u].0, deps[v].0),
{
    let g = import_adj(mm, deps);
    lemma_key_index_distinct(deps, u);
    lemma_key_index_distinct(deps, v);
    assert(imports_of_file(deps, deps[u].0) == deps[u].1);
    if edge(g, u, v) {
        let k = choose|k: int| 0 <= k < g[u].len() && #[trigger] g[u][k] == Some(v as usize);
        lemma_resolved_is_file(mm, deps, deps[u].1[k]);
        assert(resolve(mm, imports_of_file(deps, deps[u].0)[k]) == Some(deps[v].0));
        assert(has_key(deps, deps[u].0)) by {
            assert(deps[u].0 == deps[u].0);
        }
    }
    if depends(mm, deps, deps[u].0, deps[v].0) {
        let k = choose|k: int| 0 <= k < imports_of_file(deps, deps[u].0).len() && #[trigger] resolve(
            mm,
            imports_of_file(deps, deps[u].0)[k],
        ) == Some(deps[v].0);
        assert(g[u][k] == Some(v as usize));
    }
}

pub proof fn lemma_adj_wf(mm: Seq<(Seq<char>, Seq<char>)>, deps: Seq<(Seq<char>, Seq<Seq<char>>)>)
    requires
        graph_inputs_agree(mm, deps),
        deps.len() <= usize::MAX,
    ensures
        adj_wf(import_adj(mm, deps)),
{
    let g = import_adj(mm, deps);
    assert forall|u: int, k: int| 0 <= u < g.len() && 0 <= k < g[u].len() implies (#[trigger] g[u][k] matches Some(
        v,
    ) ==> v < g.len()) by {
        lemma_resolved_is_file(mm, deps, deps[u].1[k]);
    }
}


/// The files at the given indices.
pub open spec fn file_names(deps: Seq<(Seq<char>, Seq<Seq<char>>)>, order: Seq<usize>) -> Seq<Seq<char>> {
    order.map_values(|i: usize| deps[i as int].0)
}

/// What the depth-first search of the import graph gives: the files in the
/// order the search finishes them, or the first file it finds on a cycle.
pub open spec fn search_outcome(mm: Seq<(Seq<char>, Seq<char>)>, deps: Seq<(Seq<char>, Seq<Seq<char>>)>) -> Result<
    Seq<Seq<char>>,
    GraphErrorView,
> {
    match dfs_order(import_adj(mm, deps)) {
        Ok(o) => Ok(file_names(deps, o)),
        Err(TopoError::Cycle(u)) => Err(GraphErrorView::CircularImport { file: deps[u as int].0 }),
    }
}

pub proof fn lemma_order_names(mm: Seq<(Seq<char>, Seq<char>)>, deps: Seq<(Seq<char>, Seq<Seq<char>>)>, order: Seq<usize>)
    requires
        graph_inputs_agree(mm, deps),
        deps.len() <= usize::MAX,
        is_topological_order(import_adj(mm, deps), order),
    ensures
        is_compile_order(mm, deps, file_names(deps, order)),
{
    let g = import_adj(mm, deps);
    let names = file_names(deps, order);
    assert forall|i: int, j: int| 0 <= i < j < names.len() implies #[trigger] names[i] != #[trigger] names[j] by {
        assert(order[i] != order[j]);
        if names[i] == names[j] {
            assert(deps[order[i] as int].0 == deps[order[j] as int].0);
        }
    }
    assert forall|j: int| 0 <= j < deps.len() implies names.contains(#[trigger] deps[j].0) by {
        assert(order.contains(j as usize));
        let i = choose|i: int| 0 <= i < order.len() && order[i] == j as usize;
        assert(names[i] == deps[j].0);
    }
    assert forall|i: int| 0 <= i < names.len() implies has_key(deps, #[trigger] names[i]) by {
        assert(deps[order[i] as int].0 == names[i]);
    }
    assert forall|i: int, k: int|
        0 <= i < names.len() && 0 <= k < imports_of_file(deps, names[i]).len()
            && (#[trigger] resolve(mm, imports_of_file(deps, names[i])[k])) is Some implies
        exists|j: int| 0 <= j < i && names[j] == resolve(mm, imports_of_file(deps, names[i])[k])->0
    by {
        let u = order[i] as int;
        lemma_key_index_distinct(deps, u);
        assert(imports_of_file(deps, names[i]) == deps[u].1);
        lemma_resolved_is_file(mm, deps, deps[u].1[k]);
        assert(g[u][k] is Some);
        assert(g[order[i] as int][k] is Some);
        let j = choose|j: int| 0 <= j < i && order[j] == g[u][k]->0;
        assert(names[j] == deps[order[j] as int].0);
    }
}

pub proof fn lemma_cycle_names(mm: Seq<(Seq<char>, Seq<char>)>, deps: Seq<(Seq<char>, Seq<Seq<char>>)>, u: int)
    requires
        graph_inputs_agree(mm, deps),
        deps.len() <= usize::MAX,
        0 <= u < deps.len(),
        on_cycle(import_adj(mm, deps), u),
    ensures
        import_cycle_through(mm, deps, deps[u].0),
{
    let g = import_adj(mm, deps);
    let p = choose|p: Seq<int>| is_walk(g, p) && p.len() >= 2 && p[0] == u && #[trigger] p.last() == u;
    let q = p.map_values(|x: int| deps[x].0);
    assert forall|i: int| 0 <= i < q.len() - 1 implies depends(mm, deps, #[trigger] q[i], q[i + 1]) by {
        assert(edge(g, p[i], p[i + 1]));
        lemma_adj_edge(mm, deps, p[i], p[i + 1]);
    }
    assert(import_walk(mm, deps, q));
    assert(q.last() == deps[u].0);
}

pub proof fn lemma_failures_are_index_failures(mm: Seq<(Seq<char>, Seq<char>)>, deps: Seq<(Seq<char>, Seq<Seq<char>>)>)
    requires
        graph_inputs_agree(mm, deps),
        deps.len() <= usize::MAX,
    ensures
        has_import_cycle(mm, deps) ==> has_cycle(import_adj(mm, deps)),
{
    let g = import_adj(mm, deps);
    if has_import_cycle(mm, deps) {
        let f = choose|f: Seq<char>| #[trigger] import_cycle_through(mm, deps, f);
        let q = choose|q: Seq<Seq<char>>| import_walk(mm, deps, q) && q.len() >= 2 && q[0] == f && #[trigger] q.last() == f;
        assert(depends(mm, deps, q[0], q[1]));
        assert forall|i: int| 0 <= i < q.len() implies has_key(deps, #[trigger] q[i]) by {
            if i < q.len() - 1 {
                assert(depends(mm, deps, q[i], q[i + 1]));
            } else {
                assert(q[i] == q[0]);
            }
        }
        let p = q.map_values(|x: Seq<char>| key_index(deps, x)->0);
        assert forall|i: int| 0 <= i < q.len() implies 0 <= #[trigger] p[i] < deps.len() && deps[p[i]].0 == q[i] by {
            assert(has_key(deps, q[i]));
            lemma_key_index(deps, q[i]);
        }
        assert forall|i: int| 0 <= i < p.len() - 1 implies edge(g, #[trigger] p[i], p[i + 1]) by {
            assert(0 <= p[i] < deps.len() && deps[p[i]].0 == q[i]);
            assert(0 <= p[i + 1] < deps.len() && deps[p[i + 1]].0 == q[i + 1]);
            assert(depends(mm, deps, q[i], q[i + 1]));
            lemma_adj_edge(mm, deps, p[i], p[i + 1]);
        }
        assert(is_walk(g, p));
        assert(p.last() == p[0]);
        assert(on_cycle(g, p[0]));
    }
}


// ---------------------------------------------------------------------------------------------
// The graph.

/// The index graph of the imports: entry `k` of file `u` is the index of the file
/// that declares its `k`-th import, or `None`.
fn import_graph(mm: &Vec<(String, String)>, deps: &Vec<(String, Vec<String>)>) -> (adj: Vec<Vec<Option<usize>>>)
    requires
        graph_inputs_agree(mm.deep_view(), deps.deep_view()),
    ensures
        adj_view(adj@) == import_adj(mm.deep_view(), deps.deep_view()),
{
    let ghost m = mm.deep_view();
    let ghost d = deps.deep_view();
    let ghost g = import_adj(m, d);
    let mut adj: Vec<Vec<Option<usize>>> = Vec::new();
    let n = deps.len();
    let mut u: usize = 0;
    while u < n
        invariant
            n == deps@.len(),
            m == mm.deep_view(),
            d == deps.deep_view(),
            g == import_adj(m, d),
            u <= n,
            adj@.len() == u,
            forall|x: int| 0 <= x < u ==> #[trigger] adj@[x]@ == g[x],
        decreases n - u,
    {
        let imports = &deps[u].1;
        let ni = imports.len();
        let mut row: Vec<Option<usize>> = Vec::new();
        let mut k: usize = 0;
        while k < ni
            invariant
                ni == imports@.len(),
                imports@ == deps@[u as int].1@,
                u < n,
                n == deps@.len(),
                m == mm.deep_view(),
                d == deps.deep_view(),
                g == import_adj(m, d),
                k <= ni,
                row@.len() == k,
                forall|y: int| 0 <= y < k ==> #[trigger] row@[y] == g[u as int][y],
            decreases ni - k,
        {
            let name = &imports[k];
            assert(name@ == d[u as int].1[k as int]);
            let entry = match find_key(mm, name) {
                Some(j) => {
                    proof {
                        lemma_key_index_same_keys(mm@.map_values(|e: (String, String)| (e.0@, ())), m, name@);
                        lemma_key_index(m, name@);
                    }
                    let file = &mm[j].1;
                    assert(file@ == m[j as int].1);
                    match find_key(deps, file) {
                        Some(v) => {
                            proof {
                                lemma_key_index_same_keys(deps@.map_values(|e: (String, Vec<String>)| (e.0@, ())), d, file@);
                                lemma_key_index(d, file@);
                            }
                            Some(v)
                        },
                        None => {
                            proof {
                                lemma_key_index_same_keys(deps@.map_values(|e: (String, Vec<String>)| (e.0@, ())), d, file@);
                            }
                            None
                        },
                    }
                },
                None => {
                    proof {
                        lemma_key_index_same_keys(mm@.map_values(|e: (String, String)| (e.0@, ())), m, name@);
                    }
                    None
                },
            };
            row.push(entry);
            k = k + 1;
        }
        assert(row@ =~= g[u as int]);
        adj.push(row);
        u = u + 1;
    }
    assert(adj_view(adj@) =~= g);
    adj
}

/// The module graph of a project.
#[derive(Debug)]
pub struct Graph {
    /// Which file declares each module, as (module, file) pairs.
    pub module_map: Vec<(String, String)>,
    /// What each file imports, as (file, modules) pairs.
    pub dependecies: Vec<(String, Vec<String>)>,
    /// Every file once, each after the files that declare what it imports.
    pub compile_order: Vec<String>,
    /// The imported modules that no file declares, to be found in the standard
    /// library or the dependencies, each once.
    pub unresolved: Vec<String>,
}

proof fn lemma_undeclared_push(mm: Seq<(Seq<char>, Seq<char>)>, names: Seq<Seq<char>>, x: Seq<char>)
    ensures
        undeclared(mm, names.push(x)) == if resolve(mm, x) is None && !undeclared(mm, names).contains(x) {
            undeclared(mm, names).push(x)
        } else {
            undeclared(mm, names)
        },
{
    assert(names.push(x).drop_last() =~= names);
}

/// The imported modules that no file declares, each once, in order of first import.
fn collect_undeclared(mm: &Vec<(String, String)>, deps: &Vec<(String, Vec<String>)>) -> (r: Vec<String>)
    ensures
        r.deep_view() == undeclared_imports(mm.deep_view(), deps.deep_view()),
{
    let ghost m = mm.deep_view();
    let ghost d = deps.deep_view();
    let mut r: Vec<String> = Vec::new();
    let mut j: usize = 0;
    assert(d.take(0) =~= Seq::<(Seq<char>, Seq<Seq<char>>)>::empty());
    assert(r.deep_view() =~= undeclared(m, all_imports(d.take(0))));
    while j < deps.len()
        invariant
            m == mm.deep_view(),
            d == deps.deep_view(),
            j <= d.len(),
            r.deep_view() == undeclared(m, all_imports(d.take(j as int))),
        decreases d.len() - j,
    {
        let imports = &deps[j].1;
        let ghost base = all_imports(d.take(j as int));
        assert(imports.deep_view() == d[j as int].1);
        let mut k: usize = 0;
        assert(base + imports.deep_view().take(0) =~= base);
        while k < imports.len()
            invariant
                m == mm.deep_view(),
                k <= imports@.len(),
                r.deep_view() == undeclared(m, base + imports.deep_view().take(k as int)),
            decreases imports@.len() - k,
        {
            let name = &imports[k];
            let ghost pre = base + imports.deep_view().take(k as int);
            assert(base + imports.deep_view().take(k + 1) =~= pre.push(name@));
            proof {
                lemma_undeclared_push(m, pre, name@);
            }
            let found = find_key(mm, name);
            proof {
                lemma_key_index_same_keys(mm@.map_values(|e: (String, String)| (e.0@, ())), m, name@);
            }
            if found.is_none() && !list_contains(&r, name) {
                let ghost before = r.deep_view();
                r.push(name.clone());
                assert(r.deep_view() =~= before.push(name@));
            }
            k = k + 1;
        }
        proof {
            assert(imports.deep_view().take(imports@.len() as int) =~= imports.deep_view());
            assert(d.take(j + 1).drop_last() =~= d.take(j as int));
            assert(d.take(j + 1).last() == d[j as int]);
        }
        j = j + 1;
    }
    assert(d.take(d.len() as int) =~= d);
    r
}

impl Graph {
    /// Builds the graph of the given files, `sources[i]` holding the text of
    /// `source_files[i]` (`None` where it could not be read).
    ///
    /// The files are ordered by a depth-first search that starts from each file
    /// in turn and follows its imports in order, passing over the modules that
    /// no file declares (those are listed as unresolved); it fails on the first
    /// file met again while its own imports are being followed.
    pub fn build(source_files: &Vec<String>, sources: &Vec<Option<String>>) -> (r: Result<Graph, GraphError>)
        requires
            source_files.len() == sources.len(),
        ensures
            match module_map(source_files.deep_view(), sources.deep_view()) {
                Err(e) => r matches Err(x) && x@ == e,
                Ok(mm) => {
                    let deps = file_imports(source_files.deep_view(), sources.deep_view());
                    &&& (r is Ok <==> !has_import_cycle(mm, deps))
                    &&& match r {
                        Ok(g) => {
                            &&& g.module_map.deep_view() == mm
                            &&& g.dependecies.deep_view() == deps
                            &&& is_compile_order(mm, deps, g.compile_order.deep_view())
                            &&& g.unresolved.deep_view() == undeclared_imports(mm, deps)
                            &&& forall|t: int|
                                0 <= t < source_files.len() ==> g.compile_order.deep_view().contains(
                                    #[trigger] source_files.deep_view()[t],
                                )
                        },
                        Err(GraphError::CircularImport { file }) => import_cycle_through(mm, deps, file@),
                        Err(GraphError::DuplicateModule { .. }) => false,
                    }
                    &&& match search_outcome(mm, deps) {
                        Ok(order) => r matches Ok(g) && g.compile_order.deep_view() == order,
                        Err(e) => r matches Err(x) && x@ == e,
                    }
                },
            },
    {
        let module_map = build_module_map(source_files, sources)?;
        let dependecies = collect_imports(source_files, sources);
        let ghost mm = module_map.deep_view();
        let ghost deps = dependecies.deep_view();
        proof {
            lemma_graph_inputs(source_files.deep_view(), sources.deep_view());
        }
        let adj = import_graph(&module_map, &dependecies);
        let nd = dependecies.len();
        assert(deps.len() == nd);
        proof {
            lemma_adj_wf(mm, deps);
            lemma_failures_are_index_failures(mm, deps);
        }
        match topological_order(&adj) {
            Ok(order) => {
                proof {
                    lemma_order_names(mm, deps, order@);
                    lemma_every_file_ordered(source_files.deep_view(), sources.deep_view(), mm, file_names(deps, order@));
                }
                let mut compile_order: Vec<String> = Vec::new();
                let mut i: usize = 0;
                while i < order.len()
                    invariant
                        i <= order@.len(),
                        deps == dependecies.deep_view(),
                        compile_order@.len() == i,
                        forall|j: int| 0 <= j < order@.len() ==> #[trigger] order@[j] < deps.len(),
                        forall|j: int| 0 <= j < i ==> #[trigger] compile_order.deep_view()[j]
                            == file_names(deps, order@)[j],
                    decreases order@.len() - i,
                {
                    let f = dependecies[order[i]].0.clone();
                    let ghost before = compile_order.deep_view();
                    assert(f@ == deps[order@[i as int] as int].0);
                    compile_order.push(f);
                    assert(compile_order.deep_view() =~= before.push(f@));
                    i = i + 1;
                }
                assert(compile_order.deep_view() =~= file_names(deps, order@));
                let unresolved = collect_undeclared(&module_map, &dependecies);
                Ok(Graph { module_map, dependecies, compile_order, unresolved })
            },
            Err(TopoError::Cycle(u)) => {
                proof {
                    lemma_cycle_names(mm, deps, u as int);
                }
                Err(GraphError::CircularImport { file: dependecies[u].0.clone() })
            },
        }
    }
}


/// Some file declares the module `entry.0` and is the file `entry.1`.
pub open spec fn declared_by(files: Seq<Seq<char>>, srcs: Seq<Option<Seq<char>>>, entry: (Seq<char>, Seq<char>)) -> bool {
    exists|t: int| 0 <= t < files.len() && t < srcs.len() && files[t] == entry.1 && #[trigger] source_module(srcs[t]) == Some(entry.0)
}

pub proof fn lemma_module_map_from_sound(
    files: Seq<Seq<char>>,
    srcs: Seq<Option<Seq<char>>>,
    i: int,
    acc: Seq<(Seq<char>, Seq<char>)>,
)
    requires
        0 <= i,
        files.len() == srcs.len(),
        keys_distinct(acc),
        forall|e: int| 0 <= e < acc.len() ==> declared_by(files, srcs, #[trigger] acc[e]),
    ensures
        module_map_from(files, srcs, i, acc) matches Ok(m) ==> {
            &&& keys_distinct(m)
            &&& forall|e: int| 0 <= e < m.len() ==> declared_by(files, srcs, #[trigger] m[e])
        },
    decreases files.len() - i,
{
    if i < files.len() {
        match source_module(srcs[i]) {
            None => lemma_module_map_from_sound(files, srcs, i + 1, acc),
            Some(name) => {
                if !has_key(acc, name) {
                    let acc2 = acc.push((name, files[i]));
                    assert forall|a: int, b: int| 0 <= a < b < acc2.len() implies #[trigger] acc2[a].0 != #[trigger] acc2[b].0 by {
                        if b == acc.len() {
                            assert(acc2[a] == acc[a]);
                        } else {
                            assert(acc2[a] == acc[a] && acc2[b] == acc[b]);
                        }
                    }
                    assert forall|e: int| 0 <= e < acc2.len() implies declared_by(files, srcs, #[trigger] acc2[e]) by {
                        if e == acc.len() {
                            assert(source_module(srcs[i]) == Some(acc2[e].0));
                        } else {
                            assert(acc2[e] == acc[e]);
                        }
                    }
                    lemma_module_map_from_sound(files, srcs, i + 1, acc2);
                }
            },
        }
    }
}

/// Each module of a module map is declared once, by the file it maps to.
pub proof fn lemma_module_map_sound(files: Seq<Seq<char>>, srcs: Seq<Option<Seq<char>>>)
    requires
        files.len() == srcs.len(),
    ensures
        module_map(files, srcs) matches Ok(m) ==> {
            &&& keys_distinct(m)
            &&& forall|e: int| 0 <= e < m.len() ==> declared_by(files, srcs, #[trigger] m[e])
        },
{
    lemma_module_map_from_sound(files, srcs, 0, Seq::empty());
}

// ---------------------------------------------------------------------------------------------
// The unresolved modules.

proof fn lemma_all_imports_contains(deps: Seq<(Seq<char>, Seq<Seq<char>>)>, x: Seq<char>)
    ensures
        all_imports(deps).contains(x) <==> exists|j: int, k: int|
            0 <= j < deps.len() && 0 <= k < deps[j].1.len() && #[trigger] deps[j].1[k] == x,
    decreases deps.len(),
{
    if deps.len() > 0 {
        let front = deps.drop_last();
        let last = deps.last().1;
        lemma_all_imports_contains(front, x);
        let all = all_imports(deps);
        assert(all == all_imports(front) + last);
        if all.contains(x) {
            let t = choose|t: int| 0 <= t < all.len() && all[t] == x;
            if t < all_imports(front).len() {
                assert(all_imports(front)[t] == x);
                let (j, k) = choose|j: int, k: int| 0 <= j < front.len() && 0 <= k < front[j].1.len() && #[trigger] front[j].1[k] == x;
                assert(deps[j] == front[j]);
            } else {
                let k = t - all_imports(front).len();
                assert(last[k] == x);
                assert(deps[deps.len() - 1].1[k] == x);
            }
        }
        if exists|j: int, k: int| 0 <= j < deps.len() && 0 <= k < deps[j].1.len() && #[trigger] deps[j].1[k] == x {
            let (j, k) = choose|j: int, k: int| 0 <= j < deps.len() && 0 <= k < deps[j].1.len() && #[trigger] deps[j].1[k] == x;
            if j < deps.len() - 1 {
                assert(front[j] == deps[j]);
                assert(front[j].1[k] == x);
                let t = choose|t: int| 0 <= t < all_imports(front).len() && all_imports(front)[t] == x;
                assert(all[t] == x);
            } else {
                assert(all[all_imports(front).len() + k] == last[k]);
            }
        }
    }
}

proof fn lemma_undeclared_contains(mm: Seq<(Seq<char>, Seq<char>)>, names: Seq<Seq<char>>, x: Seq<char>)
    ensures
        undeclared(mm, names).contains(x) <==> resolve(mm, x) is None && names.contains(x),
    decreases names.len(),
{
    if names.len() > 0 {
        let front = names.drop_last();
        let last = names.last();
        lemma_undeclared_contains(mm, front, x);
        let rest = undeclared(mm, front);
        if names.contains(x) && !front.contains(x) {
            let t = choose|t: int| 0 <= t < names.len() && names[t] == x;
            if t < front.len() {
                assert(front[t] == x);
            }
            assert(last == x);
        }
        if front.contains(x) {
            let t = choose|t: int| 0 <= t < front.len() && front[t] == x;
            assert(names[t] == x);
        }
        if resolve(mm, last) is None && !rest.contains(last) {
            assert(rest.push(last)[rest.len() as int] == last);
            if rest.push(last).contains(x) && x != last {
                let t = choose|t: int| 0 <= t < rest.push(last).len() && rest.push(last)[t] == x;
                assert(rest[t] == x);
            }
            if rest.contains(x) {
                let t = choose|t: int| 0 <= t < rest.len() && rest[t] == x;
                assert(rest.push(last)[t] == x);
            }
        }
        if names.contains(x) && x == last && resolve(mm, x) is None {
            assert(names[names.len() - 1] == x);
        }
    }
}

proof fn lemma_undeclared_distinct(mm: Seq<(Seq<char>, Seq<char>)>, names: Seq<Seq<char>>)
    ensures
        forall|a: int, b: int|
            0 <= a < b < undeclared(mm, names).len() ==> #[trigger] undeclared(mm, names)[a] != #[trigger] undeclared(
                mm,
                names,
            )[b],
    decreases names.len(),
{
    if names.len() > 0 {
        let front = names.drop_last();
        let last = names.last();
        lemma_undeclared_distinct(mm, front);
        let rest = undeclared(mm, front);
        if resolve(mm, last) is None && !rest.contains(last) {
            let u = rest.push(last);
            assert forall|a: int, b: int| 0 <= a < b < u.len() implies #[trigger] u[a] != #[trigger] u[b] by {
                if b == rest.len() {
                    assert(u[a] == rest[a]);
                } else {
                    assert(u[a] == rest[a] && u[b] == rest[b]);
                }
            }
        }
    }
}

/// The unresolved modules of a project are exactly the modules that some file
/// imports and no file declares, each named once.
pub proof fn lemma_unresolved_exactly(mm: Seq<(Seq<char>, Seq<char>)>, deps: Seq<(Seq<char>, Seq<Seq<char>>)>)
    ensures
        forall|x: Seq<char>|
            #[trigger] undeclared_imports(mm, deps).contains(x) <==> resolve(mm, x) is None && exists|j: int, k: int|
                0 <= j < deps.len() && 0 <= k < deps[j].1.len() && #[trigger] deps[j].1[k] == x,
        forall|a: int, b: int|
            0 <= a < b < undeclared_imports(mm, deps).len() ==> #[trigger] undeclared_imports(mm, deps)[a]
                != #[trigger] undeclared_imports(mm, deps)[b],
{
    assert forall|x: Seq<char>|
        #[trigger] undeclared_imports(mm, deps).contains(x) <==> resolve(mm, x) is None && exists|j: int, k: int|
            0 <= j < deps.len() && 0 <= k < deps[j].1.len() && #[trigger] deps[j].1[k] == x by {
        lemma_undeclared_contains(mm, all_imports(deps), x);
        lemma_all_imports_contains(deps, x);
    }
    lemma_undeclared_distinct(mm, all_imports(deps));
}

// ---------------------------------------------------------------------------------------------
// No file and no module is left out.

proof fn lemma_imports_from_keys(files: Seq<Seq<char>>, srcs: Seq<Option<Seq<char>>>, i: int, acc: Seq<(Seq<char>, Seq<Seq<char>>)>)
    requires
        keys_distinct(acc),
        0 <= i,
    ensures
        forall|x: Seq<char>| has_key(acc, x) ==> #[trigger] has_key(imports_from(files, srcs, i, acc), x),
        forall|t: int| i <= t < files.len() ==> has_key(imports_from(files, srcs, i, acc), #[trigger] files[t]),
    decreases files.len() - i,
{
    if i < files.len() {
        let acc2 = put(acc, files[i], source_imports(srcs[i]));
        lemma_put(acc, files[i], source_imports(srcs[i]));
        lemma_imports_from_keys(files, srcs, i + 1, acc2);
        let r = imports_from(files, srcs, i, acc);
        assert(r == imports_from(files, srcs, i + 1, acc2));
        assert forall|t: int| i <= t < files.len() implies has_key(r, #[trigger] files[t]) by {
            if t == i {
                assert(has_key(acc2, files[i]));
            }
        }
    }
}

/// Every source file is listed with its imports.
pub proof fn lemma_every_file_has_imports(files: Seq<Seq<char>>, srcs: Seq<Option<Seq<char>>>)
    ensures
        forall|t: int| 0 <= t < files.len() ==> has_key(file_imports(files, srcs), #[trigger] files[t]),
{
    lemma_imports_from_keys(files, srcs, 0, Seq::empty());
}

/// Every source file is in a compile order of the project.
pub proof fn lemma_every_file_ordered(
    files: Seq<Seq<char>>,
    srcs: Seq<Option<Seq<char>>>,
    mm: Seq<(Seq<char>, Seq<char>)>,
    order: Seq<Seq<char>>,
)
    requires
        is_compile_order(mm, file_imports(files, srcs), order),
    ensures
        forall|t: int| 0 <= t < files.len() ==> order.contains(#[trigger] files[t]),
{
    lemma_every_file_has_imports(files, srcs);
    let deps = file_imports(files, srcs);
    assert forall|t: int| 0 <= t < files.len() implies order.contains(#[trigger] files[t]) by {
        assert(has_key(deps, files[t]));
        let j = choose|j: int| 0 <= j < deps.len() && #[trigger] deps[j].0 == files[t];
        assert(order.contains(deps[j].0));
    }
}

proof fn lemma_module_map_from_complete(
    files: Seq<Seq<char>>,
    srcs: Seq<Option<Seq<char>>>,
    i: int,
    acc: Seq<(Seq<char>, Seq<char>)>,
)
    requires
        0 <= i,
    ensures
        module_map_from(files, srcs, i, acc) matches Ok(m) ==> {
            &&& forall|x: Seq<char>| has_key(acc, x) ==> #[trigger] has_key(m, x)
            &&& forall|t: int|
                i <= t < files.len() && t < srcs.len() && (#[trigger] source_module(srcs[t])) is Some ==> has_key(
                    m,
                    source_module(srcs[t])->0,
                )
        },
    decreases files.len() - i,
{
    if i < files.len() {
        match source_module(srcs[i]) {
            None => lemma_module_map_from_complete(files, srcs, i + 1, acc),
            Some(name) => {
                if !has_key(acc, name) {
                    let acc2 = acc.push((name, files[i]));
                    lemma_module_map_from_complete(files, srcs, i + 1, acc2);
                    assert forall|x: Seq<char>| has_key(acc, x) implies has_key(acc2, x) by {
                        let j = choose|j: int| 0 <= j < acc.len() && #[trigger] acc[j].0 == x;
                        assert(acc2[j] == acc[j]);
                    }
                    assert(acc2[acc.len() as int].0 == name);
                    assert(has_key(acc2, name));
                }
            },
        }
    }
}

/// Every module that a source file declares is in the module map.
pub proof fn lemma_module_map_complete(files: Seq<Seq<char>>, srcs: Seq<Option<Seq<char>>>)
    requires
        files.len() == srcs.len(),
    ensures
        module_map(files, srcs) matches Ok(m) ==> forall|t: int|
            0 <= t < files.len() && (#[trigger] source_module(srcs[t])) is Some ==> has_key(m, source_module(srcs[t])->0),
{
    lemma_module_map_from_complete(files, srcs, 0, Seq::empty());
}

} // verus!
