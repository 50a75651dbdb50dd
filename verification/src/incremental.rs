//! What the lock file buys: a build after which nothing changed compiles
//! nothing, and a module compiled again takes the files that import it along.
use vstd::prelude::*;

use crate::builder::{
    BuildStepView, PlanContext, PlanState, build_plan, compile_file, compile_files, file_module, gather_stubs,
    publish_file, publish_files,
};
use crate::config::ConfigView;
use crate::graph::{key_index, lemma_key_index};
use crate::lock::{LockEntryView, dirty, entry_index, lemma_put_keeps_names_distinct, lookup, names_distinct, put_entry};

verus! {

/// The state of a build after the first `n` files of the compile order.
pub open spec fn compile_prefix(ctx: PlanContext, n: int, st0: PlanState) -> PlanState
    decreases n,
{
    if n <= 0 {
        st0
    } else {
        compile_file(ctx, n - 1, compile_prefix(ctx, n - 1, st0))
    }
}

/// The module of the `i`-th file of the compile order.
pub open spec fn module_at(ctx: PlanContext, i: int) -> Seq<char> {
    file_module(ctx.mm, ctx.order[i], ctx.stems[i])
}

/// Whether the build that starts from `st0` compiles the `i`-th file of the
/// compile order: the file has imports recorded and its module is dirty when
/// its turn comes.
pub open spec fn recompiled(ctx: PlanContext, st0: PlanState, i: int) -> bool {
    match key_index(ctx.deps, ctx.order[i]) {
        Some(d) => {
            let st = compile_prefix(ctx, i, st0);
            dirty(st.lock, module_at(ctx, i), ctx.hashes[i], ctx.deps[d].1, st.dirty)
        },
        None => false,
    }
}

/// The plan has the lengths it needs.
pub open spec fn plan_inputs_fit(ctx: PlanContext) -> bool {
    &&& ctx.stems.len() == ctx.order.len()
    &&& ctx.hashes.len() == ctx.order.len()
}

/// No two files of the compile order have the same module.
pub open spec fn modules_distinct(ctx: PlanContext) -> bool {
    forall|i: int, j: int| 0 <= i < j < ctx.order.len() ==> module_at(ctx, i) != module_at(ctx, j)
}

pub open spec fn no_compile(steps: Seq<BuildStepView>) -> bool {
    forall|j: int| 0 <= j < steps.len() ==> !(#[trigger] steps[j] is Compile)
}

/// Every file of the first `n` with imports recorded has its module in the
/// lock with the file's current hash (where that hash is known).
pub open spec fn recorded(ctx: PlanContext, lock: Seq<LockEntryView>, n: int) -> bool {
    forall|k: int|
        0 <= k < n && #[trigger] key_index(ctx.deps, ctx.order[k]) is Some ==> match lookup(lock, module_at(ctx, k)) {
            Some(e) => ctx.hashes[k] matches Some(h) ==> e.hash == h,
            None => false,
        }
}

proof fn lemma_lookup_put(es: Seq<LockEntryView>, e: LockEntryView, n: Seq<char>)
    ensures
        lookup(put_entry(es, e), n) == if n == e.name {
            Some(e)
        } else {
            lookup(es, n)
        },
{
    let keys = es.map_values(|x: LockEntryView| (x.name, ()));
    let es2 = put_entry(es, e);
    let keys2 = es2.map_values(|x: LockEntryView| (x.name, ()));
    lemma_key_index(keys, e.name);
    lemma_key_index(keys, n);
    lemma_key_index(keys2, n);
    assert(entry_index(es, n) == key_index(keys, n));
    assert(entry_index(es2, n) == key_index(keys2, n));
    match key_index(keys, e.name) {
        Some(j) => {
            assert(es2 == es.update(j, e));
            assert(keys2.len() == keys.len());
            assert(forall|i: int| 0 <= i < keys.len() ==> #[trigger] keys2[i].0 == if i == j {
                e.name
            } else {
                keys[i].0
            });
            match key_index(keys2, n) {
                Some(j2) => {
                    if n == e.name {
                        if j2 < j {
                            assert(keys2[j2].0 == keys[j2].0);
                        }
                        if j < j2 {
                            assert(keys2[j].0 == n);
                        }
                    } else {
                        assert(keys2[j2].0 == keys[j2].0);
                        match key_index(keys, n) {
                            Some(j1) => {
                                if j1 < j2 {
                                    assert(keys2[j1].0 == keys[j1].0);
                                }
                                if j2 < j1 {
                                    assert(keys[j2].0 == n);
                                }
                            },
                            None => {},
                        }
                    }
                },
                None => {
                    if n == e.name {
                        assert(keys2[j].0 == n);
                    } else {
                        match key_index(keys, n) {
                            Some(j1) => {
                                assert(keys2[j1].0 == keys[j1].0);
                            },
                            None => {},
                        }
                    }
                },
            }
        },
        None => {
            assert(es2 == es.push(e));
            assert(keys2.len() == keys.len() + 1);
            assert(forall|i: int| 0 <= i < keys.len() ==> #[trigger] keys2[i].0 == keys[i].0);
            assert(keys2[keys.len() as int].0 == e.name);
            match key_index(keys2, n) {
                Some(j2) => {
                    if j2 < keys.len() {
                        match key_index(keys, n) {
                            Some(j1) => {
                                if j1 < j2 {
                                    assert(keys2[j1].0 == keys[j1].0);
                                }
                                if j2 < j1 {
                                    assert(keys[j2].0 == n);
                                }
                            },
                            None => {
                                assert(keys[j2].0 == n);
                            },
                        }
                    } else {
                        match key_index(keys, n) {
                            Some(j1) => {
                                assert(keys2[j1].0 == keys[j1].0);
                            },
                            None => {},
                        }
                    }
                },
                None => {
                    if n == e.name {
                        assert(keys2[keys.len() as int].0 == n);
                    } else {
                        match key_index(keys, n) {
                            Some(j1) => {
                                assert(keys2[j1].0 == keys[j1].0);
                            },
                            None => {},
                        }
                    }
                },
            }
        },
    }
}

/// Gathering stubs changes neither the dirty modules nor the lock, and adds no compile step.
proof fn lemma_gather_keeps(ctx: PlanContext, imports: Seq<Seq<char>>, k: int, st: PlanState, paths: Seq<Seq<char>>)
    ensures
        gather_stubs(ctx, imports, k, st, paths).0.dirty == st.dirty,
        gather_stubs(ctx, imports, k, st, paths).0.lock == st.lock,
        no_compile(st.steps) ==> no_compile(gather_stubs(ctx, imports, k, st, paths).0.steps),
    decreases imports.len() - k,
{
    if 0 <= k < imports.len() {
        match crate::graph::resolve(ctx.mm, imports[k]) {
            None => lemma_gather_keeps(ctx, imports, k + 1, st, paths + crate::builder::external_stubs(ctx.ext, imports[k])),
            Some(source) => {
                let stub = crate::builder::stub_path(ctx.stubs_dir, imports[k]);
                let st2 = if !st.stubs.contains(stub) || st.dirty.contains(imports[k]) {
                    PlanState {
                        steps: st.steps.push(BuildStepView::GenerateStub { module: imports[k], source, stub }),
                        stubs: st.stubs.push(stub),
                        ..st
                    }
                } else {
                    st
                };
                if no_compile(st.steps) {
                    assert forall|j: int| 0 <= j < st2.steps.len() implies !(#[trigger] st2.steps[j] is Compile) by {
                        if j < st.steps.len() {
                            assert(st2.steps[j] == st.steps[j]);
                        }
                    }
                }
                lemma_gather_keeps(ctx, imports, k + 1, st2, paths.push(stub));
            },
        }
    }
}

proof fn lemma_compile_split(ctx: PlanContext, n: int, st0: PlanState)
    requires
        0 <= n <= ctx.order.len(),
    ensures
        compile_files(ctx, 0, st0) == compile_files(ctx, n, compile_prefix(ctx, n, st0)),
    decreases n,
{
    if n > 0 {
        lemma_compile_split(ctx, n - 1, st0);
    }
}

proof fn lemma_publish_keeps(ctx: PlanContext, i: int, st: PlanState)
    requires
        plan_inputs_fit(ctx),
        0 <= i,
    ensures
        publish_files(ctx, i, st).lock == st.lock,
        no_compile(st.steps) ==> no_compile(publish_files(ctx, i, st).steps),
    decreases ctx.order.len() - i,
{
    if i < ctx.order.len() {
        let st2 = publish_file(ctx, i, st);
        if no_compile(st.steps) {
            assert forall|j: int| 0 <= j < st2.steps.len() implies !(#[trigger] st2.steps[j] is Compile) by {
                if j < st.steps.len() {
                    assert(st2.steps[j] == st.steps[j]);
                }
            }
        }
        lemma_publish_keeps(ctx, i + 1, st2);
    }
}

/// After the first `n` files, each of them is recorded in the lock with its current hash.
proof fn lemma_build_records(ctx: PlanContext, n: int, st0: PlanState)
    requires
        plan_inputs_fit(ctx),
        modules_distinct(ctx),
        0 <= n <= ctx.order.len(),
    ensures
        recorded(ctx, compile_prefix(ctx, n, st0).lock, n),
    decreases n,
{
    if n > 0 {
        let i = n - 1;
        lemma_build_records(ctx, i, st0);
        let st = compile_prefix(ctx, i, st0);
        let st_next = compile_prefix(ctx, n, st0);
        assert(st_next == compile_file(ctx, i, st));
        match key_index(ctx.deps, ctx.order[i]) {
            None => {
                assert forall|k: int|
                    0 <= k < n && #[trigger] key_index(ctx.deps, ctx.order[k]) is Some implies match lookup(
                        st_next.lock,
                        module_at(ctx, k),
                    ) {
                    Some(e) => ctx.hashes[k] matches Some(h) ==> e.hash == h,
                    None => false,
                } by {
                    assert(k < i);
                }
            },
            Some(d) => {
                let imports = ctx.deps[d].1;
                let m = module_at(ctx, i);
                lemma_gather_keeps(ctx, imports, 0, st, Seq::empty());
                if dirty(st.lock, m, ctx.hashes[i], imports, st.dirty) {
                    let e = LockEntryView {
                        name: m,
                        path: ctx.order[i],
                        hash: crate::builder::hash_or_empty(ctx.hashes[i]),
                        deps: imports,
                    };
                    assert(st_next.lock == put_entry(st.lock, e));
                    assert forall|k: int|
                        0 <= k < n && #[trigger] key_index(ctx.deps, ctx.order[k]) is Some implies match lookup(
                            st_next.lock,
                            module_at(ctx, k),
                        ) {
                        Some(e) => ctx.hashes[k] matches Some(h) ==> e.hash == h,
                        None => false,
                    } by {
                        lemma_lookup_put(st.lock, e, module_at(ctx, k));
                        if k < i {
                            assert(module_at(ctx, k) != m);
                        }
                    }
                } else {
                    assert(st_next.lock == st.lock);
                    assert forall|k: int|
                        0 <= k < n && #[trigger] key_index(ctx.deps, ctx.order[k]) is Some implies match lookup(
                            st_next.lock,
                            module_at(ctx, k),
                        ) {
                        Some(e) => ctx.hashes[k] matches Some(h) ==> e.hash == h,
                        None => false,
                    } by {
                        if k == i {
                            assert(lookup(st.lock, m) is Some);
                        }
                    }
                }
            },
        }
    }
}

/// With every file recorded, the first `n` files of a build are all skipped.
proof fn lemma_rebuild_skips(ctx: PlanContext, n: int, st0: PlanState)
    requires
        plan_inputs_fit(ctx),
        0 <= n <= ctx.order.len(),
        recorded(ctx, st0.lock, ctx.order.len() as int),
        st0.dirty == Seq::<Seq<char>>::empty(),
        no_compile(st0.steps),
    ensures
        compile_prefix(ctx, n, st0).lock == st0.lock,
        compile_prefix(ctx, n, st0).dirty == st0.dirty,
        no_compile(compile_prefix(ctx, n, st0).steps),
    decreases n,
{
    if n > 0 {
        let i = n - 1;
        lemma_rebuild_skips(ctx, i, st0);
        let st = compile_prefix(ctx, i, st0);
        match key_index(ctx.deps, ctx.order[i]) {
            None => {},
            Some(d) => {
                let imports = ctx.deps[d].1;
                let m = module_at(ctx, i);
                assert(key_index(ctx.deps, ctx.order[i]) is Some);
                assert(!dirty(st.lock, m, ctx.hashes[i], imports, st.dirty));
                lemma_gather_keeps(ctx, imports, 0, st, Seq::empty());
                let st2 = gather_stubs(ctx, imports, 0, st, Seq::empty()).0;
                let st_next = compile_prefix(ctx, n, st0);
                assert(st_next.steps == st2.steps.push(BuildStepView::Skip { file: ctx.order[i] }));
                assert forall|j: int| 0 <= j < st_next.steps.len() implies !(#[trigger] st_next.steps[j] is Compile) by {
                    if j < st2.steps.len() {
                        assert(st_next.steps[j] == st2.steps[j]);
                    }
                }
            },
        }
    }
}

/// Building again after a build, with no file changed, compiles nothing and
/// leaves the lock as the first build left it: every module was recorded with
/// the hash of its file. This holds where no two files of the compile order
/// have the same module (a file without a `module` line goes by its stem).
pub proof fn lemma_unchanged_rebuild_compiles_nothing(
    ctx: PlanContext,
    config: ConfigView,
    entry: Seq<char>,
    exe_ext: Seq<char>,
    entry_stem: Seq<char>,
    lock: Seq<LockEntryView>,
    stubs: Seq<Seq<char>>,
    stubs_after: Seq<Seq<char>>,
)
    requires
        plan_inputs_fit(ctx),
        modules_distinct(ctx),
    ensures
        ({
            let first = build_plan(ctx, config, entry, exe_ext, entry_stem, lock, stubs);
            let second = build_plan(ctx, config, entry, exe_ext, entry_stem, first.1, stubs_after);
            &&& second.1 == first.1
            &&& forall|j: int| 0 <= j < second.0.len() ==> !(#[trigger] second.0[j] is Compile)
        }),
{
    let len = ctx.order.len() as int;
    let st0 = PlanState { steps: Seq::empty(), stubs: stubs, dirty: Seq::empty(), lock };
    lemma_compile_split(ctx, len, st0);
    lemma_build_records(ctx, len, st0);
    let st1 = compile_prefix(ctx, len, st0);
    assert(compile_files(ctx, 0, st0) == st1);
    lemma_publish_keeps(ctx, 0, st1);
    let first = build_plan(ctx, config, entry, exe_ext, entry_stem, lock, stubs);
    assert(first.1 == st1.lock);

    let r0 = PlanState { steps: Seq::empty(), stubs: stubs_after, dirty: Seq::empty(), lock: first.1 };
    lemma_compile_split(ctx, len, r0);
    lemma_rebuild_skips(ctx, len, r0);
    let r1 = compile_prefix(ctx, len, r0);
    assert(compile_files(ctx, 0, r0) == r1);
    lemma_publish_keeps(ctx, 0, r1);
    let r2 = publish_files(ctx, 0, r1);
    let second = build_plan(ctx, config, entry, exe_ext, entry_stem, first.1, stubs_after);
    assert(second.1 == r2.lock);
    assert forall|j: int| 0 <= j < second.0.len() implies !(#[trigger] second.0[j] is Compile) by {
        if j < r2.steps.len() {
            assert(second.0[j] == r2.steps[j]);
        }
    }
}

/// The dirty modules only grow as the build goes on.
proof fn lemma_dirty_grows(ctx: PlanContext, n: int, n2: int, st0: PlanState, x: Seq<char>)
    requires
        plan_inputs_fit(ctx),
        0 <= n <= n2 <= ctx.order.len(),
        compile_prefix(ctx, n, st0).dirty.contains(x),
    ensures
        compile_prefix(ctx, n2, st0).dirty.contains(x),
    decreases n2 - n,
{
    if n < n2 {
        let st = compile_prefix(ctx, n, st0);
        match key_index(ctx.deps, ctx.order[n]) {
            None => {},
            Some(d) => {
                lemma_gather_keeps(ctx, ctx.deps[d].1, 0, st, Seq::empty());
                let g = gather_stubs(ctx, ctx.deps[d].1, 0, st, Seq::empty()).0;
                if dirty(st.lock, module_at(ctx, n), ctx.hashes[n], ctx.deps[d].1, st.dirty) {
                    assert(compile_prefix(ctx, n + 1, st0).dirty == g.dirty.push(module_at(ctx, n)));
                    let w = choose|w: int| 0 <= w < st.dirty.len() && st.dirty[w] == x;
                    assert(compile_prefix(ctx, n + 1, st0).dirty[w] == x);
                }
            },
        }
        lemma_dirty_grows(ctx, n + 1, n2, st0, x);
    }
}

/// A module compiled again takes along every later file that imports it.
pub proof fn lemma_importers_are_recompiled(ctx: PlanContext, st0: PlanState, i: int, j: int)
    requires
        plan_inputs_fit(ctx),
        0 <= i < j < ctx.order.len(),
        recompiled(ctx, st0, i),
        key_index(ctx.deps, ctx.order[j]) matches Some(d) && ctx.deps[d].1.contains(module_at(ctx, i)),
    ensures
        recompiled(ctx, st0, j),
{
    let st = compile_prefix(ctx, i, st0);
    let d_i = key_index(ctx.deps, ctx.order[i])->0;
    lemma_gather_keeps(ctx, ctx.deps[d_i].1, 0, st, Seq::empty());
    let g = gather_stubs(ctx, ctx.deps[d_i].1, 0, st, Seq::empty()).0;
    let m = module_at(ctx, i);
    assert(compile_prefix(ctx, i + 1, st0).dirty == g.dirty.push(m));
    assert(compile_prefix(ctx, i + 1, st0).dirty[st.dirty.len() as int] == m);
    lemma_dirty_grows(ctx, i + 1, j, st0, m);
    let stj = compile_prefix(ctx, j, st0);
    let d = key_index(ctx.deps, ctx.order[j])->0;
    let imports = ctx.deps[d].1;
    let w = choose|w: int| 0 <= w < imports.len() && imports[w] == m;
    assert(stj.dirty.contains(imports[w]));
}

/// The steps of a state are kept, in front, by the steps that follow.
pub open spec fn extends(later: Seq<BuildStepView>, earlier: Seq<BuildStepView>) -> bool {
    earlier.len() <= later.len() && later.take(earlier.len() as int) == earlier
}

proof fn lemma_gather_extends(ctx: PlanContext, imports: Seq<Seq<char>>, k: int, st: PlanState, paths: Seq<Seq<char>>)
    ensures
        extends(gather_stubs(ctx, imports, k, st, paths).0.steps, st.steps),
    decreases imports.len() - k,
{
    if 0 <= k < imports.len() {
        match crate::graph::resolve(ctx.mm, imports[k]) {
            None => lemma_gather_extends(ctx, imports, k + 1, st, paths + crate::builder::external_stubs(ctx.ext, imports[k])),
            Some(source) => {
                let stub = crate::builder::stub_path(ctx.stubs_dir, imports[k]);
                let st2 = if !st.stubs.contains(stub) || st.dirty.contains(imports[k]) {
                    PlanState {
                        steps: st.steps.push(BuildStepView::GenerateStub { module: imports[k], source, stub }),
                        stubs: st.stubs.push(stub),
                        ..st
                    }
                } else {
                    st
                };
                assert(st2.steps.take(st.steps.len() as int) =~= st.steps);
                lemma_gather_extends(ctx, imports, k + 1, st2, paths.push(stub));
                let fin = gather_stubs(ctx, imports, k + 1, st2, paths.push(stub)).0.steps;
                assert(fin.take(st.steps.len() as int) =~= st2.steps.take(st.steps.len() as int));
            },
        }
    } else {
        assert(st.steps.take(st.steps.len() as int) =~= st.steps);
    }
}

proof fn lemma_compile_file_extends(ctx: PlanContext, i: int, st: PlanState)
    ensures
        extends(compile_file(ctx, i, st).steps, st.steps),
{
    match key_index(ctx.deps, ctx.order[i]) {
        None => {
            assert(st.steps.take(st.steps.len() as int) =~= st.steps);
        },
        Some(d) => {
            lemma_gather_extends(ctx, ctx.deps[d].1, 0, st, Seq::empty());
            let g = gather_stubs(ctx, ctx.deps[d].1, 0, st, Seq::empty()).0;
            let fin = compile_file(ctx, i, st).steps;
            assert(fin.take(g.steps.len() as int) =~= g.steps);
            assert(fin.take(st.steps.len() as int) =~= g.steps.take(st.steps.len() as int));
        },
    }
}

proof fn lemma_compile_files_extend(ctx: PlanContext, i: int, st: PlanState)
    ensures
        extends(compile_files(ctx, i, st).steps, st.steps),
    decreases ctx.order.len() - i,
{
    if 0 <= i < ctx.order.len() {
        let st2 = compile_file(ctx, i, st);
        lemma_compile_file_extends(ctx, i, st);
        lemma_compile_files_extend(ctx, i + 1, st2);
        let fin = compile_files(ctx, i + 1, st2).steps;
        assert(fin.take(st.steps.len() as int) =~= fin.take(st2.steps.len() as int).take(st.steps.len() as int));
    } else {
        assert(st.steps.take(st.steps.len() as int) =~= st.steps);
    }
}

proof fn lemma_publish_files_extend(ctx: PlanContext, i: int, st: PlanState)
    ensures
        extends(publish_files(ctx, i, st).steps, st.steps),
    decreases ctx.order.len() - i,
{
    if 0 <= i < ctx.order.len() {
        let st2 = publish_file(ctx, i, st);
        assert(st2.steps.take(st.steps.len() as int) =~= st.steps);
        lemma_publish_files_extend(ctx, i + 1, st2);
        let fin = publish_files(ctx, i + 1, st2).steps;
        assert(fin.take(st.steps.len() as int) =~= fin.take(st2.steps.len() as int).take(st.steps.len() as int));
    } else {
        assert(st.steps.take(st.steps.len() as int) =~= st.steps);
    }
}

/// In the plan of a build, the step taken for the `i`-th file of the compile
/// order (a file with imports recorded) is a compile step of that file exactly
/// where `recompiled` holds, and a skip of it otherwise.
pub proof fn lemma_recompiled_is_the_compile_step(
    ctx: PlanContext,
    config: ConfigView,
    entry: Seq<char>,
    exe_ext: Seq<char>,
    entry_stem: Seq<char>,
    lock: Seq<LockEntryView>,
    stubs: Seq<Seq<char>>,
    i: int,
)
    requires
        plan_inputs_fit(ctx),
        0 <= i < ctx.order.len(),
        key_index(ctx.deps, ctx.order[i]) is Some,
    ensures
        ({
            let st0 = PlanState { steps: Seq::empty(), stubs: stubs, dirty: Seq::empty(), lock };
            let at = compile_prefix(ctx, i + 1, st0).steps.len() - 1;
            let steps = build_plan(ctx, config, entry, exe_ext, entry_stem, lock, stubs).0;
            &&& 0 <= at < steps.len()
            &&& recompiled(ctx, st0, i) ==> (steps[at] matches BuildStepView::Compile { file, .. } && file == ctx.order[i])
            &&& !recompiled(ctx, st0, i) ==> steps[at] == BuildStepView::Skip { file: ctx.order[i] }
        }),
{
    let st0 = PlanState { steps: Seq::empty(), stubs: stubs, dirty: Seq::empty(), lock };
    let len = ctx.order.len() as int;
    let pre = compile_prefix(ctx, i + 1, st0);
    let at = pre.steps.len() - 1;
    assert(pre == compile_file(ctx, i, compile_prefix(ctx, i, st0)));
    lemma_compile_split(ctx, i + 1, st0);
    lemma_compile_files_extend(ctx, i + 1, pre);
    let st1 = compile_files(ctx, 0, st0);
    lemma_publish_files_extend(ctx, 0, st1);
    let st2 = publish_files(ctx, 0, st1);
    let steps = build_plan(ctx, config, entry, exe_ext, entry_stem, lock, stubs).0;
    assert(extends(steps, st2.steps)) by {
        assert(steps.take(st2.steps.len() as int) =~= st2.steps);
    }
    assert(st2.steps[at] == st1.steps[at]);
    assert(st1.steps[at] == pre.steps[at]);
    assert(steps[at] == st2.steps[at]);
}

/// The state a build starts from.
pub open spec fn start_state(lock: Seq<LockEntryView>, stubs: Seq<Seq<char>>) -> PlanState {
    PlanState { steps: Seq::empty(), stubs: stubs, dirty: Seq::empty(), lock }
}

/// A module is dirty during a build only where it was dirty at the start or
/// an earlier file of that module was compiled.
proof fn lemma_dirty_origin(ctx: PlanContext, n: int, st0: PlanState, x: Seq<char>)
    requires
        plan_inputs_fit(ctx),
        0 <= n <= ctx.order.len(),
        compile_prefix(ctx, n, st0).dirty.contains(x),
    ensures
        st0.dirty.contains(x) || exists|k: int| 0 <= k < n && #[trigger] recompiled(ctx, st0, k) && module_at(ctx, k) == x,
    decreases n,
{
    if n > 0 {
        let i = n - 1;
        let st = compile_prefix(ctx, i, st0);
        match key_index(ctx.deps, ctx.order[i]) {
            None => {
                lemma_dirty_origin(ctx, i, st0, x);
            },
            Some(d) => {
                lemma_gather_keeps(ctx, ctx.deps[d].1, 0, st, Seq::empty());
                let g = gather_stubs(ctx, ctx.deps[d].1, 0, st, Seq::empty()).0;
                if dirty(st.lock, module_at(ctx, i), ctx.hashes[i], ctx.deps[d].1, st.dirty) {
                    let dn = compile_prefix(ctx, n, st0).dirty;
                    assert(dn == st.dirty.push(module_at(ctx, i)));
                    if x == module_at(ctx, i) {
                        assert(recompiled(ctx, st0, i));
                    } else {
                        let w = choose|w: int| 0 <= w < dn.len() && dn[w] == x;
                        assert(st.dirty[w] == x);
                        lemma_dirty_origin(ctx, i, st0, x);
                    }
                } else {
                    lemma_dirty_origin(ctx, i, st0, x);
                }
            },
        }
    }
}

/// Where no two files share a module, the lock entry of a file's module is, when
/// its turn comes, still the one the build started with.
proof fn lemma_entry_untouched(ctx: PlanContext, n: int, st0: PlanState, i: int)
    requires
        plan_inputs_fit(ctx),
        modules_distinct(ctx),
        0 <= n <= i < ctx.order.len(),
    ensures
        lookup(compile_prefix(ctx, n, st0).lock, module_at(ctx, i)) == lookup(st0.lock, module_at(ctx, i)),
    decreases n,
{
    if n > 0 {
        let k = n - 1;
        lemma_entry_untouched(ctx, k, st0, i);
        let st = compile_prefix(ctx, k, st0);
        match key_index(ctx.deps, ctx.order[k]) {
            None => {},
            Some(d) => {
                let imports = ctx.deps[d].1;
                lemma_gather_keeps(ctx, imports, 0, st, Seq::empty());
                if dirty(st.lock, module_at(ctx, k), ctx.hashes[k], imports, st.dirty) {
                    let e = LockEntryView {
                        name: module_at(ctx, k),
                        path: ctx.order[k],
                        hash: crate::builder::hash_or_empty(ctx.hashes[k]),
                        deps: imports,
                    };
                    assert(compile_prefix(ctx, n, st0).lock == put_entry(st.lock, e));
                    assert(module_at(ctx, k) != module_at(ctx, i));
                    lemma_lookup_put(st.lock, e, module_at(ctx, i));
                }
            },
        }
    }
}

/// A build compiles a file exactly where its module is not in the lock file,
/// or its file changed, or it imports the module of a file compiled earlier in
/// the same build: only changed files and the files that depend on them are
/// compiled again. This holds where no two files of the compile order have the
/// same module.
pub proof fn lemma_recompiled_exactly(ctx: PlanContext, lock: Seq<LockEntryView>, stubs: Seq<Seq<char>>, i: int)
    requires
        plan_inputs_fit(ctx),
        modules_distinct(ctx),
        0 <= i < ctx.order.len(),
        key_index(ctx.deps, ctx.order[i]) is Some,
    ensures
        ({
            let st0 = start_state(lock, stubs);
            let imports = ctx.deps[key_index(ctx.deps, ctx.order[i])->0].1;
            recompiled(ctx, st0, i) <==> {
                ||| lookup(lock, module_at(ctx, i)) is None
                ||| (ctx.hashes[i] matches Some(h) && lookup(lock, module_at(ctx, i)) matches Some(e) && h != e.hash)
                ||| exists|k: int| 0 <= k < i && #[trigger] recompiled(ctx, st0, k) && imports.contains(module_at(ctx, k))
            }
        }),
{
    let st0 = start_state(lock, stubs);
    let d = key_index(ctx.deps, ctx.order[i])->0;
    let imports = ctx.deps[d].1;
    let st = compile_prefix(ctx, i, st0);
    let m = module_at(ctx, i);
    lemma_entry_untouched(ctx, i, st0, i);
    assert(lookup(st.lock, m) == lookup(lock, m));
    let changed = exists|k: int| 0 <= k < i && #[trigger] recompiled(ctx, st0, k) && imports.contains(module_at(ctx, k));
    let stale = exists|w: int| 0 <= w < imports.len() && st.dirty.contains(#[trigger] imports[w]);
    if stale {
        let w = choose|w: int| 0 <= w < imports.len() && st.dirty.contains(#[trigger] imports[w]);
        lemma_dirty_origin(ctx, i, st0, imports[w]);
        let k = choose|k: int| 0 <= k < i && #[trigger] recompiled(ctx, st0, k) && module_at(ctx, k) == imports[w];
        assert(imports.contains(module_at(ctx, k)));
        assert(changed);
    }
    if changed {
        let k = choose|k: int| 0 <= k < i && #[trigger] recompiled(ctx, st0, k) && imports.contains(module_at(ctx, k));
        let sk = compile_prefix(ctx, k, st0);
        let dk = key_index(ctx.deps, ctx.order[k])->0;
        lemma_gather_keeps(ctx, ctx.deps[dk].1, 0, sk, Seq::empty());
        assert(compile_prefix(ctx, k + 1, st0).dirty == sk.dirty.push(module_at(ctx, k)));
        assert(compile_prefix(ctx, k + 1, st0).dirty[sk.dirty.len() as int] == module_at(ctx, k));
        lemma_dirty_grows(ctx, k + 1, i, st0, module_at(ctx, k));
        let w = choose|w: int| 0 <= w < imports.len() && imports[w] == module_at(ctx, k);
        assert(st.dirty.contains(imports[w]));
        assert(stale);
    }
}

proof fn lemma_prefix_names_distinct(ctx: PlanContext, n: int, st0: PlanState)
    requires
        plan_inputs_fit(ctx),
        0 <= n <= ctx.order.len(),
        names_distinct(st0.lock),
    ensures
        names_distinct(compile_prefix(ctx, n, st0).lock),
    decreases n,
{
    if n > 0 {
        let i = n - 1;
        lemma_prefix_names_distinct(ctx, i, st0);
        let st = compile_prefix(ctx, i, st0);
        match key_index(ctx.deps, ctx.order[i]) {
            None => {},
            Some(d) => {
                let imports = ctx.deps[d].1;
                lemma_gather_keeps(ctx, imports, 0, st, Seq::empty());
                if dirty(st.lock, module_at(ctx, i), ctx.hashes[i], imports, st.dirty) {
                    let e = LockEntryView {
                        name: module_at(ctx, i),
                        path: ctx.order[i],
                        hash: crate::builder::hash_or_empty(ctx.hashes[i]),
                        deps: imports,
                    };
                    lemma_put_keeps_names_distinct(st.lock, e);
                }
            },
        }
    }
}

/// The lock a build leaves holds each module at most once, where the lock it
/// started from did.
pub proof fn lemma_build_keeps_lock_names_distinct(
    ctx: PlanContext,
    config: ConfigView,
    entry: Seq<char>,
    exe_ext: Seq<char>,
    entry_stem: Seq<char>,
    lock: Seq<LockEntryView>,
    stubs: Seq<Seq<char>>,
)
    requires
        plan_inputs_fit(ctx),
        names_distinct(lock),
    ensures
        names_distinct(build_plan(ctx, config, entry, exe_ext, entry_stem, lock, stubs).1),
{
    let len = ctx.order.len() as int;
    let st0 = start_state(lock, stubs);
    lemma_compile_split(ctx, len, st0);
    lemma_prefix_names_distinct(ctx, len, st0);
    let st1 = compile_prefix(ctx, len, st0);
    lemma_publish_keeps(ctx, 0, st1);
}

} // verus!
