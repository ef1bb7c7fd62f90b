//! The store contract, and the two procedures built on it: registering a
//! module, and planning how a module is linked with the modules it imports.
use crate::record::{
    lemma_record_round_trip, names_fit, names_view, parse_record, pow256, record_bytes, same_bytes,
    WasmModule,
};
use vstd::prelude::*;
use vstd::utf8::*;

verus! {

/// What can go wrong in a store or in the procedures built on it.
#[derive(Debug, Clone, PartialEq, Eq)]
pub enum StoreError {
    /// No module of this name is stored.
    NotFound(String),
    /// A module of this name is stored already.
    AlreadyExists(String),
    /// A module to be registered imports this module, which is not stored.
    MissingDependency(String),
    /// A stored module lists this dependency twice.
    DuplicateImport(String),
    /// This module imports itself, directly or through others.
    CycleDetected(String),
    /// The stored bytes of this module do not decode.
    Codec(String),
    /// The backend failed to answer.
    Transport,
}

/// Stored records by module name.
pub type StoreView = Map<Seq<char>, Seq<u8>>;

/// What a `load_module` of `name` may return on a store holding `m`.
pub open spec fn load_post(m: StoreView, name: Seq<char>, r: Result<WasmModule, StoreError>) -> bool {
    match r {
        Ok(module) => m.contains_key(name) && parse_record(m[name]) == Some(module@),
        Err(StoreError::NotFound(n)) => n@ == name && !m.contains_key(name),
        Err(StoreError::Codec(n)) => n@ == name && m.contains_key(name) && parse_record(m[name]) is None,
        Err(StoreError::Transport) => true,
        Err(_) => false,
    }
}

/// What a `contains_module` of `name` may return on a store holding `m`.
pub open spec fn contains_post(m: StoreView, name: Seq<char>, r: Result<bool, StoreError>) -> bool {
    match r {
        Ok(b) => b == m.contains_key(name),
        Err(e) => e is Transport,
    }
}

/// How a `put_module` of `(name, code, deps)` may take a store from `old` to
/// `new`: it inserts the record under a name not yet taken, or changes
/// nothing. A stored record is never overwritten.
pub open spec fn put_post(
    old: StoreView,
    new: StoreView,
    name: Seq<char>,
    code: Seq<u8>,
    deps: Seq<Seq<char>>,
    r: Result<(), StoreError>,
) -> bool {
    &&& (new == old || (!old.contains_key(name) && new == old.insert(name, record_bytes(code, deps))))
    &&& match r {
        Ok(()) => !old.contains_key(name) && new == old.insert(name, record_bytes(code, deps)),
        Err(StoreError::AlreadyExists(n)) => n@ == name && old.contains_key(name) && new == old,
        Err(StoreError::Transport) => true,
        Err(_) => false,
    }
}

/// A backend that keeps encoded module records by name.
pub trait WasmStore {
    /// The encoded records that the store holds, by module name.
    spec fn modules(&self) -> StoreView;

    /// Loads a module from the store.
    fn load_module(&self, name: &str) -> (r: Result<WasmModule, StoreError>)
        ensures
            load_post(self.modules(), name@, r),
    ;

    /// Checks whether a module of this name is stored.
    fn contains_module(&self, name: &str) -> (r: Result<bool, StoreError>)
        ensures
            contains_post(self.modules(), name@, r),
    ;

    /// Stores a module under a name that is not yet taken.
    fn put_module(&mut self, name: &str, code: &[u8], host_modules: &[String]) -> (r: Result<
        (),
        StoreError,
    >)
        ensures
            put_post(
                old(self).modules(),
                final(self).modules(),
                name@,
                code@,
                names_view(host_modules@),
                r,
            ),
    ;
}

/// Every name of `deps` is stored in `m`.
pub open spec fn deps_stored(m: StoreView, deps: Seq<Seq<char>>) -> bool {
    forall|i: int| 0 <= i < deps.len() ==> m.contains_key(#[trigger] deps[i])
}

/// `d` is the first name of `deps` that `m` does not hold.
pub open spec fn first_missing(m: StoreView, deps: Seq<Seq<char>>, d: Seq<char>) -> bool {
    exists|i: int|
        0 <= i < deps.len() && deps[i] == d && !m.contains_key(d) && deps_stored(
            m,
            deps.subrange(0, i),
        )
}

/// What registering `(name, code, deps)` does to a store holding `old`.
pub open spec fn register_post(
    old: StoreView,
    new: StoreView,
    name: Seq<char>,
    code: Seq<u8>,
    deps: Seq<Seq<char>>,
    r: Result<(), StoreError>,
) -> bool {
    &&& (new == old || (!old.contains_key(name) && deps_stored(old, deps) && new == old.insert(
        name,
        record_bytes(code, deps),
    )))
    &&& match r {
        Ok(()) => !old.contains_key(name) && deps_stored(old, deps) && new == old.insert(
            name,
            record_bytes(code, deps),
        ),
        Err(StoreError::AlreadyExists(n)) => n@ == name && old.contains_key(name) && new == old,
        Err(StoreError::MissingDependency(d)) => !old.contains_key(name) && first_missing(
            old,
            deps,
            d@,
        ) && new == old,
        Err(StoreError::Transport) => true,
        Err(_) => false,
    }
}

/// Stores a module after checking that its name is free and that every
/// module it imports is stored; the first missing import, in the order
/// given, is the one reported.
pub fn store_wasm_module<S: WasmStore>(
    db: &mut S,
    module_name: &str,
    code: &[u8],
    host_modules: &[String],
) -> (r: Result<(), StoreError>)
    ensures
        register_post(
            old(db).modules(),
            final(db).modules(),
            module_name@,
            code@,
            names_view(host_modules@),
            r,
        ),
{
    let ghost deps = names_view(host_modules@);
    match db.contains_module(module_name) {
        Ok(true) => {
            return Err(StoreError::AlreadyExists(module_name.to_string()));
        },
        Ok(false) => {},
        Err(e) => {
            return Err(e);
        },
    }
    let mut i: usize = 0;
    while i < host_modules.len()
        invariant
            i <= host_modules@.len(),
            deps == names_view(host_modules@),
            !db.modules().contains_key(module_name@),
            deps_stored(db.modules(), deps.subrange(0, i as int)),
        decreases host_modules@.len() - i,
    {
        match db.contains_module(host_modules[i].as_str()) {
            Ok(true) => {},
            Ok(false) => {
                assert(first_missing(db.modules(), deps, host_modules@[i as int]@)) by {
                    assert(deps[i as int] == host_modules@[i as int]@);
                }
                return Err(StoreError::MissingDependency(host_modules[i].clone()));
            },
            Err(e) => {
                return Err(e);
            },
        }
        assert(deps_stored(db.modules(), deps.subrange(0, i + 1))) by {
            assert forall|j: int| 0 <= j < i + 1 implies db.modules().contains_key(
                #[trigger] deps.subrange(0, i + 1)[j],
            ) by {
                if j < i {
                    assert(deps.subrange(0, i + 1)[j] == deps.subrange(0, i as int)[j]);
                }
            }
        }
        i += 1;
    }
    assert(deps.subrange(0, deps.len() as int) =~= deps);
    db.put_module(module_name, code, host_modules)
}


/// One module to instantiate: its name, its code and the names it imports.
pub struct LinkStep {
    pub name: String,
    pub code: Vec<u8>,
    pub host_modules: Vec<String>,
}

impl View for LinkStep {
    type V = (Seq<char>, Seq<u8>, Seq<Seq<char>>);

    open spec fn view(&self) -> (Seq<char>, Seq<u8>, Seq<Seq<char>>) {
        (self.name@, self.code@, names_view(self.host_modules@))
    }
}

pub open spec fn steps_view(steps: Seq<LinkStep>) -> Seq<(Seq<char>, Seq<u8>, Seq<Seq<char>>)> {
    steps.map_values(|s: LinkStep| s@)
}

/// The names on the stack after instantiating `steps` in order, where each
/// step takes the instances of its imports, in order, from the top of the
/// stack and pushes its own; `None` where a step does not find them there.
pub open spec fn stack_after(steps: Seq<(Seq<char>, Seq<u8>, Seq<Seq<char>>)>) -> Option<
    Seq<Seq<char>>,
>
    decreases steps.len(),
{
    if steps.len() == 0 {
        Some(Seq::empty())
    } else {
        match stack_after(steps.drop_last()) {
            Some(st) => {
                let deps = steps.last().2;
                if deps.len() <= st.len() && st.subrange(st.len() - deps.len(), st.len() as int)
                    == deps {
                    Some(st.subrange(0, st.len() - deps.len()).push(steps.last().0))
                } else {
                    None
                }
            },
            None => None,
        }
    }
}

/// Every step is the stored record of its name.
pub open spec fn steps_stored(m: StoreView, steps: Seq<(Seq<char>, Seq<u8>, Seq<Seq<char>>)>) -> bool {
    forall|i: int|
        0 <= i < steps.len() ==> m.contains_key(#[trigger] steps[i].0) && parse_record(
            m[steps[i].0],
        ) == Some((steps[i].1, steps[i].2))
}

/// `steps` link `name` on a store holding `m`: they are stored records, and
/// instantiating them in order leaves exactly the instance of `name`.
pub open spec fn plan_post(m: StoreView, name: Seq<char>, steps: Seq<(Seq<char>, Seq<u8>, Seq<Seq<char>>)>) -> bool {
    steps_stored(m, steps) && stack_after(steps) == Some(seq![name])
}

/// The record stored under `n` lists `d` twice.
pub open spec fn lists_twice(m: StoreView, n: Seq<char>, d: Seq<char>) -> bool {
    &&& m.contains_key(n)
    &&& parse_record(m[n]) is Some
    &&& exists|i: int, j: int|
        0 <= i < j < parse_record(m[n])->Some_0.1.len() && parse_record(m[n])->Some_0.1[i] == d
            && parse_record(m[n])->Some_0.1[j] == d
}

/// The modules that the record stored under `n` imports.
pub open spec fn stored_deps(m: StoreView, n: Seq<char>) -> Seq<Seq<char>> {
    parse_record(m[n])->Some_0.1
}

/// Every stored record decodes, and each module that it imports is stored
/// and ranked below it.
pub open spec fn ranked(m: StoreView, rank: Map<Seq<char>, nat>) -> bool {
    forall|n: Seq<char>|
        #[trigger] m.contains_key(n) ==> rank.contains_key(n) && parse_record(m[n]) is Some
            && forall|i: int|
            0 <= i < stored_deps(m, n).len() ==> m.contains_key(#[trigger] stored_deps(m, n)[i])
                && rank.contains_key(stored_deps(m, n)[i]) && rank[stored_deps(m, n)[i]] < rank[n]
}

/// No chain of imports among the stored records comes back to where it
/// started.
pub open spec fn acyclic(m: StoreView) -> bool {
    exists|rank: Map<Seq<char>, nat>| ranked(m, rank)
}

spec fn some_rank(m: StoreView) -> Map<Seq<char>, nat> {
    choose|rank: Map<Seq<char>, nat>| ranked(m, rank)
}

/// The record stored under `a` decodes and lists `b` among its imports.
pub open spec fn imports(m: StoreView, a: Seq<char>, b: Seq<char>) -> bool {
    m.contains_key(a) && parse_record(m[a]) is Some && stored_deps(m, a).contains(b)
}

/// Each name of `c` imports the next one.
pub open spec fn is_chain(m: StoreView, c: Seq<Seq<char>>) -> bool {
    c.len() > 0 && forall|i: int| 0 <= i < c.len() - 1 ==> #[trigger] imports(m, c[i], c[i + 1])
}

/// `n` is `root`, or is imported by `root` directly or through others.
pub open spec fn reachable(m: StoreView, root: Seq<char>, n: Seq<char>) -> bool {
    exists|c: Seq<Seq<char>>| #[trigger] is_chain(m, c) && c[0] == root && c.last() == n
}

/// A chain of imports from `root` reaches `n` and then comes back to `n`.
pub open spec fn on_cycle_from(m: StoreView, root: Seq<char>, n: Seq<char>) -> bool {
    exists|c: Seq<Seq<char>>|
        #[trigger] is_chain(m, c) && c[0] == root && c.last() == n && exists|i: int|
            0 <= i < c.len() - 1 && c[i] == n
}

/// Some name occurs twice in `s`.
pub open spec fn has_duplicate(s: Seq<Seq<char>>) -> bool {
    exists|i: int, j: int| 0 <= i < j < s.len() && s[i] == s[j]
}

/// Every module reachable from `root` is stored, decodes and lists no
/// import twice, and no chain of imports from `root` comes back on itself.
pub open spec fn closure_clean(m: StoreView, root: Seq<char>) -> bool {
    &&& forall|n: Seq<char>|
        #[trigger] reachable(m, root, n) ==> m.contains_key(n) && parse_record(m[n]) is Some
            && !has_duplicate(stored_deps(m, n))
    &&& forall|n: Seq<char>| !#[trigger] on_cycle_from(m, root, n)
}

/// What a failed link plan of `root` reports about a store holding `m`:
/// each error names a module that the walk from `root` reaches.
pub open spec fn plan_error(m: StoreView, root: Seq<char>, e: StoreError) -> bool {
    match e {
        StoreError::NotFound(n) => reachable(m, root, n@) && !m.contains_key(n@),
        StoreError::Codec(n) => reachable(m, root, n@) && m.contains_key(n@) && parse_record(m[n@])
            is None,
        StoreError::DuplicateImport(d) => exists|n: Seq<char>|
            reachable(m, root, n) && #[trigger] lists_twice(m, n, d@),
        StoreError::CycleDetected(n) => on_cycle_from(m, root, n@),
        StoreError::Transport => true,
        _ => false,
    }
}

fn same_name(a: &str, b: &str) -> (r: bool)
    ensures
        r == (a@ == b@),
{
    proof {
        encode_utf8_decode_utf8(a@);
        encode_utf8_decode_utf8(b@);
    }
    same_bytes(a.as_bytes(), b.as_bytes())
}

fn plan_into<S: WasmStore>(
    db: &S,
    name: &str,
    path: &mut Vec<String>,
    steps: &mut Vec<LinkStep>,
    root: Ghost<Seq<char>>,
) -> (r: Result<(), StoreError>)
    requires
        is_chain(db.modules(), names_view(old(path)@).push(name@)),
        names_view(old(path)@).push(name@)[0] == root@,
        forall|i: int| 0 <= i < old(path)@.len() ==> db.modules().contains_key(#[trigger] old(path)@[i]@),
        steps_stored(db.modules(), steps_view(old(steps)@)),
        stack_after(steps_view(old(steps)@)) is Some,
        acyclic(db.modules()) ==> forall|i: int|
            0 <= i < old(path)@.len() ==> (db.modules().contains_key(name@) ==> some_rank(
                db.modules(),
            )[name@] < some_rank(db.modules())[#[trigger] old(path)@[i]@]),
    ensures
        final(path)@ == old(path)@,
        acyclic(db.modules()) ==> !(r matches Err(StoreError::CycleDetected(_))),
        match r {
            Ok(()) => steps_stored(db.modules(), steps_view(final(steps)@)) && stack_after(
                steps_view(final(steps)@),
            ) == Some(stack_after(steps_view(old(steps)@))->Some_0.push(name@)),
            Err(e) => plan_error(db.modules(), root@, e),
        },
        closure_clean(db.modules(), root@) && !(r matches Err(StoreError::Transport)) ==> r is Ok,
    decreases usize::MAX - old(path)@.len(),
{
    let ghost m = db.modules();
    let ghost c = names_view(old(path)@).push(name@);
    assert(reachable(m, root@, name@)) by {
        assert(is_chain(m, c) && c[0] == root@ && c.last() == name@);
    }
    let mut i: usize = 0;
    while i < path.len()
        invariant
            i <= path@.len(),
            path@ == old(path)@,
            m == db.modules(),
            c == names_view(old(path)@).push(name@),
            is_chain(m, c),
            c[0] == root@,
            forall|i: int| 0 <= i < old(path)@.len() ==> m.contains_key(#[trigger] old(path)@[i]@),
            acyclic(m) ==> forall|i: int|
                0 <= i < old(path)@.len() ==> (m.contains_key(name@) ==> some_rank(m)[name@]
                    < some_rank(m)[#[trigger] old(path)@[i]@]),
        decreases path@.len() - i,
    {
        if same_name(path[i].as_str(), name) {
            assert(m.contains_key(old(path)@[i as int]@));
            assert(on_cycle_from(m, root@, name@)) by {
                assert(c[i as int] == name@);
                assert(exists|k: int| 0 <= k < c.len() - 1 && c[k] == name@);
                assert(is_chain(m, c) && c[0] == root@ && c.last() == name@);
            }
            assert(!acyclic(m)) by {
                if acyclic(m) {
                    assert(some_rank(m)[name@] < some_rank(m)[old(path)@[i as int]@]);
                }
            }
            return Err(StoreError::CycleDetected(name.to_string()));
        }
        i += 1;
    }
    let module = match db.load_module(name) {
        Ok(module) => module,
        Err(e) => {
            return Err(e);
        },
    };
    proof {
        if closure_clean(m, root@) {
            assert(!has_duplicate(stored_deps(m, name@)));
        }
    }
    let ghost deps = names_view(module.host_modules@);
    let n = module.host_modules.len();
    let mut j: usize = 0;
    while j < n
        invariant
            n == module.host_modules@.len(),
            j <= n,
            deps == names_view(module.host_modules@),
            load_post(m, name@, Ok::<WasmModule, StoreError>(module)),
            m == db.modules(),
            path@ == old(path)@,
            reachable(m, root@, name@),
            closure_clean(m, root@) ==> !has_duplicate(stored_deps(m, name@)),
        decreases n - j,
    {
        let mut k: usize = 0;
        while k < j
            invariant
                k <= j < n,
                n == module.host_modules@.len(),
                deps == names_view(module.host_modules@),
                load_post(m, name@, Ok::<WasmModule, StoreError>(module)),
                m == db.modules(),
                path@ == old(path)@,
                reachable(m, root@, name@),
                closure_clean(m, root@) ==> !has_duplicate(stored_deps(m, name@)),
            decreases j - k,
        {
            if same_name(module.host_modules[k].as_str(), module.host_modules[j].as_str()) {
                let dup = module.host_modules[j].clone();
                let ghost e = StoreError::DuplicateImport(dup);
                proof {
                    let listed = parse_record(m[name@])->Some_0.1;
                    assert(listed == deps);
                    assert(deps[k as int] == module.host_modules@[k as int]@);
                    assert(deps[j as int] == module.host_modules@[j as int]@);
                    assert(listed[k as int] == dup@ && listed[j as int] == dup@);
                    assert(lists_twice(m, name@, e->DuplicateImport_0@));
                    assert(has_duplicate(stored_deps(m, name@)));
                }
                return Err(StoreError::DuplicateImport(dup));
            }
            k += 1;
        }
        j += 1;
    }
    let ghost path0 = path@;
    let ghost steps0 = steps_view(steps@);
    path.push(name.to_string());
    let ghost pushed = path@;
    let depth = path.len();
    assert(pushed.drop_last() =~= path0);
    assert(names_view(pushed) =~= c);
    proof {
        if acyclic(m) {
            assert forall|i: int| 0 <= i < pushed.len() implies some_rank(m)[name@] <= some_rank(
                m,
            )[#[trigger] pushed[i]@] by {
                if i < path0.len() {
                    assert(pushed[i] == path0[i]);
                }
            }
        }
    }
    let mut j: usize = 0;
    while j < n
        invariant
            n == module.host_modules@.len(),
            j <= n,
            deps == names_view(module.host_modules@),
            load_post(m, name@, Ok::<WasmModule, StoreError>(module)),
            m == db.modules(),
            path@ == pushed,
            depth == pushed.len(),
            names_view(pushed) == c,
            is_chain(m, c),
            c[0] == root@,
            c.last() == name@,
            pushed.drop_last() == path0,
            pushed.len() == path0.len() + 1,
            path0 == old(path)@,
            forall|i: int| 0 <= i < path@.len() ==> m.contains_key(#[trigger] path@[i]@),
            acyclic(m) ==> forall|i: int|
                0 <= i < pushed.len() ==> some_rank(m)[name@] <= some_rank(m)[#[trigger] pushed[i]@],
            steps_stored(m, steps_view(steps@)),
            stack_after(steps0) is Some,
            stack_after(steps_view(steps@)) == Some(
                stack_after(steps0)->Some_0 + deps.subrange(0, j as int),
            ),
        decreases n - j,
    {
        proof {
            if acyclic(m) {
                let rank = some_rank(m);
                assert(ranked(m, rank));
                assert(stored_deps(m, name@) == deps);
                assert(deps[j as int] == module.host_modules@[j as int]@);
                assert(m.contains_key(deps[j as int]));
                assert(rank[deps[j as int]] < rank[name@]);
            }
            let c2 = c.push(deps[j as int]);
            assert(deps[j as int] == module.host_modules@[j as int]@);
            assert(stored_deps(m, name@) == deps);
            assert(deps.contains(deps[j as int]));
            assert forall|i: int| 0 <= i < c2.len() - 1 implies #[trigger] imports(
                m,
                c2[i],
                c2[i + 1],
            ) by {
                if i < c.len() - 1 {
                    assert(c2[i] == c[i] && c2[i + 1] == c[i + 1]);
                    assert(imports(m, c[i], c[i + 1]));
                }
            }
            assert(is_chain(m, c2));
            assert(names_view(path@).push(module.host_modules@[j as int]@) =~= c2);
        }
        match plan_into(db, module.host_modules[j].as_str(), path, steps, root) {
            Ok(()) => {},
            Err(e) => {
                path.pop();
                return Err(e);
            },
        }
        assert(stack_after(steps0)->Some_0 + deps.subrange(0, j + 1) =~= (stack_after(
            steps0,
        )->Some_0 + deps.subrange(0, j as int)).push(deps[j as int]));
        j += 1;
    }
    path.pop();
    assert(path@ =~= path0);
    let ghost before = steps_view(steps@);
    let step = LinkStep { name: name.to_string(), code: module.code, host_modules: module.host_modules };
    steps.push(step);
    proof {
        let after = steps_view(steps@);
        let st0 = stack_after(steps0)->Some_0;
        assert(after.drop_last() =~= before);
        assert(deps.subrange(0, n as int) =~= deps);
        let st = st0 + deps;
        assert(st.subrange(st.len() - deps.len(), st.len() as int) =~= deps);
        assert(st.subrange(0, st.len() - deps.len()) =~= st0);
        assert forall|i: int| 0 <= i < after.len() implies m.contains_key(#[trigger] after[i].0)
            && parse_record(m[after[i].0]) == Some((after[i].1, after[i].2)) by {
            if i < before.len() {
                assert(after[i] == before[i]);
            }
        }
    }
    Ok(())
}

/// From a module that is not stored, nothing but the module itself is
/// reached.
proof fn lemma_unknown_root(m: StoreView, root: Seq<char>, n: Seq<char>)
    requires
        !m.contains_key(root),
    ensures
        reachable(m, root, n) ==> n == root,
        !on_cycle_from(m, root, n),
{
    assert forall|c: Seq<Seq<char>>| is_chain(m, c) && c[0] == root implies c.len() == 1 by {
        if c.len() > 1 {
            assert(imports(m, c[0], c[1]));
        }
    }
}

/// The steps that link `module_name` with every module it imports,
/// directly or through others: dependencies come before the modules that
/// import them, each in the order its importer lists it. A module met again
/// among its own importers is reported as a cycle, so the walk ends on any
/// store; on an acyclic store, such as one built by registrations alone, no
/// cycle is ever reported.
pub fn link_plan<S: WasmStore>(db: &S, module_name: &str) -> (r: Result<Vec<LinkStep>, StoreError>)
    ensures
        match r {
            Ok(steps) => plan_post(db.modules(), module_name@, steps_view(steps@)),
            Err(e) => plan_error(db.modules(), module_name@, e),
        },
        closure_clean(db.modules(), module_name@) && !(r matches Err(StoreError::Transport))
            ==> r is Ok,
        !db.modules().contains_key(module_name@) ==> (r matches Err(StoreError::Transport)) || (
        r matches Err(StoreError::NotFound(n)) && n@ == module_name@),
        acyclic(db.modules()) ==> !(r matches Err(StoreError::CycleDetected(_))),
{
    let mut path: Vec<String> = Vec::new();
    let mut steps: Vec<LinkStep> = Vec::new();
    proof {
        assert(steps_view(steps@) =~= Seq::empty());
        assert(names_view(path@).push(module_name@) =~= seq![module_name@]);
    }
    match plan_into(db, module_name, &mut path, &mut steps, Ghost(module_name@)) {
        Ok(()) => {
            assert(Seq::<Seq<char>>::empty().push(module_name@) =~= seq![module_name@]);
            proof {
                let v = steps_view(steps@);
                if v.len() > 0 {
                    assert(v.last() == v[v.len() - 1]);
                    assert(db.modules().contains_key(v[v.len() - 1].0));
                }
            }
            Ok(steps)
        },
        Err(e) => {
            proof {
                if !db.modules().contains_key(module_name@) {
                    lemma_unknown_root(db.modules(), module_name@, module_name@);
                    if e is NotFound {
                        lemma_unknown_root(db.modules(), module_name@, e->NotFound_0@);
                    } else if e is Codec {
                        lemma_unknown_root(db.modules(), module_name@, e->Codec_0@);
                    } else if e is CycleDetected {
                        lemma_unknown_root(db.modules(), module_name@, e->CycleDetected_0@);
                    } else if e is DuplicateImport {
                        assert forall|n: Seq<char>| reachable(db.modules(), module_name@, n) implies !lists_twice(
                            db.modules(),
                            n,
                            e->DuplicateImport_0@,
                        ) by {
                            lemma_unknown_root(db.modules(), module_name@, n);
                        }
                    }
                }
            }
            Err(e)
        },
    }
}


/// The record of `(code, deps)` can be written and read back: its lengths
/// fit in the headers of the stored form.
pub open spec fn record_fits(code: Seq<u8>, deps: Seq<Seq<char>>) -> bool {
    code.len() < pow256(8) && deps.len() < pow256(8) && names_fit(deps)
}

/// Every record that `a` holds, `b` holds unchanged.
pub open spec fn keeps(a: StoreView, b: StoreView) -> bool {
    forall|k: Seq<char>| #[trigger] a.contains_key(k) ==> b.contains_key(k) && b[k] == a[k]
}

/// A put never changes or removes a stored record.
pub proof fn lemma_put_keeps(
    old: StoreView,
    new: StoreView,
    name: Seq<char>,
    code: Seq<u8>,
    deps: Seq<Seq<char>>,
    r: Result<(), StoreError>,
)
    requires
        put_post(old, new, name, code, deps, r),
    ensures
        keeps(old, new),
{
}

proof fn lemma_keeps_trans(a: StoreView, b: StoreView, c: StoreView)
    requires
        keeps(a, b),
        keeps(b, c),
    ensures
        keeps(a, c),
{
    assert forall|k: Seq<char>| a.contains_key(k) implies c.contains_key(k) && c[k] == a[k] by {
        assert(b.contains_key(k));
    }
}

/// One put of a run: its name, code, dependencies and result.
pub type PutCall = (Seq<char>, Seq<u8>, Seq<Seq<char>>, Result<(), StoreError>);

/// `trace[i + 1]` is what the put `calls[i]` left of `trace[i]`.
pub open spec fn put_run(trace: Seq<StoreView>, calls: Seq<PutCall>) -> bool {
    &&& trace.len() == calls.len() + 1
    &&& forall|i: int|
        0 <= i < calls.len() ==> put_post(
            #[trigger] trace[i],
            trace[i + 1],
            calls[i].0,
            calls[i].1,
            calls[i].2,
            calls[i].3,
        )
}

proof fn lemma_run_keeps(trace: Seq<StoreView>, calls: Seq<PutCall>, i: int, j: int)
    requires
        put_run(trace, calls),
        0 <= i <= j < trace.len(),
    ensures
        keeps(trace[i], trace[j]),
    decreases j - i,
{
    if i < j {
        lemma_run_keeps(trace, calls, i, j - 1);
        let c = calls[j - 1];
        lemma_put_keeps(trace[j - 1], trace[j], c.0, c.1, c.2, c.3);
        lemma_keeps_trans(trace[i], trace[j - 1], trace[j]);
    }
}

/// Once a put of `name` has succeeded, every later put of `name` fails, and
/// whatever puts come in between, the name still holds the first record, so
/// that a load of it can only return that record.
pub proof fn lemma_store_immutable(trace: Seq<StoreView>, calls: Seq<PutCall>, first: int, second: int)
    requires
        put_run(trace, calls),
        0 <= first < second < calls.len(),
        calls[first].0 == calls[second].0,
        calls[first].3 is Ok,
        record_fits(calls[first].1, calls[first].2),
    ensures
        calls[second].3 is Err,
        forall|r: Result<WasmModule, StoreError>|
            load_post(trace[second + 1], calls[first].0, r) && r is Ok ==> r->Ok_0@ == (
                calls[first].1,
                calls[first].2,
            ),
{
    let (n, c1, d1, r1) = calls[first];
    assert(put_post(trace[first], trace[first + 1], n, c1, d1, r1));
    assert(trace[first + 1].contains_key(n) && trace[first + 1][n] == record_bytes(c1, d1));
    lemma_run_keeps(trace, calls, first + 1, second);
    let c = calls[second];
    assert(put_post(trace[second], trace[second + 1], c.0, c.1, c.2, c.3));
    lemma_put_keeps(trace[second], trace[second + 1], c.0, c.1, c.2, c.3);
    lemma_record_round_trip(c1, d1);
}

/// A registration that succeeds found every dependency already stored.
pub proof fn lemma_register_closed(
    old: StoreView,
    new: StoreView,
    name: Seq<char>,
    code: Seq<u8>,
    deps: Seq<Seq<char>>,
    r: Result<(), StoreError>,
)
    requires
        register_post(old, new, name, code, deps, r),
        r is Ok,
    ensures
        forall|i: int| 0 <= i < deps.len() ==> old.contains_key(#[trigger] deps[i]),
{
}


spec fn max_rank(rank: Map<Seq<char>, nat>, deps: Seq<Seq<char>>) -> nat
    decreases deps.len(),
{
    if deps.len() == 0 {
        0
    } else {
        let a = max_rank(rank, deps.drop_last());
        let b = rank[deps.last()];
        if a < b {
            b
        } else {
            a
        }
    }
}

proof fn lemma_max_rank(rank: Map<Seq<char>, nat>, deps: Seq<Seq<char>>, i: int)
    requires
        0 <= i < deps.len(),
    ensures
        rank[deps[i]] <= max_rank(rank, deps),
    decreases deps.len(),
{
    if i < deps.len() - 1 {
        lemma_max_rank(rank, deps.drop_last(), i);
    }
}

/// Registering a module keeps a store acyclic: the new module imports only
/// modules stored before it.
pub proof fn lemma_register_acyclic(
    old: StoreView,
    new: StoreView,
    name: Seq<char>,
    code: Seq<u8>,
    deps: Seq<Seq<char>>,
    r: Result<(), StoreError>,
)
    requires
        acyclic(old),
        register_post(old, new, name, code, deps, r),
        record_fits(code, deps),
    ensures
        acyclic(new),
{
    let rank = some_rank(old);
    assert(ranked(old, rank));
    if new != old {
        let rank2 = rank.insert(name, max_rank(rank, deps) + 1);
        lemma_record_round_trip(code, deps);
        assert forall|n: Seq<char>| #[trigger] new.contains_key(n) implies rank2.contains_key(n)
            && parse_record(new[n]) is Some && forall|i: int|
            0 <= i < stored_deps(new, n).len() ==> new.contains_key(
                #[trigger] stored_deps(new, n)[i],
            ) && rank2.contains_key(stored_deps(new, n)[i]) && rank2[stored_deps(new, n)[i]]
                < rank2[n] by {
            if n == name {
                assert(stored_deps(new, n) == deps);
                assert forall|i: int| 0 <= i < deps.len() implies new.contains_key(#[trigger] deps[i])
                    && rank2.contains_key(deps[i]) && rank2[deps[i]] < rank2[n] by {
                    assert(old.contains_key(deps[i]));
                    lemma_max_rank(rank, deps, i);
                }
            } else {
                assert(old.contains_key(n));
                assert(stored_deps(new, n) == stored_deps(old, n));
                assert forall|i: int| 0 <= i < stored_deps(new, n).len() implies new.contains_key(
                    #[trigger] stored_deps(new, n)[i],
                ) && rank2.contains_key(stored_deps(new, n)[i]) && rank2[stored_deps(new, n)[i]]
                    < rank2[n] by {
                    assert(old.contains_key(stored_deps(old, n)[i]));
                }
            }
        }
        assert(ranked(new, rank2));
    }
}

/// `trace[i + 1]` is what the registration `calls[i]` left of `trace[i]`.
pub open spec fn register_run(trace: Seq<StoreView>, calls: Seq<PutCall>) -> bool {
    &&& trace.len() == calls.len() + 1
    &&& forall|i: int|
        0 <= i < calls.len() ==> register_post(
            #[trigger] trace[i],
            trace[i + 1],
            calls[i].0,
            calls[i].1,
            calls[i].2,
            calls[i].3,
        ) && record_fits(calls[i].1, calls[i].2)
}

/// A store built from empty by registrations alone is acyclic, so that
/// linking any of its modules never meets a cycle.
pub proof fn lemma_registered_store_acyclic(trace: Seq<StoreView>, calls: Seq<PutCall>)
    requires
        register_run(trace, calls),
        trace[0] == Map::<Seq<char>, Seq<u8>>::empty(),
    ensures
        acyclic(trace.last()),
    decreases calls.len(),
{
    if calls.len() == 0 {
        let rank = Map::<Seq<char>, nat>::empty();
        assert(ranked(trace[0], rank));
    } else {
        let n = calls.len() - 1;
        let t0 = trace.drop_last();
        let c0 = calls.drop_last();
        assert forall|i: int| 0 <= i < c0.len() implies register_post(
            #[trigger] t0[i],
            t0[i + 1],
            c0[i].0,
            c0[i].1,
            c0[i].2,
            c0[i].3,
        ) && record_fits(c0[i].1, c0[i].2) by {
            assert(t0[i] == trace[i] && t0[i + 1] == trace[i + 1] && c0[i] == calls[i]);
        }
        lemma_registered_store_acyclic(t0, c0);
        assert(t0.last() == trace[n]);
        let c = calls[n];
        assert(register_post(trace[n], trace[n + 1], c.0, c.1, c.2, c.3));
        lemma_register_acyclic(trace[n], trace[n + 1], c.0, c.1, c.2, c.3);
    }
}

} // verus!
