//! Language-agnostic analysis over a normalized `Analysis`.

use vstd::prelude::*;
use crate::model::{
    lemma_contains_left, lemma_contains_right,
    lookup, normalize, spec_normalize, views, Analysis, AnalysisView, DeclaredDepView, DepKind,
    ResolvedPkgView, Usage, UsageView, DeclaredDep, key_index,
};
use crate::text::str_eq;

verus! {

pub struct Finding {
    pub language: String,
    pub unused: Vec<UnusedDep>,
    /// Declared + not imported, but a hint says it's used another way.
    pub suppressed: Vec<SuppressedDep>,
    pub phantom: Vec<PhantomDep>,
}

pub struct UnusedDep {
    pub name: String,
    pub kind: DepKind,
    pub manifest: String,
}

pub struct SuppressedDep {
    pub name: String,
    pub kind: DepKind,
    pub manifest: String,
    pub reason: String,
}

pub struct PhantomDep {
    pub name: String,
    pub version: String,
    pub example_file: String,
    pub example_line: usize,
}

pub struct UnusedDepView {
    pub name: Seq<char>,
    pub kind: DepKind,
    pub manifest: Seq<char>,
}

pub struct SuppressedDepView {
    pub name: Seq<char>,
    pub kind: DepKind,
    pub manifest: Seq<char>,
    pub reason: Seq<char>,
}

pub struct PhantomDepView {
    pub name: Seq<char>,
    pub version: Seq<char>,
    pub example_file: Seq<char>,
    pub example_line: usize,
}

pub struct FindingView {
    pub language: Seq<char>,
    pub unused: Seq<UnusedDepView>,
    pub suppressed: Seq<SuppressedDepView>,
    pub phantom: Seq<PhantomDepView>,
}

impl View for UnusedDep {
    type V = UnusedDepView;

    open spec fn view(&self) -> UnusedDepView {
        UnusedDepView { name: self.name@, kind: self.kind, manifest: self.manifest@ }
    }
}

impl View for SuppressedDep {
    type V = SuppressedDepView;

    open spec fn view(&self) -> SuppressedDepView {
        SuppressedDepView {
            name: self.name@,
            kind: self.kind,
            manifest: self.manifest@,
            reason: self.reason@,
        }
    }
}

impl View for PhantomDep {
    type V = PhantomDepView;

    open spec fn view(&self) -> PhantomDepView {
        PhantomDepView {
            name: self.name@,
            version: self.version@,
            example_file: self.example_file@,
            example_line: self.example_line,
        }
    }
}

impl View for Finding {
    type V = FindingView;

    open spec fn view(&self) -> FindingView {
        FindingView {
            language: self.language@,
            unused: views(self.unused@),
            suppressed: views(self.suppressed@),
            phantom: views(self.phantom@),
        }
    }
}

// ---------------------------------------------------------------------------
// Declared vs. installed vs. imported
// ---------------------------------------------------------------------------

/// Some source import resolves to package `name`.
pub open spec fn is_used(used: Seq<UsageView>, name: Seq<char>) -> bool {
    exists|j: int| 0 <= j < used.len() && used[j].package == name
}

/// Some manifest declares (normalized) `name`.
pub open spec fn is_declared(declared: Seq<DeclaredDepView>, name: Seq<char>) -> bool {
    exists|j: int| 0 <= j < declared.len() && declared[j].name == name
}

/// Declared deps that nothing imports and no hint explains, in declaration order.
pub open spec fn unused_of(ds: Seq<DeclaredDepView>, a: AnalysisView) -> Seq<UnusedDepView>
    decreases ds.len(),
{
    if ds.len() == 0 {
        seq![]
    } else {
        let rest = unused_of(ds.drop_last(), a);
        let d = ds.last();
        if !is_used(a.used, d.name) && lookup(a.usage_hints, d.name) is None {
            rest.push(UnusedDepView { name: d.raw_name, kind: d.kind, manifest: d.manifest })
        } else {
            rest
        }
    }
}

/// Declared deps that nothing imports but a hint explains, in declaration order.
pub open spec fn suppressed_of(ds: Seq<DeclaredDepView>, a: AnalysisView) -> Seq<SuppressedDepView>
    decreases ds.len(),
{
    if ds.len() == 0 {
        seq![]
    } else {
        let rest = suppressed_of(ds.drop_last(), a);
        let d = ds.last();
        if !is_used(a.used, d.name) && lookup(a.usage_hints, d.name) is Some {
            rest.push(
                SuppressedDepView {
                    name: d.raw_name,
                    kind: d.kind,
                    manifest: d.manifest,
                    reason: lookup(a.usage_hints, d.name)->0,
                },
            )
        } else {
            rest
        }
    }
}

/// Imported, installed, never declared: one entry per package, at its first
/// import.
pub open spec fn phantom_of(us: Seq<UsageView>, a: AnalysisView) -> Seq<PhantomDepView>
    decreases us.len(),
{
    if us.len() == 0 {
        seq![]
    } else {
        let rest = phantom_of(us.drop_last(), a);
        let u = us.last();
        if is_declared(a.declared, u.package) || is_used(us.drop_last(), u.package) {
            rest
        } else {
            match lookup(a.installed, u.package) {
                Some(pkg) => rest.push(
                    PhantomDepView {
                        name: pkg.name,
                        version: pkg.version,
                        example_file: u.import.file,
                        example_line: u.import.line,
                    },
                ),
                None => rest,
            }
        }
    }
}

pub open spec fn spec_analyze(a: AnalysisView) -> FindingView {
    FindingView {
        language: a.language,
        unused: unused_of(a.declared, a),
        suppressed: suppressed_of(a.declared, a),
        phantom: phantom_of(a.used, a),
    }
}

/// Whether one of the first `n` usages resolves to `name`.
pub fn used_before(used: &Vec<Usage>, n: usize, name: &str) -> (r: bool)
    requires
        n <= used@.len(),
    ensures
        r == is_used(views(used@).take(n as int), name@),
{
    let mut j: usize = 0;
    while j < n
        invariant
            n <= used@.len(),
            j <= n,
            forall|k: int| 0 <= k < j ==> used@[k].package@ != name@,
        decreases n - j,
    {
        if str_eq(used[j].package.as_str(), name) {
            assert(views(used@).take(n as int)[j as int].package == name@);
            return true;
        }
        j += 1;
    }
    proof {
        let t = views(used@).take(n as int);
        assert forall|k: int| 0 <= k < t.len() implies t[k].package != name@ by {
            assert(t[k] == used@[k]@);
        }
    }
    false
}

/// Whether some declared dep has (normalized) name `name`.
pub fn declares(declared: &Vec<DeclaredDep>, name: &str) -> (r: bool)
    ensures
        r == is_declared(views(declared@), name@),
{
    let mut j: usize = 0;
    while j < declared.len()
        invariant
            j <= declared@.len(),
            forall|k: int| 0 <= k < j ==> declared@[k].name@ != name@,
        decreases declared@.len() - j,
    {
        if str_eq(declared[j].name.as_str(), name) {
            assert(views(declared@)[j as int].name == name@);
            return true;
        }
        j += 1;
    }
    proof {
        let t = views(declared@);
        assert forall|k: int| 0 <= k < t.len() implies t[k].name != name@ by {
            assert(t[k] == declared@[k]@);
        }
    }
    false
}

/// Cross-reference declared vs. installed vs. imported.
pub fn analyze(a: &Analysis) -> (r: Finding)
    ensures
        r@ == spec_analyze(a@),
{
    let ghost av = a@;
    let nu = a.used.len();
    let mut unused: Vec<UnusedDep> = Vec::new();
    let mut suppressed: Vec<SuppressedDep> = Vec::new();
    let mut i: usize = 0;
    while i < a.declared.len()
        invariant
            av == a@,
            nu == a.used@.len(),
            i <= a.declared@.len(),
            views(unused@) == unused_of(av.declared.take(i as int), av),
            views(suppressed@) == suppressed_of(av.declared.take(i as int), av),
        decreases a.declared@.len() - i,
    {
        let d = &a.declared[i];
        proof {
            assert(av.declared.take(i + 1).drop_last() == av.declared.take(i as int));
            assert(av.declared.take(i + 1).last() == d@);
            assert(views(a.used@).take(nu as int) == av.used);
        }
        if !used_before(&a.used, nu, d.name.as_str()) {
            match a.usage_hints.get(d.name.as_str()) {
                Some(reason) => {
                    let ghost old_s = suppressed@;
                    suppressed.push(
                        SuppressedDep {
                            name: d.raw_name.clone(),
                            kind: d.kind,
                            manifest: d.manifest.clone(),
                            reason: reason.clone(),
                        },
                    );
                    assert(views(suppressed@) == views(old_s).push(suppressed@.last()@));
                },
                None => {
                    let ghost old_u = unused@;
                    unused.push(
                        UnusedDep {
                            name: d.raw_name.clone(),
                            kind: d.kind,
                            manifest: d.manifest.clone(),
                        },
                    );
                    assert(views(unused@) == views(old_u).push(unused@.last()@));
                },
            }
        }
        i += 1;
    }
    assert(av.declared.take(i as int) == av.declared);

    let mut phantom: Vec<PhantomDep> = Vec::new();
    let mut k: usize = 0;
    while k < nu
        invariant
            av == a@,
            nu == a.used@.len(),
            k <= nu,
            views(phantom@) == phantom_of(av.used.take(k as int), av),
        decreases nu - k,
    {
        let u = &a.used[k];
        proof {
            assert(av.used.take(k + 1).drop_last() == av.used.take(k as int));
            assert(av.used.take(k + 1).last() == u@);
            assert(views(a.used@).take(k as int) == av.used.take(k as int));
        }
        if !declares(&a.declared, u.package.as_str()) && !used_before(&a.used, k, u.package.as_str()) {
            match a.installed.get(u.package.as_str()) {
                Some(pkg) => {
                    let ghost old_p = phantom@;
                    phantom.push(
                        PhantomDep {
                            name: pkg.name.clone(),
                            version: pkg.version.clone(),
                            example_file: u.import.file.clone(),
                            example_line: u.import.line,
                        },
                    );
                    assert(views(phantom@) == views(old_p).push(phantom@.last()@));
                },
                None => {},
            }
        }
        k += 1;
    }
    assert(av.used.take(k as int) == av.used);
    Finding { language: a.language.clone(), unused, suppressed, phantom }
}


// ---------------------------------------------------------------------------
// Why is a package installed
// ---------------------------------------------------------------------------

/// `name`, once for every entry of `reqs` equal to `node`.
pub open spec fn name_per_req(reqs: Seq<Seq<char>>, node: Seq<char>, name: Seq<char>) -> Seq<
    Seq<char>,
>
    decreases reqs.len(),
{
    if reqs.len() == 0 {
        seq![]
    } else {
        name_per_req(reqs.drop_last(), node, name) + if reqs.last() == node {
            seq![name]
        } else {
            seq![]
        }
    }
}

/// Display names of the installed packages that require `node`, in table
/// order (once per requiring edge).
pub open spec fn parents_of(inst: Seq<(Seq<char>, ResolvedPkgView)>, node: Seq<char>) -> Seq<
    Seq<char>,
>
    decreases inst.len(),
{
    if inst.len() == 0 {
        seq![]
    } else {
        parents_of(inst.drop_last(), node) + name_per_req(
            inst.last().1.requires,
            node,
            inst.last().1.name,
        )
    }
}

/// Some element of `path` normalizes to `pn`.
pub open spec fn on_path(path: Seq<Seq<char>>, pn: Seq<char>) -> bool {
    exists|j: int| 0 <= j < path.len() && spec_normalize(path[j]) == pn
}

/// Deepest level at which the walk still looks further up.
pub open spec fn max_depth() -> int {
    50
}

/// The chains found from `node`, reached by `path` (target first) at
/// `depth`: `path` reversed when `node` is a root (declared, or required by
/// nobody), then, unless `node` is declared or the walk is too deep, the
/// chains through each parent in turn that is not already on the path.
pub open spec fn chains(a: AnalysisView, node: Seq<char>, path: Seq<Seq<char>>, depth: int) -> Seq<
    Seq<Seq<char>>,
>
    decreases 51 - depth, 1int, 0int,
{
    let ps = parents_of(a.installed, node);
    let decl = is_declared(a.declared, node);
    let here = if decl || ps.len() == 0 {
        seq![path.reverse()]
    } else {
        seq![]
    };
    if decl || depth > max_depth() {
        here
    } else {
        here + explore(a, ps, path, depth)
    }
}

/// The chains through the parents `ps` of the current node, in order.
pub open spec fn explore(a: AnalysisView, ps: Seq<Seq<char>>, path: Seq<Seq<char>>, depth: int) -> Seq<
    Seq<Seq<char>>,
>
    decreases 51 - depth, 0int, ps.len(),
{
    if depth > max_depth() || ps.len() == 0 {
        seq![]
    } else {
        let p = ps.last();
        let pn = spec_normalize(p);
        explore(a, ps.drop_last(), path, depth) + if on_path(path, pn) {
            seq![]
        } else {
            chains(a, pn, path.push(p), depth + 1)
        }
    }
}

/// What `why` answers for the (raw) target name.
pub open spec fn spec_why(a: AnalysisView, target_raw: Seq<char>) -> Seq<Seq<Seq<char>>> {
    let target = spec_normalize(target_raw);
    if key_index(a.installed, target) is None {
        seq![]
    } else {
        chains(a, target, seq![target], 0)
    }
}

/// The views of a list of chains.
pub open spec fn chain_views(v: Seq<Vec<String>>) -> Seq<Seq<Seq<char>>> {
    v.map_values(|c: Vec<String>| views(c@))
}

/// Display names of the installed packages that require `node`.
fn parents_exec(a: &Analysis, node: &str) -> (r: Vec<String>)
    ensures
        views(r@) == parents_of(a@.installed, node@),
{
    let ghost inst = a@.installed;
    let mut r: Vec<String> = Vec::new();
    let n = a.installed.len();
    let mut i: usize = 0;
    while i < n
        invariant
            inst == a@.installed,
            n == inst.len(),
            i <= n,
            views(r@) == parents_of(inst.take(i as int), node@),
        decreases n - i,
    {
        let (_, pkg) = a.installed.entry(i);
        let ghost reqs = pkg@.requires;
        let ghost base = views(r@);
        proof {
            assert(inst[i as int].1 == pkg@);
            assert(inst.take(i + 1).drop_last() == inst.take(i as int));
        }
        let mut j: usize = 0;
        while j < pkg.requires.len()
            invariant
                reqs == pkg@.requires,
                j <= reqs.len(),
                views(r@) == base + name_per_req(reqs.take(j as int), node@, pkg@.name),
            decreases reqs.len() - j,
        {
            let ghost before = r@;
            assert(reqs.take(j + 1).drop_last() == reqs.take(j as int));
            assert(reqs[j as int] == pkg.requires@[j as int]@);
            if str_eq(pkg.requires[j].as_str(), node) {
                r.push(pkg.name.clone());
                assert(views(r@) == views(before).push(pkg@.name));
            }
            j += 1;
        }
        assert(reqs.take(reqs.len() as int) == reqs);
        i += 1;
    }
    assert(inst.take(n as int) == inst);
    r
}

/// Whether some element of `path` normalizes to `pn`.
fn on_path_exec(path: &Vec<String>, pn: &str) -> (r: bool)
    ensures
        r == on_path(views(path@), pn@),
{
    let mut j: usize = 0;
    while j < path.len()
        invariant
            j <= path@.len(),
            forall|k: int| 0 <= k < j ==> spec_normalize(path@[k]@) != pn@,
        decreases path@.len() - j,
    {
        let x = normalize(path[j].as_str());
        if str_eq(x.as_str(), pn) {
            assert(views(path@)[j as int] == path@[j as int]@);
            return true;
        }
        j += 1;
    }
    proof {
        let t = views(path@);
        assert forall|k: int| 0 <= k < t.len() implies spec_normalize(t[k]) != pn@ by {
            assert(t[k] == path@[k]@);
        }
    }
    false
}

/// A copy of `path` in reverse order.
fn reversed(path: &Vec<String>) -> (r: Vec<String>)
    ensures
        views(r@) == views(path@).reverse(),
{
    let mut r: Vec<String> = Vec::new();
    let mut j: usize = path.len();
    while j > 0
        invariant
            j <= path@.len(),
            r@.len() == path@.len() - j,
            forall|k: int| 0 <= k < r@.len() ==> r@[k]@ == path@[path@.len() - 1 - k]@,
        decreases j,
    {
        j -= 1;
        r.push(path[j].clone());
    }
    assert(views(r@) =~= views(path@).reverse());
    r
}

fn dfs(
    a: &Analysis,
    node: &str,
    path: &mut Vec<String>,
    out: &mut Vec<Vec<String>>,
    depth: usize,
)
    ensures
        final(path)@ == old(path)@,
        chain_views(final(out)@) == chain_views(old(out)@) + chains(
            a@,
            node@,
            views(old(path)@),
            depth as int,
        ),
    decreases 51 - depth,
{
    let ghost av = a@;
    let ghost p0 = views(path@);
    let ghost praw = path@;
    let ghost out0 = chain_views(out@);
    let ps = parents_exec(a, node);
    let decl = declares(&a.declared, node);
    let is_root = decl || ps.len() == 0;
    if is_root {
        let c = reversed(path);
        out.push(c);
        assert(chain_views(out@) == out0 + seq![p0.reverse()]);
        if decl {
            return;
        }
    }
    let ghost here = if is_root {
        seq![p0.reverse()]
    } else {
        Seq::<Seq<Seq<char>>>::empty()
    };
    assert(chain_views(out@) == out0 + here);
    if depth > 50 {
        return;
    }
    let ghost psv = views(ps@);
    let mut k: usize = 0;
    while k < ps.len()
        invariant
            av == a@,
            depth <= 50,
            psv == views(ps@),
            psv == parents_of(av.installed, node@),
            views(path@) == p0,
            path@ == praw,
            praw == old(path)@,
            k <= ps@.len(),
            chain_views(out@) == out0 + here + explore(av, psv.take(k as int), p0, depth as int),
        decreases ps@.len() - k,
    {
        let ghost before = chain_views(out@);
        proof {
            assert(psv.take(k + 1).drop_last() == psv.take(k as int));
            assert(psv.take(k + 1).last() == ps@[k as int]@);
        }
        let p = &ps[k];
        let pn = normalize(p.as_str());
        if !on_path_exec(path, pn.as_str()) {
            path.push(p.clone());
            assert(views(path@) == p0.push(p@));
            dfs(a, pn.as_str(), path, out, depth + 1);
            path.pop();
            assert(path@ =~= praw);
        }
        k += 1;
    }
    assert(psv.take(k as int) == psv);
}

/// "Why is this here": reverse-walk the resolved tree from `target` up to the
/// direct/declared dependency (or roots) that pulled it in.
pub fn why(a: &Analysis, target_raw: &str) -> (r: Vec<Vec<String>>)
    ensures
        chain_views(r@) == spec_why(a@, target_raw@),
{
    let target = normalize(target_raw);
    if !a.installed.contains_key(target.as_str()) {
        let r: Vec<Vec<String>> = Vec::new();
        assert(chain_views(r@) =~= Seq::<Seq<Seq<char>>>::empty());
        return r;
    }
    let mut chains_out: Vec<Vec<String>> = Vec::new();
    let mut path: Vec<String> = Vec::new();
    path.push(target.clone());
    assert(views(path@) =~= seq![target@]);
    assert(chain_views(chains_out@) =~= Seq::<Seq<Seq<char>>>::empty());
    dfs(a, target.as_str(), &mut path, &mut chains_out, 0);
    assert(chain_views(chains_out@) =~= chains(a@, target@, seq![target@], 0));
    chains_out
}


// ---------------------------------------------------------------------------
// What every answer of `why` is
// ---------------------------------------------------------------------------

/// The name chain element `j` is looked up by: the (already normalized)
/// target itself for the last element, the normalized display name otherwise.
pub open spec fn chain_node(c: Seq<Seq<char>>, j: int) -> Seq<char> {
    if j == c.len() - 1 {
        c[j]
    } else {
        spec_normalize(c[j])
    }
}

/// `c` is a dependency chain ending at `target`: it starts at a root (a
/// declared dep, or a package nothing requires), each element is required
/// by the one before it, only the first element may be declared, no name
/// occurs twice (after normalization), and it is at most 52 long.
pub open spec fn is_why_chain(a: AnalysisView, target: Seq<char>, c: Seq<Seq<char>>) -> bool {
    &&& 1 <= c.len() <= max_depth() + 2
    &&& c.last() == target
    &&& is_declared(a.declared, chain_node(c, 0)) || parents_of(a.installed, chain_node(c, 0)).len()
        == 0
    &&& forall|k: int|
        0 <= k < c.len() - 1 ==> parents_of(a.installed, chain_node(c, k + 1)).contains(
            #[trigger] c[k],
        )
    &&& forall|k: int| 0 < k < c.len() ==> !is_declared(a.declared, #[trigger] chain_node(c, k))
    &&& forall|j: int, k: int|
        0 <= j < k < c.len() ==> spec_normalize(#[trigger] c[j]) != spec_normalize(#[trigger] c[k])
}

/// The name path element `i` (target first) is looked up by.
pub open spec fn path_node(p: Seq<Seq<char>>, i: int) -> Seq<char> {
    if i == 0 {
        p[0]
    } else {
        spec_normalize(p[i])
    }
}

/// The walk has reached `node` along `p` (target first) at `depth`.
pub open spec fn walk_ok(
    a: AnalysisView,
    t: Seq<char>,
    p: Seq<Seq<char>>,
    node: Seq<char>,
    depth: int,
) -> bool {
    &&& 0 <= depth <= max_depth() + 1
    &&& p.len() == depth + 1
    &&& p[0] == t
    &&& node == path_node(p, p.len() - 1)
    &&& forall|i: int|
        1 <= i < p.len() ==> parents_of(a.installed, path_node(p, i - 1)).contains(#[trigger] p[i])
    &&& forall|i: int| 0 <= i < p.len() - 1 ==> !is_declared(a.declared, #[trigger] path_node(p, i))
    &&& forall|i: int, j: int|
        0 <= i < j < p.len() ==> spec_normalize(#[trigger] p[i]) != spec_normalize(#[trigger] p[j])
}

proof fn lemma_root_chain(a: AnalysisView, t: Seq<char>, p: Seq<Seq<char>>, node: Seq<char>, depth: int)
    requires
        walk_ok(a, t, p, node, depth),
        is_declared(a.declared, node) || parents_of(a.installed, node).len() == 0,
    ensures
        is_why_chain(a, t, p.reverse()),
{
    let c = p.reverse();
    let l = p.len();
    assert forall|j: int| 0 <= j < l implies #[trigger] chain_node(c, j) == path_node(p, l - 1 - j) by {}
    assert(chain_node(c, 0) == node);
    assert forall|k: int| 0 <= k < c.len() - 1 implies parents_of(
        a.installed,
        chain_node(c, k + 1),
    ).contains(#[trigger] c[k]) by {
        let i = l - 1 - k;
        assert(c[k] == p[i]);
        assert(chain_node(c, k + 1) == path_node(p, i - 1));
    }
    assert forall|k: int| 0 < k < c.len() implies !is_declared(
        a.declared,
        #[trigger] chain_node(c, k),
    ) by {
        assert(chain_node(c, k) == path_node(p, l - 1 - k));
    }
    assert forall|j: int, k: int| 0 <= j < k < c.len() implies spec_normalize(#[trigger] c[j])
        != spec_normalize(#[trigger] c[k]) by {
        assert(c[j] == p[l - 1 - j]);
        assert(c[k] == p[l - 1 - k]);
    }
}

proof fn lemma_concat_contains<A>(x: Seq<A>, y: Seq<A>, e: A)
    requires
        (x + y).contains(e),
    ensures
        x.contains(e) || y.contains(e),
{
    let i = choose|i: int| 0 <= i < (x + y).len() && (x + y)[i] == e;
    if i < x.len() {
        assert(x[i] == e);
    } else {
        assert(y[i - x.len()] == e);
    }
}

proof fn lemma_chains_ok(a: AnalysisView, t: Seq<char>, node: Seq<char>, p: Seq<Seq<char>>, depth: int)
    requires
        walk_ok(a, t, p, node, depth),
    ensures
        forall|c: Seq<Seq<char>>|
            #[trigger] chains(a, node, p, depth).contains(c) ==> is_why_chain(a, t, c),
    decreases 51 - depth, 1int, 0int,
{
    let ps = parents_of(a.installed, node);
    let decl = is_declared(a.declared, node);
    let here = if decl || ps.len() == 0 {
        seq![p.reverse()]
    } else {
        seq![]
    };
    if decl || ps.len() == 0 {
        lemma_root_chain(a, t, p, node, depth);
    }
    assert forall|c: Seq<Seq<char>>| here.contains(c) implies is_why_chain(a, t, c) by {
        assert(c == p.reverse());
    }
    if !(decl || depth > max_depth()) {
        lemma_explore_ok(a, t, node, ps, p, depth);
        assert forall|c: Seq<Seq<char>>| #[trigger]
            chains(a, node, p, depth).contains(c) implies is_why_chain(a, t, c) by {
            lemma_concat_contains(here, explore(a, ps, p, depth), c);
        }
    }
}

proof fn lemma_explore_ok(
    a: AnalysisView,
    t: Seq<char>,
    node: Seq<char>,
    ps: Seq<Seq<char>>,
    p: Seq<Seq<char>>,
    depth: int,
)
    requires
        walk_ok(a, t, p, node, depth),
        !is_declared(a.declared, node),
        forall|i: int| 0 <= i < ps.len() ==> parents_of(a.installed, node).contains(#[trigger] ps[i]),
    ensures
        forall|c: Seq<Seq<char>>|
            #[trigger] explore(a, ps, p, depth).contains(c) ==> is_why_chain(a, t, c),
    decreases 51 - depth, 0int, ps.len(),
{
    if depth > max_depth() || ps.len() == 0 {
        return;
    }
    let x = ps.last();
    let pn = spec_normalize(x);
    let rest = ps.drop_last();
    assert forall|i: int| 0 <= i < rest.len() implies parents_of(a.installed, node).contains(
        #[trigger] rest[i],
    ) by {
        assert(rest[i] == ps[i]);
    }
    lemma_explore_ok(a, t, node, rest, p, depth);
    let tail = if on_path(p, pn) {
        Seq::<Seq<Seq<char>>>::empty()
    } else {
        chains(a, pn, p.push(x), depth + 1)
    };
    if !on_path(p, pn) {
        let q = p.push(x);
        let l = p.len();
        assert(ps[ps.len() - 1] == x);
        assert forall|i: int| 1 <= i < q.len() implies parents_of(
            a.installed,
            path_node(q, i - 1),
        ).contains(#[trigger] q[i]) by {
            if i < l {
                assert(q[i] == p[i]);
                assert(path_node(q, i - 1) == path_node(p, i - 1));
            } else {
                assert(path_node(q, i - 1) == path_node(p, l - 1));
            }
        }
        assert forall|i: int| 0 <= i < q.len() - 1 implies !is_declared(
            a.declared,
            #[trigger] path_node(q, i),
        ) by {
            assert(path_node(q, i) == path_node(p, i));
        }
        assert forall|i: int, j: int| 0 <= i < j < q.len() implies spec_normalize(#[trigger] q[i])
            != spec_normalize(#[trigger] q[j]) by {
            if j == l {
                assert(q[i] == p[i]);
            } else {
                assert(q[i] == p[i]);
                assert(q[j] == p[j]);
            }
        }
        assert(walk_ok(a, t, q, pn, depth + 1));
        lemma_chains_ok(a, t, pn, q, depth + 1);
    }
    assert forall|c: Seq<Seq<char>>| #[trigger]
        explore(a, ps, p, depth).contains(c) implies is_why_chain(a, t, c) by {
        lemma_concat_contains(explore(a, rest, p, depth), tail, c);
    }
}

/// The walk at `node`, reached along `p`, finds every chain `c` that ends
/// with `p` (read backwards).
proof fn lemma_chains_complete(
    a: AnalysisView,
    t: Seq<char>,
    node: Seq<char>,
    p: Seq<Seq<char>>,
    depth: int,
    c: Seq<Seq<char>>,
)
    requires
        walk_ok(a, t, p, node, depth),
        is_why_chain(a, t, c),
        c.len() >= p.len(),
        forall|i: int| 0 <= i < p.len() ==> #[trigger] p[i] == c[c.len() - 1 - i],
    ensures
        chains(a, node, p, depth).contains(c),
    decreases 51 - depth, 1int, 0int,
{
    let l = p.len();
    let len = c.len();
    let ps = parents_of(a.installed, node);
    let decl = is_declared(a.declared, node);
    let here = if decl || ps.len() == 0 {
        seq![p.reverse()]
    } else {
        seq![]
    };
    if len == l {
        assert(c =~= p.reverse()) by {
            assert forall|j: int| 0 <= j < len implies c[j] == p.reverse()[j] by {
                assert(p[l - 1 - j] == c[len - 1 - (l - 1 - j)]);
            }
        }
        assert(chain_node(c, 0) == node) by {
            if l - 1 > 0 {
                assert(p[l - 1] == c[0]);
            } else {
                assert(p[0] == c[len - 1]);
            }
        }
        assert(here.contains(c)) by {
            assert(here[0] == c);
        }
        if !(decl || depth > max_depth()) {
            lemma_contains_left(here, explore(a, ps, p, depth), c);
        }
    } else {
        let k = len - l;
        assert(chain_node(c, k) == node) by {
            if l - 1 > 0 {
                assert(p[l - 1] == c[len - 1 - (l - 1)]);
            } else {
                assert(p[0] == c[len - 1]);
            }
        }
        assert(!is_declared(a.declared, chain_node(c, k)));
        let x = c[k - 1];
        assert(ps.contains(x));
        lemma_explore_complete(a, t, node, ps, p, depth, c);
        lemma_contains_right(here, explore(a, ps, p, depth), c);
    }
}

proof fn lemma_explore_complete(
    a: AnalysisView,
    t: Seq<char>,
    node: Seq<char>,
    ps: Seq<Seq<char>>,
    p: Seq<Seq<char>>,
    depth: int,
    c: Seq<Seq<char>>,
)
    requires
        walk_ok(a, t, p, node, depth),
        !is_declared(a.declared, node),
        is_why_chain(a, t, c),
        c.len() > p.len(),
        node == chain_node(c, c.len() - p.len()),
        forall|i: int| 0 <= i < p.len() ==> #[trigger] p[i] == c[c.len() - 1 - i],
        ps.contains(c[c.len() - p.len() - 1]),
        parents_of(a.installed, node).contains(c[c.len() - p.len() - 1]),
    ensures
        explore(a, ps, p, depth).contains(c),
    decreases 51 - depth, 0int, ps.len(),
{
    let l = p.len();
    let len = c.len();
    let x = c[len - l - 1];
    assert(depth <= max_depth());
    let rest = ps.drop_last();
    if ps.last() == x {
        let pn = spec_normalize(x);
        assert(!on_path(p, pn)) by {
            if on_path(p, pn) {
                let j = choose|j: int| 0 <= j < p.len() && spec_normalize(p[j]) == pn;
                assert(p[j] == c[len - 1 - j]);
                assert(spec_normalize(c[len - l - 1]) != spec_normalize(c[len - 1 - j]));
            }
        }
        let q = p.push(x);
        assert forall|i: int| 1 <= i < q.len() implies parents_of(
            a.installed,
            path_node(q, i - 1),
        ).contains(#[trigger] q[i]) by {
            if i < l {
                assert(q[i] == p[i]);
                assert(path_node(q, i - 1) == path_node(p, i - 1));
            } else {
                assert(path_node(q, i - 1) == path_node(p, l - 1));
            }
        }
        assert forall|i: int| 0 <= i < q.len() - 1 implies !is_declared(
            a.declared,
            #[trigger] path_node(q, i),
        ) by {
            assert(path_node(q, i) == path_node(p, i));
        }
        assert forall|i: int, j: int| 0 <= i < j < q.len() implies spec_normalize(#[trigger] q[i])
            != spec_normalize(#[trigger] q[j]) by {
            assert(q[i] == c[len - 1 - i]);
            assert(q[j] == c[len - 1 - j]);
        }
        assert(walk_ok(a, t, q, pn, depth + 1));
        assert forall|i: int| 0 <= i < q.len() implies #[trigger] q[i] == c[c.len() - 1 - i] by {
            if i < l {
                assert(q[i] == p[i]);
            }
        }
        lemma_chains_complete(a, t, pn, q, depth + 1, c);
        lemma_contains_right(explore(a, rest, p, depth), chains(a, pn, q, depth + 1), c);
    } else {
        assert(rest.contains(x)) by {
            let i = choose|i: int| 0 <= i < ps.len() && ps[i] == x;
            assert(i < ps.len() - 1);
            assert(rest[i] == x);
        }
        lemma_explore_complete(a, t, node, rest, p, depth, c);
        let pn = spec_normalize(ps.last());
        let tail = if on_path(p, pn) {
            Seq::<Seq<Seq<char>>>::empty()
        } else {
            chains(a, pn, p.push(ps.last()), depth + 1)
        };
        lemma_contains_left(explore(a, rest, p, depth), tail, c);
    }
}

/// Every dependency chain from a root down to an installed target is
/// found: `why` lists each chain that `is_why_chain` describes (a root,
/// then packages each required by the one before, none declared but the
/// first, none twice, at most 52 long). With `law_why_chains_are_dependency_paths`
/// this says `why` answers exactly these chains.
pub proof fn law_why_complete(a: AnalysisView, target_raw: Seq<char>, c: Seq<Seq<char>>)
    requires
        key_index(a.installed, spec_normalize(target_raw)) is Some,
        is_why_chain(a, spec_normalize(target_raw), c),
    ensures
        spec_why(a, target_raw).contains(c),
{
    let t = spec_normalize(target_raw);
    assert(walk_ok(a, t, seq![t], t, 0));
    lemma_chains_complete(a, t, t, seq![t], 0, c);
}

/// In particular, each declared package that requires an installed,
/// undeclared target gives the chain from it straight to the target.
pub proof fn law_why_declared_parent(a: AnalysisView, target_raw: Seq<char>, parent: Seq<char>)
    requires
        key_index(a.installed, spec_normalize(target_raw)) is Some,
        !is_declared(a.declared, spec_normalize(target_raw)),
        parents_of(a.installed, spec_normalize(target_raw)).contains(parent),
        is_declared(a.declared, spec_normalize(parent)),
        spec_normalize(parent) != spec_normalize(spec_normalize(target_raw)),
    ensures
        spec_why(a, target_raw).contains(seq![parent, spec_normalize(target_raw)]),
{
    let t = spec_normalize(target_raw);
    let c = seq![parent, t];
    assert(chain_node(c, 0) == spec_normalize(parent));
    assert(chain_node(c, 1) == t);
    assert(is_why_chain(a, t, c));
    law_why_complete(a, target_raw, c);
}

/// Every chain `why` answers is a dependency chain from a root down to the
/// (normalized) target: each element is required by the one before it, the
/// walk stops at the first declared dependency, no package occurs twice, and
/// no chain is longer than 52.
pub proof fn law_why_chains_are_dependency_paths(a: AnalysisView, target_raw: Seq<char>)
    ensures
        forall|c: Seq<Seq<char>>| #[trigger]
            spec_why(a, target_raw).contains(c) ==> is_why_chain(
                a,
                spec_normalize(target_raw),
                c,
            ),
{
    let t = spec_normalize(target_raw);
    if key_index(a.installed, t) is Some {
        assert(walk_ok(a, t, seq![t], t, 0));
        lemma_chains_ok(a, t, t, seq![t], 0);
    }
}

/// A target that is not installed has no chain.
pub proof fn law_why_uninstalled_is_empty(a: AnalysisView, target_raw: Seq<char>)
    requires
        key_index(a.installed, spec_normalize(target_raw)) is None,
    ensures
        spec_why(a, target_raw).len() == 0,
{
}


// ---------------------------------------------------------------------------
// What `analyze` reports
// ---------------------------------------------------------------------------

/// Every unused entry is a declared dep that no import resolves to and no
/// hint explains.
pub proof fn law_unused_are_unimported(ds: Seq<DeclaredDepView>, a: AnalysisView)
    ensures
        forall|k: int|
            0 <= k < unused_of(ds, a).len() ==> exists|j: int|
                0 <= j < ds.len() && ds[j].raw_name == (#[trigger] unused_of(ds, a)[k]).name
                    && ds[j].kind == unused_of(ds, a)[k].kind && ds[j].manifest == unused_of(
                    ds,
                    a,
                )[k].manifest && !is_used(a.used, ds[j].name) && lookup(
                    a.usage_hints,
                    ds[j].name,
                ) is None,
    decreases ds.len(),
{
    if ds.len() > 0 {
        let d = ds.drop_last();
        law_unused_are_unimported(d, a);
        let r = unused_of(ds, a);
        assert forall|k: int| 0 <= k < r.len() implies exists|j: int|
            0 <= j < ds.len() && ds[j].raw_name == (#[trigger] r[k]).name && ds[j].kind == r[k].kind
                && ds[j].manifest == r[k].manifest && !is_used(a.used, ds[j].name) && lookup(
                a.usage_hints,
                ds[j].name,
            ) is None by {
            if k < unused_of(d, a).len() {
                assert(r[k] == unused_of(d, a)[k]);
                let j = choose|j: int|
                    0 <= j < d.len() && d[j].raw_name == unused_of(d, a)[k].name && d[j].kind
                        == unused_of(d, a)[k].kind && d[j].manifest == unused_of(d, a)[k].manifest
                        && !is_used(a.used, d[j].name) && lookup(a.usage_hints, d[j].name) is None;
                assert(ds[j] == d[j]);
            } else {
                assert(ds[ds.len() - 1] == ds.last());
            }
        }
    }
}

/// Every suppressed entry is a declared dep that no import resolves to,
/// reported with the hint that explains it.
pub proof fn law_suppressed_carry_hint(ds: Seq<DeclaredDepView>, a: AnalysisView)
    ensures
        forall|k: int|
            0 <= k < suppressed_of(ds, a).len() ==> exists|j: int|
                0 <= j < ds.len() && ds[j].raw_name == (#[trigger] suppressed_of(ds, a)[k]).name
                    && !is_used(a.used, ds[j].name) && lookup(a.usage_hints, ds[j].name) == Some(
                    suppressed_of(ds, a)[k].reason,
                ),
    decreases ds.len(),
{
    if ds.len() > 0 {
        let d = ds.drop_last();
        law_suppressed_carry_hint(d, a);
        let r = suppressed_of(ds, a);
        assert forall|k: int| 0 <= k < r.len() implies exists|j: int|
            0 <= j < ds.len() && ds[j].raw_name == (#[trigger] r[k]).name && !is_used(
                a.used,
                ds[j].name,
            ) && lookup(a.usage_hints, ds[j].name) == Some(r[k].reason) by {
            if k < suppressed_of(d, a).len() {
                assert(r[k] == suppressed_of(d, a)[k]);
                let j = choose|j: int|
                    0 <= j < d.len() && d[j].raw_name == suppressed_of(d, a)[k].name && !is_used(
                        a.used,
                        d[j].name,
                    ) && lookup(a.usage_hints, d[j].name) == Some(suppressed_of(d, a)[k].reason);
                assert(ds[j] == d[j]);
            } else {
                assert(ds[ds.len() - 1] == ds.last());
            }
        }
    }
}

/// Every declared dep that no import resolves to and no hint explains is
/// reported as unused, under its raw name, kind and manifest.
pub proof fn law_unused_complete(ds: Seq<DeclaredDepView>, a: AnalysisView, j: int)
    requires
        0 <= j < ds.len(),
        !is_used(a.used, ds[j].name),
        lookup(a.usage_hints, ds[j].name) is None,
    ensures
        unused_of(ds, a).contains(
            UnusedDepView { name: ds[j].raw_name, kind: ds[j].kind, manifest: ds[j].manifest },
        ),
    decreases ds.len(),
{
    let e = UnusedDepView { name: ds[j].raw_name, kind: ds[j].kind, manifest: ds[j].manifest };
    let rest = unused_of(ds.drop_last(), a);
    if j == ds.len() - 1 {
        assert(unused_of(ds, a) == rest.push(e));
        assert(rest.push(e)[rest.len() as int] == e);
    } else {
        assert(ds.drop_last()[j] == ds[j]);
        law_unused_complete(ds.drop_last(), a, j);
        let x = choose|x: int| 0 <= x < rest.len() && rest[x] == e;
        assert(unused_of(ds, a)[x] == e);
    }
}

/// Every declared dep that no import resolves to but a hint explains is
/// reported as suppressed, with that hint as its reason.
pub proof fn law_suppressed_complete(ds: Seq<DeclaredDepView>, a: AnalysisView, j: int)
    requires
        0 <= j < ds.len(),
        !is_used(a.used, ds[j].name),
        lookup(a.usage_hints, ds[j].name) is Some,
    ensures
        suppressed_of(ds, a).contains(
            SuppressedDepView {
                name: ds[j].raw_name,
                kind: ds[j].kind,
                manifest: ds[j].manifest,
                reason: lookup(a.usage_hints, ds[j].name)->0,
            },
        ),
    decreases ds.len(),
{
    let e = SuppressedDepView {
        name: ds[j].raw_name,
        kind: ds[j].kind,
        manifest: ds[j].manifest,
        reason: lookup(a.usage_hints, ds[j].name)->0,
    };
    let rest = suppressed_of(ds.drop_last(), a);
    if j == ds.len() - 1 {
        assert(suppressed_of(ds, a) == rest.push(e));
        assert(rest.push(e)[rest.len() as int] == e);
    } else {
        assert(ds.drop_last()[j] == ds[j]);
        law_suppressed_complete(ds.drop_last(), a, j);
        let x = choose|x: int| 0 <= x < rest.len() && rest[x] == e;
        assert(suppressed_of(ds, a)[x] == e);
    }
}

/// Each declared dep that nothing imports is reported exactly once: as
/// unused, or (when a hint explains it) as suppressed.
pub proof fn law_unimported_reported_once(ds: Seq<DeclaredDepView>, a: AnalysisView)
    ensures
        unused_of(ds, a).len() + suppressed_of(ds, a).len() == ds.filter(
            |d: DeclaredDepView| !is_used(a.used, d.name),
        ).len(),
    decreases ds.len(),
{
    reveal_with_fuel(Seq::filter, 1);
    if ds.len() > 0 {
        law_unimported_reported_once(ds.drop_last(), a);
    }
}

/// Every phantom entry comes from the first import of a package that is
/// installed but not declared, with that package's installed name and
/// version.
pub proof fn law_phantom_sound(us: Seq<UsageView>, a: AnalysisView)
    ensures
        forall|k: int|
            0 <= k < phantom_of(us, a).len() ==> exists|j: int|
                0 <= j < us.len() && !is_declared(a.declared, us[j].package) && !is_used(
                    us.take(j),
                    us[j].package,
                ) && lookup(a.installed, us[j].package) is Some && (#[trigger] phantom_of(
                    us,
                    a,
                )[k]).name == lookup(a.installed, us[j].package)->0.name && phantom_of(us, a)[k].version
                    == lookup(a.installed, us[j].package)->0.version && phantom_of(
                    us,
                    a,
                )[k].example_file == us[j].import.file && phantom_of(us, a)[k].example_line
                    == us[j].import.line,
    decreases us.len(),
{
    if us.len() > 0 {
        let d = us.drop_last();
        law_phantom_sound(d, a);
        let r = phantom_of(us, a);
        assert forall|k: int| 0 <= k < r.len() implies exists|j: int|
            0 <= j < us.len() && !is_declared(a.declared, us[j].package) && !is_used(
                us.take(j),
                us[j].package,
            ) && lookup(a.installed, us[j].package) is Some && (#[trigger] r[k]).name == lookup(
                a.installed,
                us[j].package,
            )->0.name && r[k].version == lookup(a.installed, us[j].package)->0.version
                && r[k].example_file == us[j].import.file && r[k].example_line
                == us[j].import.line by {
            if k < phantom_of(d, a).len() {
                assert(r[k] == phantom_of(d, a)[k]);
                let j = choose|j: int|
                    0 <= j < d.len() && !is_declared(a.declared, d[j].package) && !is_used(
                        d.take(j),
                        d[j].package,
                    ) && lookup(a.installed, d[j].package) is Some && phantom_of(d, a)[k].name
                        == lookup(a.installed, d[j].package)->0.name && phantom_of(d, a)[k].version
                        == lookup(a.installed, d[j].package)->0.version && phantom_of(
                        d,
                        a,
                    )[k].example_file == d[j].import.file && phantom_of(d, a)[k].example_line
                        == d[j].import.line;
                assert(us[j] == d[j]);
                assert(us.take(j) == d.take(j));
            } else {
                let j = us.len() - 1;
                assert(us.take(j) == d);
            }
        }
    }
}

/// `js` gives, for each phantom entry in turn, the position of the import it
/// reports: positions increase, each is the first import of an installed,
/// undeclared package, and the entry carries that package's installed name
/// and version and the import's file and line.
pub open spec fn phantom_sources(us: Seq<UsageView>, a: AnalysisView, js: Seq<int>) -> bool {
    &&& js.len() == phantom_of(us, a).len()
    &&& forall|k1: int, k2: int| 0 <= k1 < k2 < js.len() ==> #[trigger] js[k1] < #[trigger] js[k2]
    &&& forall|k: int|
        0 <= k < js.len() ==> {
            let j = #[trigger] js[k];
            let u = us[j];
            &&& 0 <= j < us.len()
            &&& !is_declared(a.declared, u.package)
            &&& !is_used(us.take(j), u.package)
            &&& lookup(a.installed, u.package) is Some
            &&& phantom_of(us, a)[k] == PhantomDepView {
                name: lookup(a.installed, u.package)->0.name,
                version: lookup(a.installed, u.package)->0.version,
                example_file: u.import.file,
                example_line: u.import.line,
            }
        }
}

/// Phantom entries are one per package, in the order of first imports:
/// each entry comes from the first import of an installed, undeclared
/// package, these imports come in increasing order, and no two entries
/// come from the same package.
pub proof fn law_phantom_once_per_package(us: Seq<UsageView>, a: AnalysisView)
    ensures
        exists|js: Seq<int>|
            #[trigger] phantom_sources(us, a, js) && forall|k1: int, k2: int|
                0 <= k1 < k2 < js.len() ==> us[js[k1]].package != us[js[k2]].package,
{
    let js = lemma_phantom_sources(us, a);
    assert forall|k1: int, k2: int| 0 <= k1 < k2 < js.len() implies us[js[k1]].package
        != us[js[k2]].package by {
        let j1 = js[k1];
        let j2 = js[k2];
        assert(j1 < j2);
        assert(!is_used(us.take(j2), us[j2].package));
        assert(us.take(j2)[j1] == us[j1]);
    }
}

proof fn lemma_phantom_sources(us: Seq<UsageView>, a: AnalysisView) -> (js: Seq<int>)
    ensures
        phantom_sources(us, a, js),
    decreases us.len(),
{
    if us.len() == 0 {
        Seq::<int>::empty()
    } else {
        let d = us.drop_last();
        let js0 = lemma_phantom_sources(d, a);
        let n = us.len() - 1;
        let u = us.last();
        let rest = phantom_of(d, a);
        assert(us.take(n) == d);
        assert forall|k: int| 0 <= k < js0.len() implies {
            let j = #[trigger] js0[k];
            &&& 0 <= j < n
            &&& us[j] == d[j]
            &&& us.take(j) == d.take(j)
        } by {
            let j = js0[k];
            assert(us.take(j) =~= d.take(j));
        }
        if !(is_declared(a.declared, u.package) || is_used(d, u.package)) && lookup(
            a.installed,
            u.package,
        ) is Some {
            let js = js0.push(n);
            assert(phantom_of(us, a) == rest.push(
                PhantomDepView {
                    name: lookup(a.installed, u.package)->0.name,
                    version: lookup(a.installed, u.package)->0.version,
                    example_file: u.import.file,
                    example_line: u.import.line,
                },
            ));
            assert forall|k: int| 0 <= k < js.len() implies {
                let j = #[trigger] js[k];
                let v = us[j];
                &&& 0 <= j < us.len()
                &&& !is_declared(a.declared, v.package)
                &&& !is_used(us.take(j), v.package)
                &&& lookup(a.installed, v.package) is Some
                &&& phantom_of(us, a)[k] == PhantomDepView {
                    name: lookup(a.installed, v.package)->0.name,
                    version: lookup(a.installed, v.package)->0.version,
                    example_file: v.import.file,
                    example_line: v.import.line,
                }
            } by {
                if k < js0.len() {
                    assert(js[k] == js0[k]);
                    assert(phantom_of(us, a)[k] == rest[k]);
                } else {
                    assert(js[k] == n);
                }
            }
            assert forall|k1: int, k2: int| 0 <= k1 < k2 < js.len() implies #[trigger] js[k1]
                < #[trigger] js[k2] by {
                if k2 < js0.len() {
                    assert(js[k1] == js0[k1] && js[k2] == js0[k2]);
                } else {
                    assert(js[k1] == js0[k1]);
                }
            }
            js
        } else {
            assert(phantom_of(us, a) == rest);
            js0
        }
    }
}

/// Every package that is imported and installed but not declared has a
/// phantom entry, taken from its first import.
pub proof fn law_phantom_complete(us: Seq<UsageView>, a: AnalysisView, j: int)
    requires
        0 <= j < us.len(),
        !is_declared(a.declared, us[j].package),
        !is_used(us.take(j), us[j].package),
        lookup(a.installed, us[j].package) is Some,
    ensures
        exists|k: int|
            0 <= k < phantom_of(us, a).len() && (#[trigger] phantom_of(us, a)[k]).example_file
                == us[j].import.file && phantom_of(us, a)[k].example_line == us[j].import.line
                && phantom_of(us, a)[k].name == lookup(a.installed, us[j].package)->0.name,
    decreases us.len(),
{
    let d = us.drop_last();
    if j < us.len() - 1 {
        assert(d[j] == us[j]);
        assert(d.take(j) == us.take(j));
        law_phantom_complete(d, a, j);
        let k = choose|k: int|
            0 <= k < phantom_of(d, a).len() && (#[trigger] phantom_of(d, a)[k]).example_file
                == d[j].import.file && phantom_of(d, a)[k].example_line == d[j].import.line
                && phantom_of(d, a)[k].name == lookup(a.installed, d[j].package)->0.name;
        assert(phantom_of(us, a)[k] == phantom_of(d, a)[k]);
    } else {
        assert(us.take(j) == d);
        let k = phantom_of(d, a).len() as int;
        assert(phantom_of(us, a)[k].example_file == us[j].import.file);
    }
}

/// A declared, installed target is its own only chain: the walk stops at a
/// declared dependency.
pub proof fn law_why_declared_target(a: AnalysisView, target_raw: Seq<char>)
    requires
        key_index(a.installed, spec_normalize(target_raw)) is Some,
        is_declared(a.declared, spec_normalize(target_raw)),
    ensures
        spec_why(a, target_raw) == seq![seq![spec_normalize(target_raw)]],
{
    let t = spec_normalize(target_raw);
    assert(seq![t].reverse() =~= seq![t]);
}

} // verus!
