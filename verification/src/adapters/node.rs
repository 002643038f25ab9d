//! Node / TypeScript adapter.
//! declared: package.json  ·  installed: package-lock.json  ·  imports: the
//! output of the source parser.

use vstd::prelude::*;
use crate::doc::{
    entries_of, json_at, json_opt, json_value, keys_of, member, member_text, parse_json, str_of,
    Parsed, ParsedView,
};
use crate::engine::{is_used, used_before};
use crate::adapters::{
    append_files, file_text, first_pattern, is_present, match_pattern, pattern_reason, Adapter,
    AnalyzeError, AnalyzeErrorView, ParserOutput, ParserOutputView, ProjectFiles,
};
use crate::model::{
    lemma_contains_left, lemma_contains_right,
    assoc_insert, contains_token, is_normalized, keys_normalized, keys_unique,
    law_insert_then_lookup, law_normalize_canonical, lemma_insert_keys, lemma_insert_normalized,
    lemma_names_concat, lookup, names_normalized, normalize, packages_normalized,
    spec_contains_token, spec_normalize, token_scan_panics, token_scan_would_panic, views,
    Analysis, AnalysisView, DeclaredDep, DeclaredDepView, DepKind, ResolvedPkg, ResolvedPkgView,
    SourceImport, SourceImportView, StrMap, Usage, UsageView,
};
use crate::text::{
    lemma_first_occ_char,
    after_last, before_first, chars_of, contains_sub, find_first, first_occ, has_prefix, has_sub,
    is_prefix, list_contains, push_str, rfind, string_of, sub_chars,
};

verus! {

pub struct NodeAdapter;

/// Node's builtin modules: importing them needs no package.
pub const BUILTINS: [&'static str; 40] = [
    "assert", "buffer", "child_process", "cluster", "console", "constants", "crypto", "dgram",
    "dns", "domain", "events", "fs", "http", "http2", "https", "inspector",
    "module", "net", "os", "path", "perf_hooks", "process", "punycode", "querystring",
    "readline", "repl", "stream", "string_decoder", "sys", "timers", "tls", "trace_events",
    "tty", "url", "util", "v8", "vm", "wasi", "worker_threads", "zlib",
];

/// Type-stub targets that are ambient globals rather than imported packages.
pub const AMBIENT: [&'static str; 5] = ["node", "bun", "deno", "jest", "mocha"];

/// Naming conventions of plugins loaded by string.
pub const PATTERNS: [(&'static str, &'static str); 6] = [
    ("eslint-plugin-", "eslint plugin"),
    ("eslint-config-", "eslint config"),
    ("@babel/preset-", "babel preset"),
    ("@babel/plugin-", "babel plugin"),
    ("stylelint-config-", "stylelint config"),
    ("@commitlint/", "commitlint package"),
];

/// Config/build files (repo root) that can reference a package by string
/// rather than importing it.
pub const CONFIG_FILES: [&'static str; 64] = [
    ".eslintrc", ".eslintrc.js", ".eslintrc.cjs", ".eslintrc.json",
    ".eslintrc.yml", ".eslintrc.yaml", "eslint.config.js", "eslint.config.mjs",
    "eslint.config.cjs", ".prettierrc", ".prettierrc.json", ".prettierrc.js",
    ".prettierrc.cjs", ".prettierrc.yml", ".prettierrc.yaml", "prettier.config.js",
    "prettier.config.cjs", "babel.config.js", "babel.config.cjs", "babel.config.json",
    ".babelrc", ".babelrc.js", ".babelrc.json", "postcss.config.js",
    "postcss.config.cjs", "tailwind.config.js", "tailwind.config.cjs", "tailwind.config.ts",
    "jest.config.js", "jest.config.cjs", "jest.config.ts", "jest.config.json",
    "jest.config.mjs", "vitest.config.js", "vitest.config.ts", "vite.config.js",
    "vite.config.ts", "vite.config.mjs", ".stylelintrc", ".stylelintrc.json",
    ".stylelintrc.js", "stylelint.config.js", "rollup.config.js", "rollup.config.mjs",
    "webpack.config.js", "webpack.config.cjs", "commitlint.config.js", ".commitlintrc.json",
    ".lintstagedrc", ".lintstagedrc.json", ".lintstagedrc.js", "tsconfig.json",
    "tsconfig.base.json", ".mocharc.js", ".mocharc.json", ".mocharc.cjs",
    "nodemon.json", "svelte.config.js", "astro.config.mjs", "next.config.js",
    "next.config.mjs", "nuxt.config.js", "nuxt.config.ts", "playwright.config.ts",
];

/// package.json sections that configure tools by package name.
pub const SECTION_KEYS: [&'static str; 14] = [
    "eslintConfig", "prettier", "jest", "babel", "husky", "lint-staged", "postcss",
    "mocha", "nyc", "commitlint", "stylelint", "release", "standard", "c8",
];

/// package.json fields whose keys name the packages a package requires.
pub const REQUIRE_FIELDS: [&'static str; 4] = [
    "dependencies",
    "optionalDependencies",
    "peerDependencies",
    "requires",
];

pub open spec fn strs<const N: usize>(a: [&'static str; N]) -> Seq<Seq<char>> {
    a@.map_values(|x: &str| x@)
}

// ---------------------------------------------------------------------------
// Import specifiers
// ---------------------------------------------------------------------------

pub open spec fn is_builtin_name(name: Seq<char>) -> bool {
    strs(BUILTINS).contains(name)
}

pub fn is_builtin(name: &str) -> (r: bool)
    ensures
        r == is_builtin_name(name@),
{
    let cs = chars_of(name);
    list_contains(&BUILTINS, cs.as_slice())
}

/// The package part of a bare specifier: `@scope/pkg` for a scoped one (none
/// without a `/`), the first path segment otherwise.
pub open spec fn package_root(s: Seq<char>) -> Option<Seq<char>> {
    if s.len() > 0 && s[0] == '@' {
        let scoped = s.drop_first();
        match first_occ(scoped, seq!['/']) {
            Some(i) => Some(
                seq!['@'] + scoped.take(i) + seq!['/'] + before_first(scoped.skip(i + 1), '/'),
            ),
            None => None,
        }
    } else {
        Some(before_first(s, '/'))
    }
}

/// The (normalized) package an import specifier refers to: none for a
/// relative or absolute path, a `node:` import (always a builtin module), a
/// builtin module, or a scope without a package.
pub open spec fn package_of_specifier(spec: Seq<char>) -> Option<Seq<char>> {
    if (spec.len() > 0 && (spec[0] == '.' || spec[0] == '/')) || is_prefix("node:"@, spec) {
        None
    } else {
        match package_root(spec) {
            Some(root) => if is_builtin_name(root) {
                None
            } else {
                Some(spec_normalize(root))
            },
            None => None,
        }
    }
}

fn before_first_exec(s: &[char], c: char) -> (r: Vec<char>)
    ensures
        r@ == before_first(s@, c),
{
    let pat = vec![c];
    assert(pat@ == seq![c]);
    match find_first(s, pat.as_slice()) {
        Some(i) => {
            proof {
                crate::text::lemma_first_occ_bound(s@, seq![c]);
            }
            sub_chars(s, 0, i)
        },
        None => sub_chars(s, 0, s.len()),
    }
}

/// Turn an import specifier into a package name, or None for relative /
/// builtin / non-package imports.
pub fn spec_to_package(spec: &str) -> (r: Option<String>)
    ensures
        match r {
            Some(p) => package_of_specifier(spec@) == Some(p@),
            None => package_of_specifier(spec@) is None,
        },
{
    let cs = chars_of(spec);
    if cs.len() > 0 && (cs[0] == '.' || cs[0] == '/') {
        return None;
    }
    let np = chars_of("node:");
    if has_prefix(cs.as_slice(), np.as_slice()) {
        return None;
    }
    let s = sub_chars(cs.as_slice(), 0, cs.len());
    assert(s@ == spec@);
    let root: Vec<char> = if s.len() > 0 && s[0] == '@' {
        let scoped = sub_chars(s.as_slice(), 1, s.len());
        assert(scoped@ == s@.drop_first());
        let slash = vec!['/'];
        assert(slash@ == seq!['/']);
        match find_first(scoped.as_slice(), slash.as_slice()) {
            Some(i) => {
                proof {
                    crate::text::lemma_first_occ_bound(scoped@, seq!['/']);
                }
                let scope = sub_chars(scoped.as_slice(), 0, i);
                let rest = sub_chars(scoped.as_slice(), i + 1, scoped.len());
                let pkg = before_first_exec(rest.as_slice(), '/');
                let mut root: Vec<char> = Vec::new();
                root.push('@');
                let mut k: usize = 0;
                while k < scope.len()
                    invariant
                        k <= scope@.len(),
                        root@ == seq!['@'] + scope@.take(k as int),
                    decreases scope@.len() - k,
                {
                    root.push(scope[k]);
                    assert(scope@.take(k + 1) == scope@.take(k as int).push(scope@[k as int]));
                    k += 1;
                }
                assert(scope@.take(scope@.len() as int) == scope@);
                root.push('/');
                let ghost mid = root@;
                let mut k: usize = 0;
                while k < pkg.len()
                    invariant
                        k <= pkg@.len(),
                        root@ == mid + pkg@.take(k as int),
                    decreases pkg@.len() - k,
                {
                    root.push(pkg[k]);
                    assert(pkg@.take(k + 1) == pkg@.take(k as int).push(pkg@[k as int]));
                    k += 1;
                }
                assert(pkg@.take(pkg@.len() as int) == pkg@);
                assert(scoped@.skip(i + 1) == rest@);
                assert(root@ == seq!['@'] + scoped@.take(i as int) + seq!['/'] + before_first(
                    scoped@.skip(i + 1),
                    '/',
                ));
                root
            },
            None => {
                return None;
            },
        }
    } else {
        before_first_exec(s.as_slice(), '/')
    };
    let rs = string_of(root.as_slice());
    if is_builtin(rs.as_str()) {
        return None;
    }
    Some(normalize(rs.as_str()))
}

// ---------------------------------------------------------------------------
// Naming conventions
// ---------------------------------------------------------------------------

pub open spec fn node_name_convention(raw: Seq<char>) -> Option<Seq<char>> {
    match first_pattern(raw, PATTERNS@) {
        Some(i) => Some(pattern_reason(PATTERNS@[i].0@, PATTERNS@[i].1@)),
        None => if has_sub(raw, "/eslint-plugin"@) {
            Some("scoped eslint plugin"@)
        } else {
            None
        },
    }
}

fn name_convention(raw: &str) -> (r: Option<String>)
    ensures
        match r {
            Some(s) => node_name_convention(raw@) == Some(s@),
            None => node_name_convention(raw@) is None,
        },
{
    match match_pattern(&PATTERNS, raw) {
        Some(m) => Some(m),
        None => {
            let cs = chars_of(raw);
            let pat = chars_of("/eslint-plugin");
            if contains_sub(cs.as_slice(), pat.as_slice()) {
                Some("scoped eslint plugin".to_string())
            } else {
                None
            }
        },
    }
}

// ---------------------------------------------------------------------------
// package.json: declared dependencies
// ---------------------------------------------------------------------------

/// The deps listed (as keys) under `field` of the parsed package.json `p`,
/// with their kind.
pub open spec fn declared_section(p: Option<ParsedView>, field: Seq<char>, kind: DepKind) -> Seq<
    DeclaredDepView,
> {
    keys_of(json_at(member_text(p, field))).map_values(
        |k: Seq<char>|
            DeclaredDepView {
                name: spec_normalize(k),
                raw_name: k,
                kind: kind,
                manifest: "package.json"@,
            },
    )
}

/// Every dep a parsed package.json declares: dependencies,
/// devDependencies, optionalDependencies, peerDependencies, each in key
/// order.
pub open spec fn declared_of(p: Option<ParsedView>) -> Seq<DeclaredDepView> {
    declared_section(p, "dependencies"@, DepKind::Prod) + declared_section(
        p,
        "devDependencies"@,
        DepKind::Dev,
    ) + declared_section(p, "optionalDependencies"@, DepKind::Optional) + declared_section(
        p,
        "peerDependencies"@,
        DepKind::Peer,
    )
}

/// Every dep the package.json text `pkg` declares.
pub open spec fn node_declared(pkg: Seq<char>) -> Seq<DeclaredDepView> {
    declared_of(json_value(pkg))
}

fn push_section(out: &mut Vec<DeclaredDep>, p: &Parsed, field: &str, kind: DepKind)
    ensures
        views(final(out)@) == views(old(out)@) + declared_section(Some(p@), field@, kind),
{
    let ghost base = views(out@);
    let ghost sec = declared_section(Some(p@), field@, kind);
    match json_opt(member(Some(p), field)) {
        Some(Parsed::Table(es)) => {
            let ghost ks = es@.map_values(|e: crate::doc::Entry| e.key@);
            assert(keys_of(json_at(member_text(Some(p@), field@))) == ks);
            let mut i: usize = 0;
            while i < es.len()
                invariant
                    sec == ks.map_values(
                        |k: Seq<char>|
                            DeclaredDepView {
                                name: spec_normalize(k),
                                raw_name: k,
                                kind: kind,
                                manifest: "package.json"@,
                            },
                    ),
                    ks == es@.map_values(|e: crate::doc::Entry| e.key@),
                    i <= es@.len(),
                    views(out@) == base + sec.take(i as int),
                decreases es@.len() - i,
            {
                let key = &es[i].key;
                let ghost before = out@;
                out.push(
                    DeclaredDep {
                        name: normalize(key.as_str()),
                        raw_name: key.clone(),
                        kind: kind,
                        manifest: "package.json".to_string(),
                    },
                );
                assert(views(out@) == views(before).push(out@.last()@));
                assert(sec.take(i + 1) == sec.take(i as int).push(sec[i as int]));
                i += 1;
            }
            assert(sec.take(es@.len() as int) == sec);
        },
        _ => {
            assert(sec =~= Seq::<DeclaredDepView>::empty());
            assert(views(out@) =~= base + sec);
        },
    }
}

/// The dependencies package.json declares; an error when it is not JSON.
pub fn read_declared(pkg: &str) -> (r: Result<Vec<DeclaredDep>, AnalyzeError>)
    ensures
        match r {
            Ok(v) => json_value(pkg@) is Some && views(v@) == node_declared(pkg@),
            Err(e) => json_value(pkg@) is None && e@ == AnalyzeErrorView::Unparsable(
                "package.json"@,
            ),
        },
{
    match parse_json(pkg) {
        Some(p) => Ok(declared_in(&p)),
        None => Err(AnalyzeError::Unparsable("package.json".to_string())),
    }
}

/// The dependencies a parsed package.json declares.
pub fn declared_in(p: &Parsed) -> (r: Vec<DeclaredDep>)
    ensures
        views(r@) == declared_of(Some(p@)),
{
    let mut deps: Vec<DeclaredDep> = Vec::new();
    assert(views(deps@) =~= Seq::<DeclaredDepView>::empty());
    push_section(&mut deps, p, "dependencies", DepKind::Prod);
    push_section(&mut deps, p, "devDependencies", DepKind::Dev);
    push_section(&mut deps, p, "optionalDependencies", DepKind::Optional);
    push_section(&mut deps, p, "peerDependencies", DepKind::Peer);
    assert(views(deps@) =~= declared_of(Some(p@)));
    deps
}

// ---------------------------------------------------------------------------
// package-lock.json: installed packages
// ---------------------------------------------------------------------------

/// A string value, or nothing.
pub open spec fn str_or_empty(v: Option<ParsedView>) -> Seq<char> {
    match str_of(v) {
        Some(s) => s,
        None => seq![],
    }
}

/// The normalized names listed as keys under each of `fields`.
pub open spec fn required_names(p: Option<ParsedView>, fields: Seq<Seq<char>>) -> Seq<Seq<char>>
    decreases fields.len(),
{
    if fields.len() == 0 {
        seq![]
    } else {
        required_names(p, fields.drop_last()) + keys_of(
            json_at(member_text(p, fields.last())),
        ).map_values(|k: Seq<char>| spec_normalize(k))
    }
}

/// The installed package `name` described by the parsed lockfile entry `p`.
pub open spec fn resolved_of(name: Seq<char>, p: Option<ParsedView>) -> ResolvedPkgView {
    ResolvedPkgView {
        name: name,
        version: str_or_empty(json_at(member_text(p, "version"@))),
        requires: required_names(p, strs(REQUIRE_FIELDS)),
    }
}

/// The installed package `name` described by the lockfile entry text `info`.
pub open spec fn spec_resolved(name: Seq<char>, info: Seq<char>) -> ResolvedPkgView {
    resolved_of(name, json_value(info))
}

fn resolved(name: &str, info: &String) -> (r: ResolvedPkg)
    ensures
        r@ == spec_resolved(name@, info@),
{
    let p = parse_json(info.as_str());
    resolved_in(name, p.as_ref())
}

/// The installed package `name` described by the parsed lockfile entry `pr`.
pub fn resolved_in(name: &str, pr: Option<&Parsed>) -> (r: ResolvedPkg)
    ensures
        r@ == resolved_of(name@, crate::doc::parsed_view(pr)),
{
    let ghost pv = crate::doc::parsed_view(pr);
    let version = match json_opt(member(pr, "version")) {
        Some(Parsed::Str(s)) => s,
        _ => String::new(),
    };
    let ghost fields = strs(REQUIRE_FIELDS);
    let mut reqs: Vec<String> = Vec::new();
    let mut f: usize = 0;
    assert(views(reqs@) =~= required_names(pv, fields.take(0)));
    while f < REQUIRE_FIELDS.len()
        invariant
            fields == strs(REQUIRE_FIELDS),
            crate::doc::parsed_view(pr) == pv,
            f <= 4,
            views(reqs@) == required_names(pv, fields.take(f as int)),
        decreases 4 - f,
    {
        let field = REQUIRE_FIELDS[f];
        assert(fields.take(f + 1).drop_last() == fields.take(f as int));
        assert(fields.take(f + 1).last() == field@);
        let ghost base = views(reqs@);
        let ghost keys = keys_of(json_at(member_text(pv, field@))).map_values(
            |k: Seq<char>| spec_normalize(k),
        );
        match json_opt(member(pr, field)) {
            Some(Parsed::Table(es)) => {
                let mut i: usize = 0;
                while i < es.len()
                    invariant
                        keys == es@.map_values(|e: crate::doc::Entry| spec_normalize(e.key@)),
                        i <= es@.len(),
                        views(reqs@) == base + keys.take(i as int),
                    decreases es@.len() - i,
                {
                    let ghost before = reqs@;
                    reqs.push(normalize(es[i].key.as_str()));
                    assert(views(reqs@) == views(before).push(reqs@.last()@));
                    assert(keys.take(i + 1) == keys.take(i as int).push(keys[i as int]));
                    i += 1;
                }
                assert(keys.take(es@.len() as int) == keys);
            },
            _ => {
                assert(keys =~= Seq::<Seq<char>>::empty());
                assert(views(reqs@) =~= base + keys);
            },
        }
        f += 1;
    }
    assert(fields.take(4) == fields);
    ResolvedPkg { name: name.to_string(), version, requires: reqs }
}

/// The package name in a lockfile path: what follows the last
/// `node_modules/`.
pub open spec fn lock_name(path: Seq<char>) -> Seq<char> {
    after_last(path, "node_modules/"@)
}

/// Installed packages of a v2/v3 lockfile's `packages` table (the root
/// project, keyed by the empty path, left out); a later entry for the same
/// normalized name replaces an earlier one.
pub open spec fn lock_packages(es: Seq<(Seq<char>, Seq<char>)>) -> Seq<(Seq<char>, ResolvedPkgView)>
    decreases es.len(),
{
    if es.len() == 0 {
        seq![]
    } else {
        let m = lock_packages(es.drop_last());
        let e = es.last();
        if e.0.len() == 0 {
            m
        } else {
            let name = lock_name(e.0);
            assoc_insert(m, spec_normalize(name), spec_resolved(name, e.1))
        }
    }
}

/// Installed packages of a v1 lockfile's `dependencies` table.
pub open spec fn lock_v1(es: Seq<(Seq<char>, Seq<char>)>) -> Seq<(Seq<char>, ResolvedPkgView)>
    decreases es.len(),
{
    if es.len() == 0 {
        seq![]
    } else {
        let m = lock_v1(es.drop_last());
        let e = es.last();
        assoc_insert(m, spec_normalize(e.0), spec_resolved(e.0, e.1))
    }
}

/// What a parsed lockfile says is installed.
pub open spec fn lock_installed(p: Option<ParsedView>) -> Seq<(Seq<char>, ResolvedPkgView)> {
    match json_at(member_text(p, "packages"@)) {
        Some(ParsedView::Table(es)) => lock_packages(es),
        _ => match json_at(member_text(p, "dependencies"@)) {
            Some(ParsedView::Table(es)) => lock_v1(es),
            _ => seq![],
        },
    }
}

/// What the lockfile (if any) says is installed; an error when it is not
/// JSON.
pub open spec fn node_installed(lock: Option<Seq<char>>) -> Result<
    Seq<(Seq<char>, ResolvedPkgView)>,
    AnalyzeErrorView,
> {
    match lock {
        None => Ok(seq![]),
        Some(t) => match json_value(t) {
            Some(v) => Ok(lock_installed(Some(v))),
            None => Err(AnalyzeErrorView::Unparsable("package-lock.json"@)),
        },
    }
}

fn lock_name_exec(path: &str) -> (r: String)
    ensures
        r@ == lock_name(path@),
{
    let cs = chars_of(path);
    let pat = chars_of("node_modules/");
    match rfind(cs.as_slice(), pat.as_slice()) {
        Some(i) => {
            proof {
                crate::text::lemma_last_occ_bound(cs@, pat@);
                assert(crate::text::occurs_at(cs@, pat@, i as int));
            }
            let cl = cs.len();
            let pl = pat.len();
            let tail = sub_chars(cs.as_slice(), i + pl, cl);
            string_of(tail.as_slice())
        },
        None => path.to_string(),
    }
}

/// The view of an optional text.
pub open spec fn text_view(t: Option<&String>) -> Option<Seq<char>> {
    match t {
        Some(x) => Some(x@),
        None => None,
    }
}

/// The installed packages the lockfile lists (none without a lockfile).
pub fn read_lockfile(lock: Option<&String>) -> (r: Result<StrMap<ResolvedPkg>, AnalyzeError>)
    ensures
        match r {
            Ok(m) => node_installed(text_view(lock)) == Ok::<
                Seq<(Seq<char>, ResolvedPkgView)>,
                AnalyzeErrorView,
            >(m@),
            Err(e) => node_installed(text_view(lock)) == Err::<
                Seq<(Seq<char>, ResolvedPkgView)>,
                AnalyzeErrorView,
            >(e@),
        },
{
    match lock {
        None => Ok(StrMap::new()),
        Some(txt) => match parse_json(txt.as_str()) {
            Some(p) => Ok(installed_in(&p)),
            None => Err(AnalyzeError::Unparsable("package-lock.json".to_string())),
        },
    }
}

/// The installed packages a parsed lockfile lists.
pub fn installed_in(p: &Parsed) -> (r: StrMap<ResolvedPkg>)
    ensures
        r@ == lock_installed(Some(p@)),
{
    let mut map: StrMap<ResolvedPkg> = StrMap::new();
    match json_opt(member(Some(p), "packages")) {
        Some(Parsed::Table(es)) => {
            let ghost ev = es@.map_values(|e: crate::doc::Entry| (e.key@, e.text@));
            let mut i: usize = 0;
            while i < es.len()
                invariant
                    ev == es@.map_values(|e: crate::doc::Entry| (e.key@, e.text@)),
                    i <= es@.len(),
                    map@ == lock_packages(ev.take(i as int)),
                decreases es@.len() - i,
            {
                let e = &es[i];
                assert(ev.take(i + 1).drop_last() == ev.take(i as int));
                assert(ev.take(i + 1).last() == (e.key@, e.text@));
                let key = chars_of(e.key.as_str());
                if key.len() != 0 {
                    let name = lock_name_exec(e.key.as_str());
                    let pkg = resolved(name.as_str(), &e.text);
                    map.insert(normalize(name.as_str()), pkg);
                }
                i += 1;
            }
            assert(ev.take(es@.len() as int) == ev);
            map
        },
        _ => {
            match json_opt(member(Some(p), "dependencies")) {
                Some(Parsed::Table(es)) => {
                    let ghost ev = es@.map_values(|e: crate::doc::Entry| (e.key@, e.text@));
                    let mut i: usize = 0;
                    while i < es.len()
                        invariant
                            ev == es@.map_values(|e: crate::doc::Entry| (e.key@, e.text@)),
                            i <= es@.len(),
                            map@ == lock_v1(ev.take(i as int)),
                        decreases es@.len() - i,
                    {
                        let e = &es[i];
                        assert(ev.take(i + 1).drop_last() == ev.take(i as int));
                        assert(ev.take(i + 1).last() == (e.key@, e.text@));
                        let pkg = resolved(e.key.as_str(), &e.text);
                        map.insert(normalize(e.key.as_str()), pkg);
                        i += 1;
                    }
                    assert(ev.take(es@.len() as int) == ev);
                    map
                },
                _ => map,
            }
        },
    }
}

// ---------------------------------------------------------------------------
// Usage hints
// ---------------------------------------------------------------------------

/// Where a dep's installed manifest lives, relative to the project root.
pub open spec fn bin_path(raw: Seq<char>) -> Seq<char> {
    "node_modules/"@ + raw + "/package.json"@
}

/// The executable a package ships according to its installed manifest: for
/// a string `bin`, the package name after its last `/`; for a table, its
/// first key. Nothing without a manifest that parses.
pub open spec fn spec_pkg_bin(raw: Seq<char>, manifest: Option<Seq<char>>) -> Option<Seq<char>> {
    manifest_bin(raw, json_at(manifest))
}

/// The executable a package ships according to its parsed manifest `m`.
pub open spec fn manifest_bin(raw: Seq<char>, m: Option<ParsedView>) -> Option<Seq<char>> {
    match json_at(member_text(m, "bin"@)) {
        Some(ParsedView::Str(_)) => Some(after_last(raw, seq!['/'])),
        Some(ParsedView::Table(es)) => if es.len() > 0 {
            Some(es[0].0)
        } else {
            None
        },
        _ => None,
    }
}

/// Path of the installed manifest of `raw`.
pub fn bin_manifest_path(raw: &str) -> (r: String)
    ensures
        r@ == bin_path(raw@),
{
    let mut p = String::new();
    push_str(&mut p, "node_modules/");
    push_str(&mut p, raw);
    push_str(&mut p, "/package.json");
    assert(p@ == bin_path(raw@));
    p
}

/// The `bin` a package ships, if any (from its installed package.json).
fn pkg_bin(raw: &str, manifest: Option<&String>) -> (r: Option<String>)
    ensures
        match r {
            Some(b) => spec_pkg_bin(raw@, text_view(manifest)) == Some(b@),
            None => spec_pkg_bin(raw@, text_view(manifest)) is None,
        },
{
    let m = json_opt(manifest);
    bin_in(raw, m.as_ref())
}

/// The `bin` a package ships, if any, according to its parsed manifest `m`.
pub fn bin_in(raw: &str, m: Option<&Parsed>) -> (r: Option<String>)
    ensures
        match r {
            Some(b) => manifest_bin(raw@, crate::doc::parsed_view(m)) == Some(b@),
            None => manifest_bin(raw@, crate::doc::parsed_view(m)) is None,
        },
{
    match json_opt(member(m, "bin")) {
        Some(Parsed::Str(_)) => {
            let cs = chars_of(raw);
            let slash = vec!['/'];
            assert(slash@ == seq!['/']);
            match rfind(cs.as_slice(), slash.as_slice()) {
                Some(i) => {
                    proof {
                        crate::text::lemma_last_occ_bound(cs@, slash@);
                        assert(crate::text::occurs_at(cs@, slash@, i as int));
                    }
                    let cl = cs.len();
                    let tail = sub_chars(cs.as_slice(), i + 1, cl);
                    Some(string_of(tail.as_slice()))
                },
                None => Some(raw.to_string()),
            }
        },
        Some(Parsed::Table(es)) => {
            if es.len() > 0 {
                Some(es[0].key.clone())
            } else {
                None
            }
        },
        _ => None,
    }
}

/// npm scripts: their string values, in key order, each followed by a
/// newline.
pub open spec fn script_text(es: Seq<(Seq<char>, Seq<char>)>) -> Seq<char>
    decreases es.len(),
{
    if es.len() == 0 {
        seq![]
    } else {
        script_text(es.drop_last()) + match str_of(json_value(es.last().1)) {
            Some(s) => s + seq!['\n'],
            None => seq![],
        }
    }
}

/// The embedded config sections `keys` that are present, as compact JSON,
/// each followed by a newline.
pub open spec fn section_text(p: Option<ParsedView>, keys: Seq<Seq<char>>) -> Seq<char>
    decreases keys.len(),
{
    if keys.len() == 0 {
        seq![]
    } else {
        section_text(p, keys.drop_last()) + match member_text(p, keys.last()) {
            Some(t) => t + seq!['\n'],
            None => seq![],
        }
    }
}

/// npm scripts + embedded config sections of a parsed package.json.
pub open spec fn pkg_config_text(p: Option<ParsedView>) -> Seq<char> {
    match p {
        Some(v) => script_text(entries_of(json_at(member_text(Some(v), "scripts"@)))) + section_text(
            Some(v),
            strs(SECTION_KEYS),
        ),
        None => seq![],
    }
}

/// npm scripts + embedded package.json config sections + root config files.
pub open spec fn node_config_blob(pkg: Seq<char>, files: Seq<(Seq<char>, Seq<char>)>) -> Seq<char> {
    pkg_config_text(json_value(pkg)) + file_text(files, strs(CONFIG_FILES))
}

/// npm scripts + embedded package.json config sections + root config files.
fn config_blob(pkg: &str, files: &StrMap<String>) -> (r: String)
    ensures
        r@ == node_config_blob(pkg@, files@),
{
    let p = parse_json(pkg);
    config_blob_in(p.as_ref(), files)
}

/// npm scripts + embedded config sections of the parsed package.json `p` +
/// root config files.
pub fn config_blob_in(p: Option<&Parsed>, files: &StrMap<String>) -> (r: String)
    ensures
        r@ == pkg_config_text(crate::doc::parsed_view(p)) + file_text(files@, strs(CONFIG_FILES)),
{
    let mut blob = String::new();
    proof {
        crate::lemma_newline();
    }
    match p {
        Some(v) => {
            match json_opt(member(Some(v), "scripts")) {
                Some(Parsed::Table(es)) => {
                    let ghost ev = es@.map_values(|e: crate::doc::Entry| (e.key@, e.text@));
                    let mut i: usize = 0;
                    while i < es.len()
                        invariant
                            "\n"@ == seq!['\n'],
                            ev == es@.map_values(|e: crate::doc::Entry| (e.key@, e.text@)),
                            i <= es@.len(),
                            blob@ == script_text(ev.take(i as int)),
                        decreases es@.len() - i,
                    {
                        assert(ev.take(i + 1).drop_last() == ev.take(i as int));
                        assert(ev.take(i + 1).last() == (es@[i as int].key@, es@[i as int].text@));
                        match parse_json(es[i].text.as_str()) {
                            Some(Parsed::Str(s)) => {
                                push_str(&mut blob, s.as_str());
                                push_str(&mut blob, "\n");
                            },
                            _ => {},
                        }
                        i += 1;
                    }
                    assert(ev.take(es@.len() as int) == ev);
                },
                _ => {},
            }
            let ghost keys = strs(SECTION_KEYS);
            let ghost base = blob@;
            let mut k: usize = 0;
            while k < SECTION_KEYS.len()
                invariant
                    "\n"@ == seq!['\n'],
                    keys == strs(SECTION_KEYS),
                    k <= 14,
                    blob@ == base + section_text(Some(v@), keys.take(k as int)),
                decreases 14 - k,
            {
                assert(keys.take(k + 1).drop_last() == keys.take(k as int));
                assert(keys.take(k + 1).last() == SECTION_KEYS[k as int]@);
                match member(Some(v), SECTION_KEYS[k]) {
                    Some(t) => {
                        push_str(&mut blob, t.as_str());
                        push_str(&mut blob, "\n");
                    },
                    None => {},
                }
                k += 1;
            }
            assert(keys.take(14) == keys);
        },
        None => {},
    }
    append_files(&mut blob, files, &CONFIG_FILES);
    blob
}

/// The package a type-stub package (`@types/x`) is for.
pub open spec fn stub_base(raw: Seq<char>) -> Option<Seq<char>> {
    if is_prefix("@types/"@, raw) {
        Some(raw.skip("@types/"@.len() as int))
    } else {
        None
    }
}

/// A type-stub package whose package is ambient or imported.
pub open spec fn stub_in_use(raw: Seq<char>, used: Seq<UsageView>) -> bool {
    match stub_base(raw) {
        Some(base) => strs(AMBIENT).contains(base) || is_used(used, spec_normalize(base)),
        None => false,
    }
}

/// The executable `raw` ships, according to the project's files.
pub open spec fn bin_of(raw: Seq<char>, files: Seq<(Seq<char>, Seq<char>)>) -> Option<Seq<char>> {
    spec_pkg_bin(raw, lookup(files, bin_path(raw)))
}

/// The hints decided before any config scan: type stubs, then a shipped
/// executable.
pub open spec fn early_hint(
    d: DeclaredDepView,
    used: Seq<UsageView>,
    files: Seq<(Seq<char>, Seq<char>)>,
) -> Option<Seq<char>> {
    if stub_in_use(d.raw_name, used) {
        Some("type stubs for `"@ + stub_base(d.raw_name)->0 + "`"@)
    } else {
        match bin_of(d.raw_name, files) {
            Some(b) => Some("provides executable `"@ + b + "`"@),
            None => None,
        }
    }
}

/// Why a declared dep is likely used despite no source import, if it is:
/// type stubs, a shipped executable, a reference in config / scripts, or a
/// plugin naming convention, checked in that order.
pub open spec fn node_hint(
    d: DeclaredDepView,
    used: Seq<UsageView>,
    blob: Seq<char>,
    files: Seq<(Seq<char>, Seq<char>)>,
) -> Option<Seq<char>> {
    match early_hint(d, used, files) {
        Some(m) => Some(m),
        None => if spec_contains_token(blob, d.raw_name) {
            Some("referenced in config / scripts"@)
        } else {
            node_name_convention(d.raw_name)
        },
    }
}

/// The hints for `ds`, keyed by normalized name (a later dep with the same
/// name replaces an earlier one's hint).
pub open spec fn node_hints(
    ds: Seq<DeclaredDepView>,
    used: Seq<UsageView>,
    blob: Seq<char>,
    files: Seq<(Seq<char>, Seq<char>)>,
) -> Seq<(Seq<char>, Seq<char>)>
    decreases ds.len(),
{
    if ds.len() == 0 {
        seq![]
    } else {
        let m = node_hints(ds.drop_last(), used, blob, files);
        match node_hint(ds.last(), used, blob, files) {
            Some(r) => assoc_insert(m, ds.last().name, r),
            None => m,
        }
    }
}

/// No config scan of `ds` hits the case where the token search panics.
pub open spec fn node_scan_safe(
    ds: Seq<DeclaredDepView>,
    used: Seq<UsageView>,
    blob: Seq<char>,
    files: Seq<(Seq<char>, Seq<char>)>,
) -> bool {
    forall|i: int|
        0 <= i < ds.len() && early_hint(ds[i], used, files) is None ==> !token_scan_panics(
            blob,
            #[trigger] ds[i].raw_name,
        )
}

fn early_hint_exec(d: &DeclaredDep, used: &Vec<Usage>, files: &StrMap<String>) -> (r: Option<String>)
    ensures
        match r {
            Some(m) => early_hint(d@, views(used@), files@) == Some(m@),
            None => early_hint(d@, views(used@), files@) is None,
        },
{
    let nu = used.len();
    assert(views(used@).take(nu as int) == views(used@));
    let raw = chars_of(d.raw_name.as_str());
    let prefix = chars_of("@types/");
    if has_prefix(raw.as_slice(), prefix.as_slice()) {
        let base_cs = sub_chars(raw.as_slice(), prefix.len(), raw.len());
        let base = string_of(base_cs.as_slice());
        assert(stub_base(d.raw_name@) == Some(base@));
        let ambient = list_contains(&AMBIENT, base_cs.as_slice());
        let nb = normalize(base.as_str());
        if ambient || used_before(used, nu, nb.as_str()) {
            let mut m = String::new();
            push_str(&mut m, "type stubs for `");
            push_str(&mut m, base.as_str());
            push_str(&mut m, "`");
            return Some(m);
        }
    }
    let path = bin_manifest_path(d.raw_name.as_str());
    match pkg_bin(d.raw_name.as_str(), files.get(path.as_str())) {
        Some(bin) => {
            let mut m = String::new();
            push_str(&mut m, "provides executable `");
            push_str(&mut m, bin.as_str());
            push_str(&mut m, "`");
            Some(m)
        },
        None => None,
    }
}

/// Determine whether a declared dep is likely used despite no source import.
pub fn compute_hints(
    declared: &Vec<DeclaredDep>,
    used: &Vec<Usage>,
    blob: &str,
    files: &StrMap<String>,
) -> (r: StrMap<String>)
    requires
        node_scan_safe(views(declared@), views(used@), blob@, files@),
    ensures
        r@ == node_hints(views(declared@), views(used@), blob@, files@),
{
    let ghost ds = views(declared@);
    let ghost us = views(used@);
    let mut hints: StrMap<String> = StrMap::new();
    let mut i: usize = 0;
    while i < declared.len()
        invariant
            ds == views(declared@),
            us == views(used@),
            node_scan_safe(ds, us, blob@, files@),
            i <= ds.len(),
            hints@ == node_hints(ds.take(i as int), us, blob@, files@),
        decreases ds.len() - i,
    {
        let d = &declared[i];
        proof {
            assert(ds.take(i + 1).drop_last() == ds.take(i as int));
            assert(ds.take(i + 1).last() == d@);
            assert(ds[i as int] == d@);
        }
        match early_hint_exec(d, used, files) {
            Some(m) => {
                hints.insert(d.name.clone(), m);
            },
            None => {
                if contains_token(blob, d.raw_name.as_str()) {
                    hints.insert(d.name.clone(), "referenced in config / scripts".to_string());
                } else {
                    match name_convention(d.raw_name.as_str()) {
                        Some(reason) => {
                            hints.insert(d.name.clone(), reason);
                        },
                        None => {},
                    }
                }
            },
        }
        i += 1;
    }
    assert(ds.take(ds.len() as int) == ds);
    hints
}

// ---------------------------------------------------------------------------
// The adapter
// ---------------------------------------------------------------------------

/// The source imports that resolve to a package, in order.
pub open spec fn node_used(imports: Seq<SourceImportView>) -> Seq<UsageView>
    decreases imports.len(),
{
    if imports.len() == 0 {
        seq![]
    } else {
        let rest = node_used(imports.drop_last());
        let imp = imports.last();
        match package_of_specifier(imp.specifier) {
            Some(p) => rest.push(UsageView { package: p, import: imp }),
            None => rest,
        }
    }
}

/// The outcome of the Node analysis: an error for a missing or unparsable
/// package.json or an unparsable lockfile, the analysis otherwise.
pub open spec fn node_outcome(out: ParserOutputView, files: Seq<(Seq<char>, Seq<char>)>) -> Result<
    AnalysisView,
    AnalyzeErrorView,
> {
    match lookup(files, "package.json"@) {
        None => Err(AnalyzeErrorView::MissingFile("package.json"@)),
        Some(pkg) => if json_value(pkg) is None {
            Err(AnalyzeErrorView::Unparsable("package.json"@))
        } else {
            match node_installed(lookup(files, "package-lock.json"@)) {
                Err(e) => Err(e),
                Ok(installed) => {
                    let declared = node_declared(pkg);
                    let used = node_used(out.imports);
                    Ok(
                        AnalysisView {
                            language: "node"@,
                            declared: declared,
                            installed: installed,
                            used: used,
                            usage_hints: node_hints(
                                declared,
                                used,
                                node_config_blob(pkg, files),
                                files,
                            ),
                        },
                    )
                },
            }
        },
    }
}

/// The inputs on which the Node analysis does not panic: those it rejects,
/// and those whose config scans never hit the panicking case.
pub open spec fn node_accepts(out: ParserOutputView, files: Seq<(Seq<char>, Seq<char>)>) -> bool {
    node_outcome(out, files) is Ok ==> {
        let pkg = lookup(files, "package.json"@)->0;
        node_scan_safe(
            node_declared(pkg),
            node_used(out.imports),
            node_config_blob(pkg, files),
            files,
        )
    }
}

fn used_of(imports: &Vec<SourceImport>) -> (r: Vec<Usage>)
    ensures
        views(r@) == node_used(views(imports@)),
{
    let ghost iv = views(imports@);
    let mut used: Vec<Usage> = Vec::new();
    let mut i: usize = 0;
    while i < imports.len()
        invariant
            iv == views(imports@),
            i <= iv.len(),
            views(used@) == node_used(iv.take(i as int)),
        decreases iv.len() - i,
    {
        let imp = &imports[i];
        assert(iv.take(i + 1).drop_last() == iv.take(i as int));
        assert(iv.take(i + 1).last() == imp@);
        match spec_to_package(imp.specifier.as_str()) {
            Some(pkg) => {
                let ghost before = used@;
                used.push(Usage { package: pkg, import: imp.clone() });
                assert(views(used@) == views(before).push(used@.last()@));
            },
            None => {},
        }
        i += 1;
    }
    assert(iv.take(iv.len() as int) == iv);
    used
}

/// Files whose presence marks a Node project.
pub const MARKERS: [&'static str; 1] = ["package.json"];

impl NodeAdapter {
    /// The files whose presence marks a Node project.
    pub fn marker_files() -> (r: &'static [&'static str; 1])
        ensures
            r@ == MARKERS@,
    {
        &MARKERS
    }

    /// The config files the analysis reads, relative to the project root.
    pub fn config_files() -> (r: &'static [&'static str; 64])
        ensures
            r@ == CONFIG_FILES@,
    {
        &CONFIG_FILES
    }
}

impl Adapter for NodeAdapter {
    open spec fn accepts(&self, out: ParserOutputView, files: Seq<(Seq<char>, Seq<char>)>) -> bool {
        node_accepts(out, files)
    }

    open spec fn outcome(&self, out: ParserOutputView, files: Seq<(Seq<char>, Seq<char>)>) -> Result<
        AnalysisView,
        AnalyzeErrorView,
    > {
        node_outcome(out, files)
    }

    open spec fn name(&self) -> Seq<char> {
        "node"@
    }

    fn language(&self) -> (r: &'static str) {
        "node"
    }

    open spec fn detects(&self, present: Seq<Seq<char>>) -> bool {
        present.contains("package.json"@)
    }

    fn detect(&self, present: &Vec<String>) -> (r: bool) {
        is_present(present, "package.json")
    }

    fn would_panic(&self, out: &ParserOutput, files: &ProjectFiles) -> (r: bool) {
        let r = self.analyze_parts(out, files);
        match r {
            Ok((declared, used, blob)) => {
                if read_lockfile(files.files.get("package-lock.json")).is_err() {
                    return false;
                }
                let ghost ds = views(declared@);
                let mut i: usize = 0;
                while i < declared.len()
                    invariant
                        ds == views(declared@),
                        node_outcome(out@, files@) is Ok,
                        ds == node_declared(lookup(files@, "package.json"@)->0),
                        views(used@) == node_used(out@.imports),
                        blob@ == node_config_blob(lookup(files@, "package.json"@)->0, files@),
                        i <= ds.len(),
                        forall|j: int|
                            0 <= j < i && early_hint(ds[j], views(used@), files@) is None
                                ==> !token_scan_panics(blob@, #[trigger] ds[j].raw_name),
                    decreases ds.len() - i,
                {
                    assert(ds[i as int] == declared@[i as int]@);
                    if early_hint_exec(&declared[i], &used, &files.files).is_none() {
                        if token_scan_would_panic(blob.as_str(), declared[i].raw_name.as_str()) {
                            assert(!node_scan_safe(ds, views(used@), blob@, files@)) by {
                                assert(token_scan_panics(blob@, ds[i as int].raw_name));
                            }
                            return true;
                        }
                    }
                    i += 1;
                }
                false
            },
            Err(_) => false,
        }
    }

    fn analyze(&self, out: &ParserOutput, files: &ProjectFiles) -> (r: Result<Analysis, AnalyzeError>) {
        let (declared, used, blob) = match self.analyze_parts(out, files) {
            Ok(parts) => parts,
            Err(e) => {
                return Err(e);
            },
        };
        let installed = match read_lockfile(files.files.get("package-lock.json")) {
            Ok(m) => m,
            Err(e) => {
                return Err(e);
            },
        };
        let usage_hints = compute_hints(&declared, &used, blob.as_str(), &files.files);
        Ok(
            Analysis {
                language: "node".to_string(),
                declared: declared,
                installed: installed,
                used: used,
                usage_hints: usage_hints,
            },
        )
    }
}

impl NodeAdapter {
    /// The declared deps, the resolved imports and the config text, or the
    /// error the analysis ends with.
    fn analyze_parts(&self, out: &ParserOutput, files: &ProjectFiles) -> (r: Result<
        (Vec<DeclaredDep>, Vec<Usage>, String),
        AnalyzeError,
    >)
        ensures
            match r {
                Ok((declared, used, blob)) => lookup(files@, "package.json"@) is Some && json_value(
                    lookup(files@, "package.json"@)->0,
                ) is Some && views(declared@) == node_declared(lookup(files@, "package.json"@)->0)
                    && views(used@) == node_used(out@.imports) && blob@ == node_config_blob(
                    lookup(files@, "package.json"@)->0,
                    files@,
                ) && (node_outcome(out@, files@) is Ok <==> node_installed(
                    lookup(files@, "package-lock.json"@),
                ) is Ok),
                Err(e) => node_outcome(out@, files@) == Err::<AnalysisView, AnalyzeErrorView>(e@),
            },
    {
        let used = used_of(&out.imports);
        let pkg = match files.files.get("package.json") {
            Some(p) => p,
            None => {
                return Err(AnalyzeError::MissingFile("package.json".to_string()));
            },
        };
        let declared = match read_declared(pkg.as_str()) {
            Ok(d) => d,
            Err(e) => {
                return Err(e);
            },
        };
        let blob = config_blob(pkg.as_str(), &files.files);
        Ok((declared, used, blob))
    }
}

proof fn lemma_lock_packages_unique(es: Seq<(Seq<char>, Seq<char>)>)
    ensures
        keys_unique(lock_packages(es)),
    decreases es.len(),
{
    if es.len() > 0 {
        lemma_lock_packages_unique(es.drop_last());
        let e = es.last();
        if e.0.len() != 0 {
            let name = lock_name(e.0);
            law_insert_then_lookup(lock_packages(es.drop_last()), spec_normalize(name), spec_resolved(name, e.1));
        }
    }
}

proof fn lemma_lock_v1_unique(es: Seq<(Seq<char>, Seq<char>)>)
    ensures
        keys_unique(lock_v1(es)),
    decreases es.len(),
{
    if es.len() > 0 {
        lemma_lock_v1_unique(es.drop_last());
        let e = es.last();
        law_insert_then_lookup(lock_v1(es.drop_last()), spec_normalize(e.0), spec_resolved(e.0, e.1));
    }
}

/// The installed table read from a lockfile has one entry per normalized
/// name.
pub proof fn law_node_installed_unique(p: Option<ParsedView>)
    ensures
        keys_unique(lock_installed(p)),
{
    match json_at(member_text(p, "packages"@)) {
        Some(ParsedView::Table(es)) => lemma_lock_packages_unique(es),
        _ => match json_at(member_text(p, "dependencies"@)) {
            Some(ParsedView::Table(es)) => lemma_lock_v1_unique(es),
            _ => {},
        },
    }
}

/// The hint table has one entry per name, and every entry is about a
/// declared dependency (keyed by its normalized name).
pub proof fn law_node_hints_about_declared(
    ds: Seq<DeclaredDepView>,
    used: Seq<UsageView>,
    blob: Seq<char>,
    files: Seq<(Seq<char>, Seq<char>)>,
)
    ensures
        keys_unique(node_hints(ds, used, blob, files)),
        forall|i: int|
            0 <= i < node_hints(ds, used, blob, files).len() ==> exists|j: int|
                0 <= j < ds.len() && ds[j].name == (#[trigger] node_hints(ds, used, blob, files)[i]).0,
    decreases ds.len(),
{
    if ds.len() > 0 {
        let d = ds.drop_last();
        law_node_hints_about_declared(d, used, blob, files);
        let m = node_hints(d, used, blob, files);
        assert forall|j: int| 0 <= j < d.len() implies #[trigger] d[j] == ds[j] by {}
        match node_hint(ds.last(), used, blob, files) {
            Some(r) => {
                law_insert_then_lookup(m, ds.last().name, r);
                lemma_insert_keys(m, ds.last().name, r);
                let n = assoc_insert(m, ds.last().name, r);
                assert forall|i: int| 0 <= i < n.len() implies exists|j: int|
                    0 <= j < ds.len() && ds[j].name == (#[trigger] n[i]).0 by {
                    if n[i].0 == ds.last().name {
                        assert(ds[ds.len() - 1] == ds.last());
                    } else {
                        let j2 = choose|j2: int| 0 <= j2 < m.len() && m[j2].0 == n[i].0;
                        let j = choose|j: int| 0 <= j < d.len() && d[j].name == (#[trigger] m[j2]).0;
                        assert(ds[j] == d[j]);
                    }
                }
            },
            None => {
                assert forall|i: int| 0 <= i < m.len() implies exists|j: int|
                    0 <= j < ds.len() && ds[j].name == (#[trigger] m[i]).0 by {
                    let j = choose|j: int| 0 <= j < d.len() && d[j].name == (#[trigger] m[i]).0;
                    assert(ds[j] == d[j]);
                }
            },
        }
    }
}

proof fn lemma_section_normalized(p: Option<ParsedView>, field: Seq<char>, kind: DepKind)
    ensures
        names_normalized(declared_section(p, field, kind)),
{
    let ks = keys_of(json_at(member_text(p, field)));
    let sec = declared_section(p, field, kind);
    assert forall|i: int| 0 <= i < sec.len() implies is_normalized(#[trigger] sec[i].name) by {
        law_normalize_canonical(ks[i]);
    }
}

proof fn lemma_declared_normalized(p: Option<ParsedView>)
    ensures
        names_normalized(declared_of(p)),
{
    let a = declared_section(p, "dependencies"@, DepKind::Prod);
    let b = declared_section(p, "devDependencies"@, DepKind::Dev);
    let c = declared_section(p, "optionalDependencies"@, DepKind::Optional);
    let d = declared_section(p, "peerDependencies"@, DepKind::Peer);
    lemma_section_normalized(p, "dependencies"@, DepKind::Prod);
    lemma_section_normalized(p, "devDependencies"@, DepKind::Dev);
    lemma_section_normalized(p, "optionalDependencies"@, DepKind::Optional);
    lemma_section_normalized(p, "peerDependencies"@, DepKind::Peer);
    lemma_names_concat(a, b);
    lemma_names_concat(a + b, c);
    lemma_names_concat(a + b + c, d);
}

proof fn lemma_used_normalized(imports: Seq<SourceImportView>)
    ensures
        packages_normalized(node_used(imports)),
    decreases imports.len(),
{
    if imports.len() > 0 {
        lemma_used_normalized(imports.drop_last());
        let rest = node_used(imports.drop_last());
        match package_of_specifier(imports.last().specifier) {
            Some(p) => {
                law_normalize_canonical(package_root(imports.last().specifier)->0);
                let r = rest.push(UsageView { package: p, import: imports.last() });
                assert forall|i: int| 0 <= i < r.len() implies is_normalized(#[trigger] r[i].package) by {
                    if i < rest.len() {
                        assert(r[i] == rest[i]);
                    }
                }
            },
            None => {},
        }
    }
}

proof fn lemma_lock_keys_normalized(es: Seq<(Seq<char>, Seq<char>)>)
    ensures
        keys_normalized(lock_packages(es)),
        keys_normalized(lock_v1(es)),
    decreases es.len(),
{
    if es.len() > 0 {
        lemma_lock_keys_normalized(es.drop_last());
        let e = es.last();
        if e.0.len() != 0 {
            let name = lock_name(e.0);
            law_normalize_canonical(name);
            lemma_insert_normalized(lock_packages(es.drop_last()), spec_normalize(name), spec_resolved(name, e.1));
        }
        law_normalize_canonical(e.0);
        lemma_insert_normalized(lock_v1(es.drop_last()), spec_normalize(e.0), spec_resolved(e.0, e.1));
    }
}

/// Every name the Node analysis compares is in normalized form: each
/// declared name, each imported package and each installed package's key.
pub proof fn law_node_names_normalized(out: ParserOutputView, files: Seq<(Seq<char>, Seq<char>)>)
    ensures
        node_outcome(out, files) matches Ok(a) ==> names_normalized(a.declared)
            && packages_normalized(a.used) && keys_normalized(a.installed),
{
    match lookup(files, "package.json"@) {
        Some(pkg) => {
            lemma_declared_normalized(json_value(pkg));
            lemma_used_normalized(out.imports);
            match lookup(files, "package-lock.json"@) {
                Some(t) => match json_value(t) {
                    Some(v) => {
                        match json_at(member_text(Some(v), "packages"@)) {
                            Some(ParsedView::Table(es)) => lemma_lock_keys_normalized(es),
                            _ => match json_at(member_text(Some(v), "dependencies"@)) {
                                Some(ParsedView::Table(es)) => lemma_lock_keys_normalized(es),
                                _ => {},
                            },
                        }
                    },
                    None => {},
                },
                None => {},
            }
        },
        None => {},
    }
}

// ---------------------------------------------------------------------------
// What package.json declares
// ---------------------------------------------------------------------------

/// The four dependency tables of package.json and the kind each declares.
pub open spec fn is_dep_table(field: Seq<char>, kind: DepKind) -> bool {
    ||| field == "dependencies"@ && kind == DepKind::Prod
    ||| field == "devDependencies"@ && kind == DepKind::Dev
    ||| field == "optionalDependencies"@ && kind == DepKind::Optional
    ||| field == "peerDependencies"@ && kind == DepKind::Peer
}

/// The keys of table `field` of the package.json text `pkg`.
pub open spec fn table_keys(pkg: Seq<char>, field: Seq<char>) -> Seq<Seq<char>> {
    keys_of(json_at(member_text(json_value(pkg), field)))
}

/// Every key of each of the four dependency tables of package.json is a
/// declared dependency of that table's kind, under its normalized name.
pub proof fn law_node_declares_every_key(pkg: Seq<char>, field: Seq<char>, kind: DepKind, i: int)
    requires
        is_dep_table(field, kind),
        0 <= i < table_keys(pkg, field).len(),
    ensures
        node_declared(pkg).contains(
            DeclaredDepView {
                name: spec_normalize(table_keys(pkg, field)[i]),
                raw_name: table_keys(pkg, field)[i],
                kind: kind,
                manifest: "package.json"@,
            },
        ),
{
    let p = json_value(pkg);
    let k = table_keys(pkg, field)[i];
    let e = DeclaredDepView { name: spec_normalize(k), raw_name: k, kind: kind, manifest: "package.json"@ };
    let a = declared_section(p, "dependencies"@, DepKind::Prod);
    let b = declared_section(p, "devDependencies"@, DepKind::Dev);
    let c = declared_section(p, "optionalDependencies"@, DepKind::Optional);
    let d = declared_section(p, "peerDependencies"@, DepKind::Peer);
    assert(declared_section(p, field, kind)[i] == e);
    assert(declared_section(p, field, kind).contains(e));
    if field == "dependencies"@ && kind == DepKind::Prod {
        lemma_contains_left(a, b, e);
        lemma_contains_left(a + b, c, e);
        lemma_contains_left(a + b + c, d, e);
    } else if field == "devDependencies"@ && kind == DepKind::Dev {
        lemma_contains_right(a, b, e);
        lemma_contains_left(a + b, c, e);
        lemma_contains_left(a + b + c, d, e);
    } else if field == "optionalDependencies"@ && kind == DepKind::Optional {
        lemma_contains_right(a + b, c, e);
        lemma_contains_left(a + b + c, d, e);
    } else {
        lemma_contains_right(a + b + c, d, e);
    }
}

/// Every declared dependency of package.json is a key of one of its four
/// dependency tables, with that table's kind and its normalized name.
pub proof fn law_node_declared_from_tables(pkg: Seq<char>, j: int)
    requires
        0 <= j < node_declared(pkg).len(),
    ensures
        exists|field: Seq<char>, kind: DepKind, i: int|
            #![trigger is_dep_table(field, kind), table_keys(pkg, field)[i]]
            is_dep_table(field, kind) && 0 <= i < table_keys(pkg, field).len()
                && node_declared(pkg)[j] == (DeclaredDepView {
                name: spec_normalize(table_keys(pkg, field)[i]),
                raw_name: table_keys(pkg, field)[i],
                kind: kind,
                manifest: "package.json"@,
            }),
{
    let p = json_value(pkg);
    let a = declared_section(p, "dependencies"@, DepKind::Prod);
    let b = declared_section(p, "devDependencies"@, DepKind::Dev);
    let c = declared_section(p, "optionalDependencies"@, DepKind::Optional);
    let d = declared_section(p, "peerDependencies"@, DepKind::Peer);
    let all = a + b + c + d;
    assert(node_declared(pkg) == all);
    if j < a.len() {
        assert(all[j] == a[j]);
        assert(is_dep_table("dependencies"@, DepKind::Prod));
        let _ = table_keys(pkg, "dependencies"@)[j];
    } else if j < a.len() + b.len() {
        assert(all[j] == b[j - a.len()]);
        assert(is_dep_table("devDependencies"@, DepKind::Dev));
        let _ = table_keys(pkg, "devDependencies"@)[j - a.len()];
    } else if j < a.len() + b.len() + c.len() {
        assert(all[j] == c[j - a.len() - b.len()]);
        assert(is_dep_table("optionalDependencies"@, DepKind::Optional));
        let _ = table_keys(pkg, "optionalDependencies"@)[j - a.len() - b.len()];
    } else {
        assert(all[j] == d[j - a.len() - b.len() - c.len()]);
        assert(is_dep_table("peerDependencies"@, DepKind::Peer));
        let _ = table_keys(pkg, "peerDependencies"@)[j - a.len() - b.len() - c.len()];
    }
}

// ---------------------------------------------------------------------------
// Which package an import names
// ---------------------------------------------------------------------------

/// An unscoped bare specifier names the package of its first path segment
/// (what precedes its first `/`): `lodash/fp/map` is a use of `lodash`.
/// The name is normalized; a builtin module names no package.
pub proof fn law_unscoped_first_segment(spec: Seq<char>, i: int)
    requires
        spec.len() > 0,
        spec[0] != '.' && spec[0] != '/' && spec[0] != '@',
        !is_prefix("node:"@, spec),
        0 <= i <= spec.len(),
        forall|j: int| 0 <= j < i ==> spec[j] != '/',
        i == spec.len() || spec[i] == '/',
    ensures
        package_of_specifier(spec) == (if is_builtin_name(spec.take(i)) {
            None
        } else {
            Some(spec_normalize(spec.take(i)))
        }),
{
    lemma_first_occ_char(spec, '/', i);
}

/// A scoped specifier `@scope/pkg/...` names the package `@scope/pkg`: all
/// up to its second `/` (or its end); with no `/` at all it names nothing.
pub proof fn law_scoped_two_segments(spec: Seq<char>, i: int, k: int)
    requires
        spec.len() > 0,
        spec[0] == '@',
        1 <= i <= spec.len(),
        forall|j: int| 1 <= j < i ==> spec[j] != '/',
        i == spec.len() || spec[i] == '/',
        i < spec.len() ==> i < k <= spec.len() && (forall|j: int| i < j < k ==> spec[j] != '/') && (
        k == spec.len() || spec[k] == '/'),
    ensures
        i == spec.len() ==> package_of_specifier(spec) is None,
        i < spec.len() ==> package_of_specifier(spec) == (if is_builtin_name(spec.take(k)) {
            None
        } else {
            Some(spec_normalize(spec.take(k)))
        }),
{
    assert(!is_prefix("node:"@, spec)) by {
        reveal_strlit("node:");
        if is_prefix("node:"@, spec) {
            assert(spec.subrange(0, 5)[0] == spec[0]);
        }
    }
    let scoped = spec.drop_first();
    assert forall|j: int| 0 <= j < i - 1 implies scoped[j] != '/' by {
        assert(scoped[j] == spec[j + 1]);
    }
    if i < spec.len() {
        assert(scoped[i - 1] == spec[i]);
        lemma_first_occ_char(scoped, '/', i - 1);
        let rest = scoped.skip(i);
        assert(rest =~= spec.skip(i + 1));
        assert forall|j: int| 0 <= j < k - i - 1 implies rest[j] != '/' by {
            assert(rest[j] == spec[j + i + 1]);
        }
        if k < spec.len() {
            assert(rest[k - i - 1] == spec[k]);
        }
        lemma_first_occ_char(rest, '/', k - i - 1);
        assert(seq!['@'] + scoped.take(i - 1) + seq!['/'] + rest.take(k - i - 1) =~= spec.take(k));
    } else {
        lemma_first_occ_char(scoped, '/', i - 1);
    }
}

// ---------------------------------------------------------------------------
// What package-lock.json lists
// ---------------------------------------------------------------------------

proof fn lemma_lock_packages_has(es: Seq<(Seq<char>, Seq<char>)>, i: int)
    requires
        0 <= i < es.len(),
        es[i].0.len() > 0,
    ensures
        lookup(lock_packages(es), spec_normalize(lock_name(es[i].0))) is Some,
    decreases es.len(),
{
    let d = es.drop_last();
    let e = es.last();
    lemma_lock_packages_unique(d);
    let k = spec_normalize(lock_name(es[i].0));
    if i == es.len() - 1 {
        law_insert_then_lookup(lock_packages(d), k, spec_resolved(lock_name(e.0), e.1));
    } else {
        assert(d[i] == es[i]);
        lemma_lock_packages_has(d, i);
        if e.0.len() != 0 {
            let name = lock_name(e.0);
            law_insert_then_lookup(lock_packages(d), spec_normalize(name), spec_resolved(name, e.1));
        }
    }
}

proof fn lemma_lock_v1_has(es: Seq<(Seq<char>, Seq<char>)>, i: int)
    requires
        0 <= i < es.len(),
    ensures
        lookup(lock_v1(es), spec_normalize(es[i].0)) is Some,
    decreases es.len(),
{
    let d = es.drop_last();
    let e = es.last();
    lemma_lock_v1_unique(d);
    law_insert_then_lookup(lock_v1(d), spec_normalize(e.0), spec_resolved(e.0, e.1));
    if i < es.len() - 1 {
        assert(d[i] == es[i]);
        lemma_lock_v1_has(d, i);
    }
}

/// Every package a lockfile lists is installed: each entry of the
/// `packages` table but the root project's (empty path), under the
/// normalized name that follows its last `node_modules/`; or, for a
/// lockfile without that table, each entry of `dependencies` under its
/// normalized name.
pub proof fn law_node_lockfile_lists_every_package(p: Option<ParsedView>, es: Seq<(Seq<char>, Seq<char>)>, i: int)
    requires
        json_at(member_text(p, "packages"@)) == Some(ParsedView::Table(es))
            || (!(json_at(member_text(p, "packages"@)) matches Some(ParsedView::Table(_)))
            && json_at(member_text(p, "dependencies"@)) == Some(ParsedView::Table(es))),
        0 <= i < es.len(),
    ensures
        json_at(member_text(p, "packages"@)) == Some(ParsedView::Table(es)) && es[i].0.len() > 0
            ==> lookup(lock_installed(p), spec_normalize(lock_name(es[i].0))) is Some,
        json_at(member_text(p, "packages"@)) != Some(ParsedView::Table(es))
            ==> lookup(lock_installed(p), spec_normalize(es[i].0)) is Some,
{
    if json_at(member_text(p, "packages"@)) == Some(ParsedView::Table(es)) {
        if es[i].0.len() > 0 {
            lemma_lock_packages_has(es, i);
        }
    } else {
        lemma_lock_v1_has(es, i);
    }
}

// ---------------------------------------------------------------------------
// Which hint a declared dependency gets
// ---------------------------------------------------------------------------

/// The hint table holds, for each declared name, the hint of the last dep
/// declared under that name.
pub proof fn law_node_hint_of_last(
    ds: Seq<DeclaredDepView>,
    used: Seq<UsageView>,
    blob: Seq<char>,
    files: Seq<(Seq<char>, Seq<char>)>,
    j: int,
)
    requires
        0 <= j < ds.len(),
        forall|k: int| j < k < ds.len() ==> (#[trigger] ds[k]).name != ds[j].name,
        node_hint(ds[j], used, blob, files) is Some,
    ensures
        lookup(node_hints(ds, used, blob, files), ds[j].name) == node_hint(ds[j], used, blob, files),
    decreases ds.len(),
{
    let d = ds.drop_last();
    law_node_hints_about_declared(d, used, blob, files);
    let m = node_hints(d, used, blob, files);
    if j == ds.len() - 1 {
        law_insert_then_lookup(m, ds[j].name, node_hint(ds[j], used, blob, files)->0);
    } else {
        assert forall|k: int| j < k < d.len() implies (#[trigger] d[k]).name != d[j].name by {
            assert(d[k] == ds[k]);
        }
        assert(d[j] == ds[j]);
        law_node_hint_of_last(d, used, blob, files, j);
        let last = ds.last();
        assert(last.name != ds[j].name) by {
            assert(ds[ds.len() - 1] == last);
        }
        match node_hint(last, used, blob, files) {
            Some(r) => law_insert_then_lookup(m, last.name, r),
            None => {},
        }
    }
}

/// The signals checked for a declared dependency, in order: type stubs
/// whose package is ambient or imported; an executable its installed
/// manifest ships; its name as a whole token of the config text; a plugin
/// naming convention.
pub proof fn law_node_hint_order(
    d: DeclaredDepView,
    used: Seq<UsageView>,
    blob: Seq<char>,
    files: Seq<(Seq<char>, Seq<char>)>,
)
    ensures
        ({
            let base = d.raw_name.skip(7);
            let stub = is_prefix("@types/"@, d.raw_name) && (strs(AMBIENT).contains(base) || is_used(
                used,
                spec_normalize(base),
            ));
            let bin = spec_pkg_bin(d.raw_name, lookup(files, bin_path(d.raw_name)));
            &&& stub ==> node_hint(d, used, blob, files) == Some("type stubs for `"@ + base + "`"@)
            &&& !stub && bin is Some ==> node_hint(d, used, blob, files) == Some(
                "provides executable `"@ + bin->0 + "`"@,
            )
            &&& !stub && bin is None && spec_contains_token(blob, d.raw_name) ==> node_hint(
                d,
                used,
                blob,
                files,
            ) == Some("referenced in config / scripts"@)
            &&& !stub && bin is None && !spec_contains_token(blob, d.raw_name) ==> node_hint(
                d,
                used,
                blob,
                files,
            ) == node_name_convention(d.raw_name)
        }),
{
    reveal_strlit("@types/");
}

/// A plugin named by a known prefix gets that prefix's reason, and any
/// other name holding `/eslint-plugin` is a scoped eslint plugin.
pub proof fn law_node_name_convention(raw: Seq<char>, i: int)
    requires
        0 <= i < 6,
        is_prefix(PATTERNS[i].0@, raw),
        forall|j: int| 0 <= j < i ==> !is_prefix(#[trigger] PATTERNS[j].0@, raw),
    ensures
        node_name_convention(raw) == Some(pattern_reason(PATTERNS[i].0@, PATTERNS[i].1@)),
{
    crate::adapters::lemma_first_pattern(raw, PATTERNS@);
    let f = first_pattern(raw, PATTERNS@);
    assert(PATTERNS@[i] == PATTERNS[i]);
    if f is Some {
        let x = f->0;
        if x < i {
            assert(PATTERNS@[x] == PATTERNS[x]);
        } else if x > i {
            assert(!is_prefix(PATTERNS@[i].0@, raw));
        }
    }
}

/// Every import that names a package is a use of it, in the order of the
/// imports: there is a usage for each such import, with the package it
/// names.
pub proof fn law_node_used_complete(imports: Seq<SourceImportView>, j: int)
    requires
        0 <= j < imports.len(),
        package_of_specifier(imports[j].specifier) is Some,
    ensures
        node_used(imports).contains(
            UsageView { package: package_of_specifier(imports[j].specifier)->0, import: imports[j] },
        ),
    decreases imports.len(),
{
    let e = UsageView { package: package_of_specifier(imports[j].specifier)->0, import: imports[j] };
    let rest = node_used(imports.drop_last());
    if j == imports.len() - 1 {
        assert(node_used(imports) == rest.push(e));
        assert(rest.push(e)[rest.len() as int] == e);
    } else {
        assert(imports.drop_last()[j] == imports[j]);
        law_node_used_complete(imports.drop_last(), j);
        let x = choose|x: int| 0 <= x < rest.len() && rest[x] == e;
        assert(node_used(imports)[x] == e);
    }
}

} // verus!
