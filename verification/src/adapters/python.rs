//! Python adapter.
//! declared: pyproject.toml / requirements.txt  ·  installed + import→package
//! map: what the Python parser reports from the project's environment  ·
//! imports: the same parser.

use vstd::prelude::*;
use crate::adapters::{
    append_files, file_text, first_pattern, is_present, match_pattern, pattern_reason, Adapter,
    AnalyzeError, AnalyzeErrorView, ParserOutput, ParserOutputView, ProjectFiles, PyInstalledView,
};
use crate::adapters::node::text_view;
use crate::doc::{
    entries_of, items_of, keys_of, member, member_text, parse_toml_document, parse_toml_value,
    parsed_view, str_of, toml_at, toml_document, toml_opt, toml_value, Entry, Parsed, ParsedView,
};
use crate::model::{
    lemma_contains_left, lemma_contains_right,
    assoc_insert, contains_token, is_normalized, key_index, keys_unique, law_insert_then_lookup,
    law_normalize_canonical, lemma_insert_keys, lemma_key_index, lemma_names_concat, lookup,
    names_normalized, normalize, packages_normalized, spec_contains_token, spec_normalize,
    token_scan_panics, views, Analysis, AnalysisView, DeclaredDep, DeclaredDepView, DepKind,
    ResolvedPkg, ResolvedPkgView, SourceImportView, StrMap, Usage, UsageView,
};
use crate::text::{
    ascii_lower, char_ascii_lower, char_is_ascii_alnum, chars_of, eq_ignore_ascii_case, has_prefix,
    is_ascii_alnum, is_prefix, list_contains, push_str, string_of, strip_pred, sub_chars,
    take_while, trim_by, trim_chars, trim_end_by, trim_start_by,
};

verus! {

pub struct PythonAdapter;

/// Config/build files that reference tools by name rather than importing them.
pub const CONFIG_FILES: [&'static str; 12] = [
    "setup.cfg", "tox.ini", ".pre-commit-config.yaml", ".flake8",
    "mypy.ini", "pytest.ini", ".isort.cfg", "noxfile.py",
    "Makefile", ".bandit", ".pylintrc", ".coveragerc",
];

/// Entry-point groups that indicate a package is invoked, not imported.
pub const ACTIVE_GROUPS: [&'static str; 3] = ["console_scripts", "gui_scripts", "pytest11"];

/// Naming conventions of plugins.
pub const PATTERNS: [(&'static str, &'static str); 4] = [
    ("pytest-", "pytest plugin"),
    ("flake8-", "flake8 plugin"),
    ("sphinxcontrib-", "sphinx extension"),
    ("pylint-", "pylint plugin"),
];

/// Files whose presence marks a Python project.
pub const MARKERS: [&'static str; 5] = [
    "pyproject.toml",
    "requirements.txt",
    "setup.py",
    "setup.cfg",
    "Pipfile",
];

pub open spec fn strs<const N: usize>(a: [&'static str; N]) -> Seq<Seq<char>> {
    a@.map_values(|x: &str| x@)
}

/// A list of names (such as the entry-point groups of a distribution).
pub struct Names(pub Vec<String>);

impl View for Names {
    type V = Seq<Seq<char>>;

    open spec fn view(&self) -> Seq<Seq<char>> {
        views(self.0@)
    }
}

// ---------------------------------------------------------------------------
// Requirement strings
// ---------------------------------------------------------------------------

/// Characters of a distribution name.
pub open spec fn is_name_char(c: char) -> bool {
    is_ascii_alnum(c) || c == '-' || c == '_' || c == '.'
}

pub open spec fn name_char_pred() -> spec_fn(char) -> bool {
    |c: char| is_name_char(c)
}

/// The bare package name at the start of a PEP 508 requirement string.
pub open spec fn req_name(spec: Seq<char>) -> Seq<char> {
    trim_by(take_while(spec, name_char_pred()), strip_pred(false))
}

/// What `push_req` adds for `spec`: one dep, or nothing when the name is
/// empty.
pub open spec fn pushed_req(spec: Seq<char>, kind: DepKind, manifest: Seq<char>) -> Seq<DeclaredDepView> {
    let n = req_name(spec);
    if n.len() == 0 {
        seq![]
    } else {
        seq![DeclaredDepView { name: spec_normalize(n), raw_name: n, kind: kind, manifest: manifest }]
    }
}

proof fn lemma_take_while(s: Seq<char>, p: spec_fn(char) -> bool, i: int)
    requires
        0 <= i <= s.len(),
        forall|j: int| 0 <= j < i ==> p(s[j]),
        i == s.len() || !p(s[i]),
    ensures
        take_while(s, p) == s.take(i),
    decreases i,
{
    if i > 0 {
        lemma_take_while(s.drop_first(), p, i - 1);
        assert(s.take(i) == seq![s[0]] + s.drop_first().take(i - 1));
    } else {
        assert(s.take(0) =~= Seq::<char>::empty());
    }
}

/// The longest prefix of distribution-name characters.
fn take_name(cs: &[char]) -> (r: Vec<char>)
    ensures
        r@ == take_while(cs@, name_char_pred()),
        forall|j: int| 0 <= j < r@.len() ==> is_name_char(#[trigger] r@[j]),
{
    let mut i: usize = 0;
    while i < cs.len() && (char_is_ascii_alnum(cs[i]) || cs[i] == '-' || cs[i] == '_' || cs[i] == '.')
        invariant
            i <= cs@.len(),
            forall|j: int| 0 <= j < i ==> is_name_char(cs@[j]),
        decreases cs@.len() - i,
    {
        i += 1;
    }
    proof {
        lemma_take_while(cs@, name_char_pred(), i as int);
    }
    sub_chars(cs, 0, i)
}

/// Extract the bare package name from a PEP 508 requirement string.
pub fn push_req(deps: &mut Vec<DeclaredDep>, spec: &str, kind: DepKind, manifest: &str)
    ensures
        views(final(deps)@) == views(old(deps)@) + pushed_req(spec@, kind, manifest@),
{
    let cs = chars_of(spec);
    let taken = take_name(cs.as_slice());
    let name = trim_chars(taken.as_slice(), false);
    if name.len() == 0 {
        assert(views(deps@) =~= views(deps@) + Seq::<DeclaredDepView>::empty());
        return;
    }
    let n = string_of(name.as_slice());
    let ghost before = deps@;
    deps.push(
        DeclaredDep {
            name: normalize(n.as_str()),
            raw_name: n,
            kind: kind,
            manifest: manifest.to_string(),
        },
    );
    assert(views(deps@) =~= views(before) + pushed_req(spec@, kind, manifest@));
}

/// The deps the requirement strings `ss` declare, in order.
pub open spec fn reqs_from(ss: Seq<Seq<char>>, kind: DepKind, manifest: Seq<char>) -> Seq<
    DeclaredDepView,
>
    decreases ss.len(),
{
    if ss.len() == 0 {
        seq![]
    } else {
        reqs_from(ss.drop_last(), kind, manifest) + pushed_req(ss.last(), kind, manifest)
    }
}

/// The strings among TOML value texts, in order.
pub open spec fn string_items(items: Seq<Seq<char>>) -> Seq<Seq<char>>
    decreases items.len(),
{
    if items.len() == 0 {
        seq![]
    } else {
        let rest = string_items(items.drop_last());
        match str_of(toml_value(items.last())) {
            Some(s) => rest.push(s),
            None => rest,
        }
    }
}

/// Member `key` of a parsed TOML table, parsed.
pub open spec fn toml_get(p: Option<ParsedView>, key: Seq<char>) -> Option<ParsedView> {
    toml_at(member_text(p, key))
}

/// pyproject.toml, parsed: nothing when it is absent or not TOML.
pub open spec fn py_doc(text: Option<Seq<char>>) -> Option<ParsedView> {
    match text {
        Some(t) => toml_document(t),
        None => None,
    }
}

fn toml_get_exec(p: Option<&Parsed>, key: &str) -> (r: Option<Parsed>)
    ensures
        match r {
            Some(x) => toml_get(parsed_view(p), key@) == Some(x@),
            None => toml_get(parsed_view(p), key@) is None,
        },
{
    toml_opt(member(p, key))
}

fn parse_pyproject(text: Option<&String>) -> (r: Option<Parsed>)
    ensures
        match r {
            Some(x) => py_doc(text_view(text)) == Some(x@),
            None => py_doc(text_view(text)) is None,
        },
{
    match text {
        Some(t) => parse_toml_document(t.as_str()),
        None => None,
    }
}

/// Pushes the requirement strings among the TOML value texts `items`.
fn push_string_items(deps: &mut Vec<DeclaredDep>, items: &Vec<String>, kind: DepKind, manifest: &str)
    ensures
        views(final(deps)@) == views(old(deps)@) + reqs_from(
            string_items(items@.map_values(|s: String| s@)),
            kind,
            manifest@,
        ),
{
    let ghost base = views(deps@);
    let ghost iv = items@.map_values(|s: String| s@);
    let mut i: usize = 0;
    while i < items.len()
        invariant
            iv == items@.map_values(|s: String| s@),
            i <= items@.len(),
            views(deps@) == base + reqs_from(string_items(iv.take(i as int)), kind, manifest@),
        decreases items@.len() - i,
    {
        assert(iv.take(i + 1).drop_last() == iv.take(i as int));
        assert(iv.take(i + 1).last() == items@[i as int]@);
        match parse_toml_value(items[i].as_str()) {
            Some(Parsed::Str(s)) => {
                let ghost prev = string_items(iv.take(i as int));
                assert(string_items(iv.take(i + 1)) == prev.push(s@));
                assert(prev.push(s@).drop_last() == prev);
                push_req(deps, s.as_str(), kind, manifest);
            },
            _ => {},
        }
        i += 1;
    }
    assert(iv.take(iv.len() as int) == iv);
}

// ---------------------------------------------------------------------------
// Naming conventions
// ---------------------------------------------------------------------------

pub open spec fn py_name_convention(name: Seq<char>) -> Option<Seq<char>> {
    match first_pattern(name, PATTERNS@) {
        Some(i) => Some(pattern_reason(PATTERNS@[i].0@, PATTERNS@[i].1@)),
        None => None,
    }
}

fn name_convention(name: &str) -> (r: Option<String>)
    ensures
        match r {
            Some(s) => py_name_convention(name@) == Some(s@),
            None => py_name_convention(name@) is None,
        },
{
    match_pattern(&PATTERNS, name)
}


// ---------------------------------------------------------------------------
// pyproject.toml / requirements.txt: declared dependencies
// ---------------------------------------------------------------------------

/// PEP 621 `[project].dependencies`.
pub open spec fn project_deps(py: Option<ParsedView>) -> Seq<DeclaredDepView> {
    reqs_from(
        string_items(items_of(toml_get(toml_get(py, "project"@), "dependencies"@))),
        DepKind::Prod,
        "pyproject.toml"@,
    )
}

/// PEP 621 `[project.optional-dependencies]`: every group, in key order.
pub open spec fn optional_deps(es: Seq<(Seq<char>, Seq<char>)>) -> Seq<DeclaredDepView>
    decreases es.len(),
{
    if es.len() == 0 {
        seq![]
    } else {
        optional_deps(es.drop_last()) + reqs_from(
            string_items(items_of(toml_value(es.last().1))),
            DepKind::Optional,
            "pyproject.toml"@,
        )
    }
}

/// Poetry `[tool.poetry.dependencies]` keys, except `python` (in any case).
pub open spec fn poetry_deps(keys: Seq<Seq<char>>) -> Seq<DeclaredDepView>
    decreases keys.len(),
{
    if keys.len() == 0 {
        seq![]
    } else {
        poetry_deps(keys.drop_last()) + if eq_ignore_ascii_case(keys.last(), "python"@) {
            seq![]
        } else {
            pushed_req(keys.last(), DepKind::Prod, "pyproject.toml"@)
        }
    }
}

/// The groups of `[project.optional-dependencies]`.
pub open spec fn optional_groups(py: Option<ParsedView>) -> Seq<(Seq<char>, Seq<char>)> {
    entries_of(toml_get(toml_get(py, "project"@), "optional-dependencies"@))
}

/// The keys of `[tool.poetry.dependencies]`.
pub open spec fn poetry_keys(py: Option<ParsedView>) -> Seq<Seq<char>> {
    keys_of(toml_get(toml_get(toml_get(py, "tool"@), "poetry"@), "dependencies"@))
}

/// Everything a parsed pyproject.toml declares.
pub open spec fn pyproject_declared(py: Option<ParsedView>) -> Seq<DeclaredDepView> {
    project_deps(py) + optional_deps(optional_groups(py)) + poetry_deps(poetry_keys(py))
}

/// The pieces of `s` between newlines (`split('\n')`).
pub open spec fn segments(s: Seq<char>) -> Seq<Seq<char>>
    decreases s.len(),
{
    if s.len() == 0 {
        seq![seq![]]
    } else {
        let g = segments(s.drop_last());
        if s.last() == '\n' {
            g.push(seq![])
        } else {
            g.update(g.len() - 1, g.last().push(s.last()))
        }
    }
}

/// A requirements.txt line, trimmed: blank lines, comments and options
/// (`-r`, `-e`, ...) declare nothing.
pub open spec fn requirement_line(l: Seq<char>) -> Seq<DeclaredDepView> {
    let t = trim_by(l, strip_pred(false));
    if t.len() == 0 || t[0] == '#' || t[0] == '-' {
        seq![]
    } else {
        pushed_req(t, DepKind::Prod, "requirements.txt"@)
    }
}

/// What the lines of requirements.txt declare. (The pieces between
/// newlines, trimmed, are the trimmed lines of `str::lines` plus at most one
/// final blank piece.)
pub open spec fn requirement_deps(lines: Seq<Seq<char>>) -> Seq<DeclaredDepView>
    decreases lines.len(),
{
    if lines.len() == 0 {
        seq![]
    } else {
        requirement_deps(lines.drop_last()) + requirement_line(lines.last())
    }
}

/// Everything the project declares: pyproject.toml (when present and
/// parsed), then requirements.txt (when present).
pub open spec fn py_declared(pyproject: Option<Seq<char>>, reqs: Option<Seq<char>>) -> Seq<
    DeclaredDepView,
> {
    pyproject_declared(py_doc(pyproject)) + match reqs {
        Some(t) => requirement_deps(segments(t)),
        None => seq![],
    }
}

fn eq_ignore_case(a: &str, b: &str) -> (r: bool)
    ensures
        r == eq_ignore_ascii_case(a@, b@),
{
    let ca = chars_of(a);
    let cb = chars_of(b);
    if ca.len() != cb.len() {
        return false;
    }
    let mut i: usize = 0;
    while i < ca.len()
        invariant
            ca@ == a@,
            cb@ == b@,
            ca@.len() == cb@.len(),
            i <= ca@.len(),
            forall|j: int| 0 <= j < i ==> ascii_lower(ca@[j]) == ascii_lower(cb@[j]),
        decreases ca@.len() - i,
    {
        if char_ascii_lower(ca[i]) != char_ascii_lower(cb[i]) {
            return false;
        }
        i += 1;
    }
    true
}

fn push_line(deps: &mut Vec<DeclaredDep>, line: &[char])
    ensures
        views(final(deps)@) == views(old(deps)@) + requirement_line(line@),
{
    let t = trim_chars(line, false);
    if t.len() == 0 || t[0] == '#' || t[0] == '-' {
        assert(views(deps@) =~= views(deps@) + Seq::<DeclaredDepView>::empty());
        return;
    }
    let s = string_of(t.as_slice());
    push_req(deps, s.as_str(), DepKind::Prod, "requirements.txt");
}

/// The dependencies a parsed pyproject.toml declares.
pub fn pyproject_deps_in(dref: Option<&Parsed>) -> (r: Vec<DeclaredDep>)
    ensures
        views(r@) == pyproject_declared(parsed_view(dref)),
{
    let ghost py = parsed_view(dref);
    let mut deps: Vec<DeclaredDep> = Vec::new();
    assert(views(deps@) =~= Seq::<DeclaredDepView>::empty());
    let project = toml_get_exec(dref, "project");
    // PEP 621: [project].dependencies (array of PEP 508 strings)
    match toml_get_exec(project.as_ref(), "dependencies") {
        Some(Parsed::Array(arr)) => {
            push_string_items(&mut deps, &arr, DepKind::Prod, "pyproject.toml");
        },
        _ => {},
    }
    assert(views(deps@) == project_deps(py));
    // PEP 621: [project.optional-dependencies]
    let ghost base = views(deps@);
    match toml_get_exec(project.as_ref(), "optional-dependencies") {
        Some(Parsed::Table(ms)) => {
            let ghost ev = ms@.map_values(|e: Entry| (e.key@, e.text@));
            let mut i: usize = 0;
            while i < ms.len()
                invariant
                    ev == ms@.map_values(|e: Entry| (e.key@, e.text@)),
                    i <= ms@.len(),
                    views(deps@) == base + optional_deps(ev.take(i as int)),
                decreases ms@.len() - i,
            {
                assert(ev.take(i + 1).drop_last() == ev.take(i as int));
                assert(ev.take(i + 1).last() == (ms@[i as int].key@, ms@[i as int].text@));
                match parse_toml_value(ms[i].text.as_str()) {
                    Some(Parsed::Array(arr)) => {
                        push_string_items(&mut deps, &arr, DepKind::Optional, "pyproject.toml");
                    },
                    _ => {
                        assert(string_items(items_of(toml_value(ms@[i as int].text@))) =~= Seq::<
                            Seq<char>,
                        >::empty());
                        assert(views(deps@) =~= views(deps@) + reqs_from(
                            Seq::<Seq<char>>::empty(),
                            DepKind::Optional,
                            "pyproject.toml"@,
                        ));
                    },
                }
                i += 1;
            }
            assert(ev.take(ms@.len() as int) == ev);
        },
        _ => {},
    }
    assert(views(deps@) == project_deps(py) + optional_deps(optional_groups(py)));
    // Poetry: [tool.poetry.dependencies] (table keyed by name)
    let ghost base2 = views(deps@);
    let tool = toml_get_exec(dref, "tool");
    let poetry = toml_get_exec(tool.as_ref(), "poetry");
    match toml_get_exec(poetry.as_ref(), "dependencies") {
        Some(Parsed::Table(ms)) => {
            let ghost keys = poetry_keys(py);
            assert(keys == ms@.map_values(|e: Entry| (e.key@, e.text@)).map_values(
                |e: (Seq<char>, Seq<char>)| e.0,
            ));
            assert(keys =~= ms@.map_values(|m: Entry| m.key@));
            let mut i: usize = 0;
            while i < ms.len()
                invariant
                    keys == ms@.map_values(|m: Entry| m.key@),
                    i <= ms@.len(),
                    views(deps@) == base2 + poetry_deps(keys.take(i as int)),
                decreases ms@.len() - i,
            {
                assert(keys.take(i + 1).drop_last() == keys.take(i as int));
                assert(keys.take(i + 1).last() == ms@[i as int].key@);
                if !eq_ignore_case(ms[i].key.as_str(), "python") {
                    push_req(&mut deps, ms[i].key.as_str(), DepKind::Prod, "pyproject.toml");
                } else {
                    assert(views(deps@) =~= views(deps@) + Seq::<DeclaredDepView>::empty());
                }
                i += 1;
            }
            assert(keys.take(ms@.len() as int) == keys);
        },
        _ => {},
    }
    assert(views(deps@) == pyproject_declared(py));
    deps
}

/// The dependencies pyproject.toml and requirements.txt declare.
pub fn read_declared(pyproject: Option<&String>, requirements: Option<&String>) -> (r: Vec<DeclaredDep>)
    ensures
        views(r@) == py_declared(text_view(pyproject), text_view(requirements)),
{
    let doc = parse_pyproject(pyproject);
    let mut deps = pyproject_deps_in(doc.as_ref());
    // requirements.txt
    match requirements {
        Some(txt) => {
            let ghost base3 = views(deps@);
            let cs = chars_of(txt.as_str());
            let mut cur: Vec<char> = Vec::new();
            let mut i: usize = 0;
            assert(cs@.take(0) =~= Seq::<char>::empty());
            assert(segments(cs@.take(0)).drop_last() =~= Seq::<Seq<char>>::empty());
            while i < cs.len()
                invariant
                    cs@ == txt@,
                    i <= cs@.len(),
                    segments(cs@.take(i as int)).len() >= 1,
                    views(deps@) == base3 + requirement_deps(segments(cs@.take(i as int)).drop_last()),
                    cur@ == segments(cs@.take(i as int)).last(),
                decreases cs@.len() - i,
            {
                let ghost g = segments(cs@.take(i as int));
                assert(cs@.take(i + 1).drop_last() == cs@.take(i as int));
                assert(cs@.take(i + 1).last() == cs@[i as int]);
                if cs[i] == '\n' {
                    push_line(&mut deps, cur.as_slice());
                    cur = Vec::new();
                    assert(segments(cs@.take(i + 1)) == g.push(seq![]));
                    assert(g.push(seq![]).drop_last() == g);
                    assert(g == g.drop_last().push(g.last()));
                    assert(cur@ =~= Seq::<char>::empty());
                } else {
                    cur.push(cs[i]);
                    let ghost g2 = g.update(g.len() - 1, g.last().push(cs@[i as int]));
                    assert(segments(cs@.take(i + 1)) == g2);
                    assert(g2.drop_last() =~= g.drop_last());
                }
                i += 1;
            }
            push_line(&mut deps, cur.as_slice());
            assert(cs@.take(cs@.len() as int) == cs@);
            let ghost g = segments(cs@);
            assert(g == g.drop_last().push(g.last()));
        },
        None => {},
    }
    deps
}


// ---------------------------------------------------------------------------
// Usage hints
// ---------------------------------------------------------------------------

/// Normalized names of the `[build-system].requires` entries.
pub open spec fn build_reqs(py: Option<ParsedView>) -> Seq<Seq<char>> {
    string_items(items_of(toml_get(toml_get(py, "build-system"@), "requires"@))).map_values(
        |s: Seq<char>| spec_normalize(take_while(s, name_char_pred())),
    )
}

/// Normalized names of every `[tool.<name>]` section.
pub open spec fn tool_names(py: Option<ParsedView>) -> Seq<Seq<char>> {
    keys_of(toml_get(py, "tool"@)).map_values(|k: Seq<char>| spec_normalize(k))
}

/// The config files the Python analysis scans, each followed by a newline.
pub open spec fn py_config_blob(files: Seq<(Seq<char>, Seq<char>)>) -> Seq<char> {
    file_text(files, strs(CONFIG_FILES))
}

/// Build backend / build-time requirements of pyproject.toml, by normalized
/// name.
pub fn build_system_reqs(pyproject: Option<&String>) -> (r: Vec<String>)
    ensures
        views(r@) == build_reqs(py_doc(text_view(pyproject))),
{
    let doc = parse_pyproject(pyproject);
    build_reqs_in(doc.as_ref())
}

/// Build backend / build-time requirements of a parsed pyproject.toml, by
/// normalized name.
pub fn build_reqs_in(dref: Option<&Parsed>) -> (r: Vec<String>)
    ensures
        views(r@) == build_reqs(parsed_view(dref)),
{
    let bs = toml_get_exec(dref, "build-system");
    let mut set: Vec<String> = Vec::new();
    match toml_get_exec(bs.as_ref(), "requires") {
        Some(Parsed::Array(arr)) => {
            let ghost iv = arr@.map_values(|s: String| s@);
            let ghost items = string_items(iv);
            let mut i: usize = 0;
            while i < arr.len()
                invariant
                    iv == arr@.map_values(|s: String| s@),
                    i <= arr@.len(),
                    views(set@) == string_items(iv.take(i as int)).map_values(
                        |s: Seq<char>| spec_normalize(take_while(s, name_char_pred())),
                    ),
                decreases arr@.len() - i,
            {
                assert(iv.take(i + 1).drop_last() == iv.take(i as int));
                assert(iv.take(i + 1).last() == arr@[i as int]@);
                match parse_toml_value(arr[i].as_str()) {
                    Some(Parsed::Str(s)) => {
                        let cs = chars_of(s.as_str());
                        let name = take_name(cs.as_slice());
                        let ns = string_of(name.as_slice());
                        let ghost before = set@;
                        set.push(normalize(ns.as_str()));
                        assert(views(set@) =~= views(before).push(set@.last()@));
                    },
                    _ => {},
                }
                i += 1;
            }
            assert(iv.take(arr@.len() as int) == iv);
        },
        _ => {
            assert(views(set@) =~= build_reqs(parsed_view(dref)));
        },
    }
    set
}

/// Normalized names of every `[tool.<name>]` section in pyproject.toml.
pub fn tool_sections(pyproject: Option<&String>) -> (r: Vec<String>)
    ensures
        views(r@) == tool_names(py_doc(text_view(pyproject))),
{
    let doc = parse_pyproject(pyproject);
    tools_in(doc.as_ref())
}

/// Normalized names of every `[tool.<name>]` section of a parsed
/// pyproject.toml.
pub fn tools_in(dref: Option<&Parsed>) -> (r: Vec<String>)
    ensures
        views(r@) == tool_names(parsed_view(dref)),
{
    let mut set: Vec<String> = Vec::new();
    match toml_get_exec(dref, "tool") {
        Some(Parsed::Table(ms)) => {
            let mut i: usize = 0;
            while i < ms.len()
                invariant
                    i <= ms@.len(),
                    views(set@) == ms@.take(i as int).map_values(|m: Entry| spec_normalize(m.key@)),
                decreases ms@.len() - i,
            {
                let ghost before = set@;
                set.push(normalize(ms[i].key.as_str()));
                assert(views(set@) =~= views(before).push(set@.last()@));
                assert(ms@.take(i + 1).map_values(|m: Entry| spec_normalize(m.key@)) =~= ms@.take(
                    i as int,
                ).map_values(|m: Entry| spec_normalize(m.key@)).push(spec_normalize(ms@[i as int].key@)));
                i += 1;
            }
            assert(ms@.take(ms@.len() as int) == ms@);
            assert(views(set@) =~= tool_names(parsed_view(dref)));
        },
        _ => {
            assert(views(set@) =~= tool_names(parsed_view(dref)));
        },
    }
    set
}

fn config_blob(files: &StrMap<String>) -> (r: String)
    ensures
        r@ == py_config_blob(files@),
{
    let mut blob = String::new();
    append_files(&mut blob, files, &CONFIG_FILES);
    blob
}

/// The first of `gs` that is an active entry-point group.
pub open spec fn first_active(gs: Seq<Seq<char>>) -> Option<Seq<char>>
    decreases gs.len(),
{
    if gs.len() == 0 {
        None
    } else {
        match first_active(gs.drop_last()) {
            Some(g) => Some(g),
            None => if strs(ACTIVE_GROUPS).contains(gs.last()) {
                Some(gs.last())
            } else {
                None
            },
        }
    }
}

pub open spec fn entry_reason(g: Seq<char>) -> Seq<char> {
    (if g == "pytest11"@ {
        "pytest plugin"@
    } else {
        "CLI tool"@
    }) + " (entry point `"@ + g + "`)"@
}

/// The hints decided before any config scan: type stubs, an active entry
/// point, a build requirement, a `[tool.<name>]` section.
pub open spec fn py_early_hint(
    d: DeclaredDepView,
    groups: Seq<(Seq<char>, Seq<Seq<char>>)>,
    breqs: Seq<Seq<char>>,
    tools: Seq<Seq<char>>,
) -> Option<Seq<char>> {
    if is_prefix("types-"@, d.raw_name) {
        Some("type stubs for `"@ + d.raw_name.skip("types-"@.len() as int) + "`"@)
    } else {
        match (match lookup(groups, d.name) {
            Some(gs) => first_active(gs),
            None => None,
        }) {
            Some(g) => Some(entry_reason(g)),
            None => if breqs.contains(d.name) {
                Some("build-system requirement"@)
            } else if tools.contains(d.name) {
                Some("configured in [tool."@ + d.raw_name + "]"@)
            } else {
                None
            },
        }
    }
}

/// Why a declared dep is likely used despite no source import, if it is.
pub open spec fn py_hint(
    d: DeclaredDepView,
    groups: Seq<(Seq<char>, Seq<Seq<char>>)>,
    breqs: Seq<Seq<char>>,
    tools: Seq<Seq<char>>,
    blob: Seq<char>,
) -> Option<Seq<char>> {
    match py_early_hint(d, groups, breqs, tools) {
        Some(m) => Some(m),
        None => if spec_contains_token(blob, d.raw_name) {
            Some("referenced in config"@)
        } else {
            py_name_convention(d.name)
        },
    }
}

pub open spec fn py_hints(
    ds: Seq<DeclaredDepView>,
    groups: Seq<(Seq<char>, Seq<Seq<char>>)>,
    breqs: Seq<Seq<char>>,
    tools: Seq<Seq<char>>,
    blob: Seq<char>,
) -> Seq<(Seq<char>, Seq<char>)>
    decreases ds.len(),
{
    if ds.len() == 0 {
        seq![]
    } else {
        let m = py_hints(ds.drop_last(), groups, breqs, tools, blob);
        match py_hint(ds.last(), groups, breqs, tools, blob) {
            Some(r) => assoc_insert(m, ds.last().name, r),
            None => m,
        }
    }
}

/// No config scan of `ds` hits the case where the token search panics.
pub open spec fn py_scan_safe(
    ds: Seq<DeclaredDepView>,
    groups: Seq<(Seq<char>, Seq<Seq<char>>)>,
    breqs: Seq<Seq<char>>,
    tools: Seq<Seq<char>>,
    blob: Seq<char>,
) -> bool {
    forall|i: int|
        0 <= i < ds.len() && py_early_hint(ds[i], groups, breqs, tools) is None
            ==> !token_scan_panics(blob, #[trigger] ds[i].raw_name)
}

fn entry_reason_exec(g: &str) -> (r: String)
    ensures
        r@ == entry_reason(g@),
{
    let mut m = String::new();
    if crate::text::str_eq(g, "pytest11") {
        push_str(&mut m, "pytest plugin");
    } else {
        push_str(&mut m, "CLI tool");
    }
    push_str(&mut m, " (entry point `");
    push_str(&mut m, g);
    push_str(&mut m, "`)");
    m
}

fn first_active_exec(gs: &Names) -> (r: Option<&String>)
    ensures
        match r {
            Some(g) => first_active(gs@) == Some(g@),
            None => first_active(gs@) is None,
        },
{
    let v = &gs.0;
    let mut i: usize = 0;
    while i < v.len()
        invariant
            v == &gs.0,
            i <= v@.len(),
            first_active(views(v@).take(i as int)) is None,
        decreases v@.len() - i,
    {
        let ghost w = views(v@);
        assert(w.take(i + 1).drop_last() == w.take(i as int));
        assert(w.take(i + 1).last() == v@[i as int]@);
        let c = chars_of(v[i].as_str());
        if list_contains(&ACTIVE_GROUPS, c.as_slice()) {
            proof {
                lemma_first_active_prefix(w, i as int + 1);
            }
            return Some(&v[i]);
        }
        i += 1;
    }
    assert(views(v@).take(v@.len() as int) == views(v@));
    None
}

proof fn lemma_first_active_prefix(gs: Seq<Seq<char>>, n: int)
    requires
        0 <= n <= gs.len(),
        first_active(gs.take(n)) is Some,
    ensures
        first_active(gs) == first_active(gs.take(n)),
    decreases gs.len() - n,
{
    if n < gs.len() {
        assert(gs.take(n + 1).drop_last() == gs.take(n));
        assert(first_active(gs.take(n + 1)) == first_active(gs.take(n)));
        lemma_first_active_prefix(gs, n + 1);
    } else {
        assert(gs.take(n) == gs);
    }
}

fn py_early_hint_exec(
    d: &DeclaredDep,
    entry_groups: &StrMap<Names>,
    build_reqs: &Vec<String>,
    tool_sections: &Vec<String>,
) -> (r: Option<String>)
    ensures
        match r {
            Some(m) => py_early_hint(d@, entry_groups@, views(build_reqs@), views(tool_sections@))
                == Some(m@),
            None => py_early_hint(d@, entry_groups@, views(build_reqs@), views(tool_sections@)) is None,
        },
{
    let raw = chars_of(d.raw_name.as_str());
    let prefix = chars_of("types-");
    if has_prefix(raw.as_slice(), prefix.as_slice()) {
        let base = sub_chars(raw.as_slice(), prefix.len(), raw.len());
        let mut m = String::new();
        push_str(&mut m, "type stubs for `");
        let bs = string_of(base.as_slice());
        push_str(&mut m, bs.as_str());
        push_str(&mut m, "`");
        return Some(m);
    }
    match entry_groups.get(d.name.as_str()) {
        Some(groups) => match first_active_exec(groups) {
            Some(g) => {
                return Some(entry_reason_exec(g.as_str()));
            },
            None => {},
        },
        None => {},
    }
    if is_present(build_reqs, d.name.as_str()) {
        return Some("build-system requirement".to_string());
    }
    if is_present(tool_sections, d.name.as_str()) {
        let mut m = String::new();
        push_str(&mut m, "configured in [tool.");
        push_str(&mut m, d.raw_name.as_str());
        push_str(&mut m, "]");
        return Some(m);
    }
    None
}

/// Determine whether a declared dep is likely used despite no source import.
pub fn compute_hints(
    declared: &Vec<DeclaredDep>,
    entry_groups: &StrMap<Names>,
    build_reqs: &Vec<String>,
    tool_sections: &Vec<String>,
    blob: &str,
) -> (r: StrMap<String>)
    requires
        py_scan_safe(
            views(declared@),
            entry_groups@,
            views(build_reqs@),
            views(tool_sections@),
            blob@,
        ),
    ensures
        r@ == py_hints(
            views(declared@),
            entry_groups@,
            views(build_reqs@),
            views(tool_sections@),
            blob@,
        ),
{
    let ghost ds = views(declared@);
    let ghost bq = views(build_reqs@);
    let ghost ts = views(tool_sections@);
    let mut hints: StrMap<String> = StrMap::new();
    let mut i: usize = 0;
    while i < declared.len()
        invariant
            ds == views(declared@),
            bq == views(build_reqs@),
            ts == views(tool_sections@),
            py_scan_safe(ds, entry_groups@, bq, ts, blob@),
            i <= ds.len(),
            hints@ == py_hints(ds.take(i as int), entry_groups@, bq, ts, blob@),
        decreases ds.len() - i,
    {
        let d = &declared[i];
        proof {
            assert(ds.take(i + 1).drop_last() == ds.take(i as int));
            assert(ds.take(i + 1).last() == d@);
            assert(ds[i as int] == d@);
        }
        match py_early_hint_exec(d, entry_groups, build_reqs, tool_sections) {
            Some(m) => {
                hints.insert(d.name.clone(), m);
            },
            None => {
                if contains_token(blob, d.raw_name.as_str()) {
                    hints.insert(d.name.clone(), "referenced in config".to_string());
                } else {
                    match name_convention(d.name.as_str()) {
                        Some(reason) => {
                            hints.insert(d.name.clone(), reason);
                        },
                        None => {},
                    }
                }
            },
        }
        i += 1;
    }
    assert(ds.take(ds.len() as int) == ds);
    hints
}


// ---------------------------------------------------------------------------
// The adapter
// ---------------------------------------------------------------------------

/// Installed distributions by normalized name (a later report of the same
/// name replaces an earlier one).
pub open spec fn py_installed(ins: Seq<PyInstalledView>) -> Seq<(Seq<char>, ResolvedPkgView)>
    decreases ins.len(),
{
    if ins.len() == 0 {
        seq![]
    } else {
        let e = ins.last();
        assoc_insert(
            py_installed(ins.drop_last()),
            e.norm,
            ResolvedPkgView { name: e.name, version: e.version, requires: e.requires },
        )
    }
}

/// Entry-point groups of each installed distribution, by normalized name.
pub open spec fn py_groups(ins: Seq<PyInstalledView>) -> Seq<(Seq<char>, Seq<Seq<char>>)>
    decreases ins.len(),
{
    if ins.len() == 0 {
        seq![]
    } else {
        assoc_insert(py_groups(ins.drop_last()), ins.last().norm, ins.last().entry_groups)
    }
}

/// Import module name -> the (normalized) first distribution providing it.
pub open spec fn py_mod_map(m2d: Seq<(Seq<char>, Seq<Seq<char>>)>) -> Seq<(Seq<char>, Seq<char>)>
    decreases m2d.len(),
{
    if m2d.len() == 0 {
        seq![]
    } else {
        let m = py_mod_map(m2d.drop_last());
        let e = m2d.last();
        if e.1.len() > 0 {
            assoc_insert(m, e.0, spec_normalize(e.1[0]))
        } else {
            m
        }
    }
}

/// The imports whose module some installed distribution provides.
pub open spec fn py_used(imports: Seq<SourceImportView>, mm: Seq<(Seq<char>, Seq<char>)>) -> Seq<
    UsageView,
>
    decreases imports.len(),
{
    if imports.len() == 0 {
        seq![]
    } else {
        let rest = py_used(imports.drop_last(), mm);
        let imp = imports.last();
        match lookup(mm, imp.specifier) {
            Some(p) => rest.push(UsageView { package: p, import: imp }),
            None => rest,
        }
    }
}

/// The analysis of a Python project.
pub open spec fn py_analysis(out: ParserOutputView, files: Seq<(Seq<char>, Seq<char>)>) -> AnalysisView {
    let pt = lookup(files, "pyproject.toml"@);
    let py = py_doc(pt);
    let declared = py_declared(pt, lookup(files, "requirements.txt"@));
    AnalysisView {
        language: "python"@,
        declared: declared,
        installed: py_installed(out.installed),
        used: py_used(out.imports, py_mod_map(out.module_to_dist)),
        usage_hints: py_hints(
            declared,
            py_groups(out.installed),
            build_reqs(py),
            tool_names(py),
            py_config_blob(files),
        ),
    }
}

/// The inputs on which the Python analysis does not panic.
pub open spec fn py_accepts(out: ParserOutputView, files: Seq<(Seq<char>, Seq<char>)>) -> bool {
    let pt = lookup(files, "pyproject.toml"@);
    let py = py_doc(pt);
    py_scan_safe(
        py_declared(pt, lookup(files, "requirements.txt"@)),
        py_groups(out.installed),
        build_reqs(py),
        tool_names(py),
        py_config_blob(files),
    )
}

/// Every raw name starts with an ASCII character.
pub open spec fn ascii_led(ds: Seq<DeclaredDepView>) -> bool {
    forall|i: int|
        0 <= i < ds.len() ==> (#[trigger] ds[i]).raw_name.len() > 0 && (ds[i].raw_name[0] as u32)
            <= 0x7F
}

proof fn lemma_take_while_all(s: Seq<char>)
    ensures
        forall|j: int|
            0 <= j < take_while(s, name_char_pred()).len() ==> is_name_char(
                #[trigger] take_while(s, name_char_pred())[j],
            ),
    decreases s.len(),
{
    if s.len() > 0 && is_name_char(s[0]) {
        lemma_take_while_all(s.drop_first());
        let r = take_while(s, name_char_pred());
        assert forall|j: int| 0 <= j < r.len() implies is_name_char(#[trigger] r[j]) by {
            if j > 0 {
                assert(r[j] == take_while(s.drop_first(), name_char_pred())[j - 1]);
            }
        }
    }
}

proof fn lemma_trim_keeps(s: Seq<char>, p: spec_fn(char) -> bool)
    requires
        forall|j: int| 0 <= j < s.len() ==> is_name_char(#[trigger] s[j]),
    ensures
        forall|j: int|
            0 <= j < trim_by(s, p).len() ==> is_name_char(#[trigger] trim_by(s, p)[j]),
{
    lemma_trim_start_keeps(s, p);
    lemma_trim_end_keeps(trim_start_by(s, p), p);
}

proof fn lemma_trim_start_keeps(s: Seq<char>, p: spec_fn(char) -> bool)
    requires
        forall|j: int| 0 <= j < s.len() ==> is_name_char(#[trigger] s[j]),
    ensures
        forall|j: int|
            0 <= j < trim_start_by(s, p).len() ==> is_name_char(#[trigger] trim_start_by(s, p)[j]),
    decreases s.len(),
{
    if s.len() > 0 && p(s[0]) {
        let d = s.drop_first();
        assert forall|j: int| 0 <= j < d.len() implies is_name_char(#[trigger] d[j]) by {
            assert(d[j] == s[j + 1]);
        }
        lemma_trim_start_keeps(d, p);
        assert(trim_start_by(s, p) == trim_start_by(d, p));
    } else {
        assert(trim_start_by(s, p) == s);
    }
}

proof fn lemma_trim_end_keeps(s: Seq<char>, p: spec_fn(char) -> bool)
    requires
        forall|j: int| 0 <= j < s.len() ==> is_name_char(#[trigger] s[j]),
    ensures
        forall|j: int|
            0 <= j < trim_end_by(s, p).len() ==> is_name_char(#[trigger] trim_end_by(s, p)[j]),
    decreases s.len(),
{
    if s.len() > 0 && p(s.last()) {
        let d = s.drop_last();
        assert forall|j: int| 0 <= j < d.len() implies is_name_char(#[trigger] d[j]) by {
            assert(d[j] == s[j]);
        }
        lemma_trim_end_keeps(d, p);
        assert(trim_end_by(s, p) == trim_end_by(d, p));
    } else {
        assert(trim_end_by(s, p) == s);
    }
}

proof fn lemma_pushed_ascii(spec: Seq<char>, kind: DepKind, manifest: Seq<char>)
    ensures
        ascii_led(pushed_req(spec, kind, manifest)),
{
    lemma_take_while_all(spec);
    lemma_trim_keeps(take_while(spec, name_char_pred()), strip_pred(false));
    let n = req_name(spec);
    if n.len() > 0 {
        assert(is_name_char(n[0]));
    }
}

proof fn lemma_concat_ascii(a: Seq<DeclaredDepView>, b: Seq<DeclaredDepView>)
    requires
        ascii_led(a),
        ascii_led(b),
    ensures
        ascii_led(a + b),
{
    assert forall|i: int| 0 <= i < (a + b).len() implies (#[trigger] (a + b)[i]).raw_name.len() > 0
        && ((a + b)[i].raw_name[0] as u32) <= 0x7F by {
        if i < a.len() {
            assert((a + b)[i] == a[i]);
        } else {
            assert((a + b)[i] == b[i - a.len()]);
        }
    }
}

proof fn lemma_reqs_from_ascii(ss: Seq<Seq<char>>, kind: DepKind, manifest: Seq<char>)
    ensures
        ascii_led(reqs_from(ss, kind, manifest)),
    decreases ss.len(),
{
    if ss.len() > 0 {
        lemma_reqs_from_ascii(ss.drop_last(), kind, manifest);
        lemma_pushed_ascii(ss.last(), kind, manifest);
        lemma_concat_ascii(reqs_from(ss.drop_last(), kind, manifest), pushed_req(ss.last(), kind, manifest));
    }
}

proof fn lemma_optional_ascii(es: Seq<(Seq<char>, Seq<char>)>)
    ensures
        ascii_led(optional_deps(es)),
    decreases es.len(),
{
    if es.len() > 0 {
        lemma_optional_ascii(es.drop_last());
        let ss = string_items(items_of(toml_value(es.last().1)));
        lemma_reqs_from_ascii(ss, DepKind::Optional, "pyproject.toml"@);
        lemma_concat_ascii(optional_deps(es.drop_last()), reqs_from(ss, DepKind::Optional, "pyproject.toml"@));
    }
}

proof fn lemma_poetry_ascii(keys: Seq<Seq<char>>)
    ensures
        ascii_led(poetry_deps(keys)),
    decreases keys.len(),
{
    if keys.len() > 0 {
        lemma_poetry_ascii(keys.drop_last());
        lemma_pushed_ascii(keys.last(), DepKind::Prod, "pyproject.toml"@);
        let tail = if eq_ignore_ascii_case(keys.last(), "python"@) {
            Seq::<DeclaredDepView>::empty()
        } else {
            pushed_req(keys.last(), DepKind::Prod, "pyproject.toml"@)
        };
        lemma_concat_ascii(poetry_deps(keys.drop_last()), tail);
    }
}

proof fn lemma_requirement_ascii(lines: Seq<Seq<char>>)
    ensures
        ascii_led(requirement_deps(lines)),
    decreases lines.len(),
{
    if lines.len() > 0 {
        lemma_requirement_ascii(lines.drop_last());
        let t = trim_by(lines.last(), strip_pred(false));
        lemma_pushed_ascii(t, DepKind::Prod, "requirements.txt"@);
        lemma_concat_ascii(requirement_deps(lines.drop_last()), requirement_line(lines.last()));
    }
}

/// The Python analysis accepts every input: each declared raw name is a
/// distribution name, which starts with an ASCII character, so the config
/// scan never panics.
pub proof fn law_python_analysis_total(out: ParserOutputView, files: Seq<(Seq<char>, Seq<char>)>)
    ensures
        py_accepts(out, files),
{
    let pt = lookup(files, "pyproject.toml"@);
    let py = py_doc(pt);
    let reqs = lookup(files, "requirements.txt"@);
    lemma_reqs_from_ascii(
        string_items(items_of(toml_get(toml_get(py, "project"@), "dependencies"@))),
        DepKind::Prod,
        "pyproject.toml"@,
    );
    lemma_optional_ascii(optional_groups(py));
    lemma_poetry_ascii(poetry_keys(py));
    lemma_concat_ascii(project_deps(py), optional_deps(optional_groups(py)));
    lemma_concat_ascii(
        project_deps(py) + optional_deps(optional_groups(py)),
        poetry_deps(poetry_keys(py)),
    );
    let rq = match reqs {
        Some(t) => requirement_deps(segments(t)),
        None => seq![],
    };
    match reqs {
        Some(t) => {
            lemma_requirement_ascii(segments(t));
        },
        None => {},
    }
    lemma_concat_ascii(pyproject_declared(py), rq);
    let ds = py_declared(pt, reqs);
    assert forall|i: int|
        0 <= i < ds.len() && py_early_hint(
            ds[i],
            py_groups(out.installed),
            build_reqs(py),
            tool_names(py),
        ) is None implies !token_scan_panics(py_config_blob(files), #[trigger] ds[i].raw_name) by {
        assert(ascii_led(ds));
        assert(ds[i].raw_name.len() > 0);
    }
}

fn clone_strings(v: &Vec<String>) -> (r: Vec<String>)
    ensures
        views(r@) == views(v@),
{
    let mut r: Vec<String> = Vec::new();
    let mut i: usize = 0;
    while i < v.len()
        invariant
            i <= v@.len(),
            views(r@) == views(v@).take(i as int),
        decreases v@.len() - i,
    {
        let ghost before = r@;
        r.push(v[i].clone());
        assert(views(r@) == views(before).push(v@[i as int]@));
        assert(views(v@).take(i + 1) == views(v@).take(i as int).push(v@[i as int]@));
        i += 1;
    }
    assert(views(v@).take(v@.len() as int) == views(v@));
    r
}

// ---------------------------------------------------------------------------
// The interpreter that runs the parser
// ---------------------------------------------------------------------------

/// The project's own interpreters, relative to the project root, in order
/// of preference.
pub const LOCAL_PYTHONS: [&'static str; 3] = [".venv/bin/python", "venv/bin/python", "env/bin/python"];

/// Which interpreter runs the Python parser, so that the installed packages
/// it reports are the project's.
#[derive(Debug, Clone, Copy, PartialEq, Eq, Structural)]
pub enum PythonChoice {
    /// `bin/python` of the active virtual environment (`$VIRTUAL_ENV`).
    ActiveEnv,
    /// Entry `i` of `LOCAL_PYTHONS`.
    Local(usize),
    /// `python3` on the `PATH`.
    System,
}

/// Index of the first `true`.
pub open spec fn first_true(s: Seq<bool>) -> Option<int>
    decreases s.len(),
{
    if s.len() == 0 {
        None
    } else {
        match first_true(s.drop_last()) {
            Some(i) => Some(i),
            None => if s.last() {
                Some(s.len() - 1)
            } else {
                None
            },
        }
    }
}

/// The active environment's interpreter when it exists, else the first of
/// the project's own that exists, else `python3`.
pub open spec fn spec_choose_python(venv_ok: bool, local_ok: Seq<bool>) -> PythonChoice {
    if venv_ok {
        PythonChoice::ActiveEnv
    } else {
        match first_true(local_ok) {
            Some(i) => PythonChoice::Local(i as usize),
            None => PythonChoice::System,
        }
    }
}

/// Picks the interpreter, given whether the active environment's exists and
/// which of the project's own (`LOCAL_PYTHONS`) exist.
pub fn choose_python(venv_ok: bool, local_ok: &Vec<bool>) -> (r: PythonChoice)
    ensures
        r == spec_choose_python(venv_ok, local_ok@),
{
    if venv_ok {
        return PythonChoice::ActiveEnv;
    }
    let mut i: usize = 0;
    while i < local_ok.len()
        invariant
            !venv_ok,
            i <= local_ok@.len(),
            first_true(local_ok@.take(i as int)) is None,
        decreases local_ok@.len() - i,
    {
        assert(local_ok@.take(i + 1).drop_last() == local_ok@.take(i as int));
        if local_ok[i] {
            proof {
                assert(local_ok@.take(i + 1).last() == local_ok@[i as int]);
                assert(first_true(local_ok@.take(i + 1)) == Some(i as int));
                lemma_first_true_prefix(local_ok@, i as int + 1);
            }
            return PythonChoice::Local(i);
        }
        i += 1;
    }
    assert(local_ok@.take(local_ok@.len() as int) == local_ok@);
    PythonChoice::System
}

/// The interpreter preference: the active environment's when it exists;
/// otherwise the first of the project's own that exists; otherwise
/// `python3`.
pub proof fn law_python_preference(venv_ok: bool, local_ok: Seq<bool>, i: int)
    ensures
        venv_ok ==> spec_choose_python(venv_ok, local_ok) == PythonChoice::ActiveEnv,
        !venv_ok && 0 <= i < local_ok.len() && local_ok[i] && (forall|j: int|
            0 <= j < i ==> !#[trigger] local_ok[j]) ==> spec_choose_python(venv_ok, local_ok)
            == PythonChoice::Local(i as usize),
        !venv_ok && (forall|j: int| 0 <= j < local_ok.len() ==> !#[trigger] local_ok[j])
            ==> spec_choose_python(venv_ok, local_ok) == PythonChoice::System,
{
    if 0 <= i < local_ok.len() && local_ok[i] && (forall|j: int| 0 <= j < i ==> !#[trigger] local_ok[j]) {
        lemma_first_true_at(local_ok, i);
    }
    if forall|j: int| 0 <= j < local_ok.len() ==> !#[trigger] local_ok[j] {
        lemma_first_true_none(local_ok);
    }
}

proof fn lemma_first_true_at(s: Seq<bool>, i: int)
    requires
        0 <= i < s.len(),
        s[i],
        forall|j: int| 0 <= j < i ==> !#[trigger] s[j],
    ensures
        first_true(s) == Some(i),
    decreases s.len(),
{
    let d = s.drop_last();
    if i < s.len() - 1 {
        assert(d[i] == s[i]);
        assert forall|j: int| 0 <= j < i implies !#[trigger] d[j] by {
            assert(d[j] == s[j]);
        }
        lemma_first_true_at(d, i);
    } else {
        assert forall|j: int| 0 <= j < d.len() implies !#[trigger] d[j] by {
            assert(d[j] == s[j]);
        }
        lemma_first_true_none(d);
    }
}

proof fn lemma_first_true_none(s: Seq<bool>)
    requires
        forall|j: int| 0 <= j < s.len() ==> !#[trigger] s[j],
    ensures
        first_true(s) is None,
    decreases s.len(),
{
    if s.len() > 0 {
        let d = s.drop_last();
        assert forall|j: int| 0 <= j < d.len() implies !#[trigger] d[j] by {
            assert(d[j] == s[j]);
        }
        lemma_first_true_none(d);
        assert(s[s.len() - 1] == s.last());
    }
}

proof fn lemma_first_true_prefix(s: Seq<bool>, n: int)
    requires
        0 <= n <= s.len(),
        first_true(s.take(n)) is Some,
    ensures
        first_true(s) == first_true(s.take(n)),
    decreases s.len() - n,
{
    if n < s.len() {
        assert(s.take(n + 1).drop_last() == s.take(n));
        lemma_first_true_prefix(s, n + 1);
    } else {
        assert(s.take(n) == s);
    }
}

impl PythonAdapter {
    /// The project's own interpreters, relative to the project root, in
    /// order of preference.
    pub fn local_pythons() -> (r: &'static [&'static str; 3])
        ensures
            r@ == LOCAL_PYTHONS@,
    {
        &LOCAL_PYTHONS
    }

    /// The config files the analysis reads, relative to the project root.
    pub fn config_files() -> (r: &'static [&'static str; 12])
        ensures
            r@ == CONFIG_FILES@,
    {
        &CONFIG_FILES
    }

    /// The files whose presence marks a Python project.
    pub fn marker_files() -> (r: &'static [&'static str; 5])
        ensures
            r@ == MARKERS@,
    {
        &MARKERS
    }
}

impl Adapter for PythonAdapter {
    open spec fn accepts(&self, out: ParserOutputView, files: Seq<(Seq<char>, Seq<char>)>) -> bool {
        py_accepts(out, files)
    }

    open spec fn outcome(&self, out: ParserOutputView, files: Seq<(Seq<char>, Seq<char>)>) -> Result<
        AnalysisView,
        AnalyzeErrorView,
    > {
        Ok(py_analysis(out, files))
    }

    open spec fn name(&self) -> Seq<char> {
        "python"@
    }

    fn language(&self) -> (r: &'static str) {
        "python"
    }

    open spec fn detects(&self, present: Seq<Seq<char>>) -> bool {
        exists|i: int| 0 <= i < 5 && present.contains(#[trigger] strs(MARKERS)[i])
    }

    fn detect(&self, present: &Vec<String>) -> (r: bool) {
        let mut i: usize = 0;
        while i < 5
            invariant
                i <= 5,
                forall|j: int| 0 <= j < i ==> !views(present@).contains(#[trigger] strs(MARKERS)[j]),
            decreases 5 - i,
        {
            if is_present(present, MARKERS[i]) {
                assert(views(present@).contains(strs(MARKERS)[i as int]));
                return true;
            }
            i += 1;
        }
        false
    }

    fn would_panic(&self, out: &ParserOutput, files: &ProjectFiles) -> (r: bool) {
        proof {
            law_python_analysis_total(out@, files@);
        }
        false
    }

    fn analyze(&self, out: &ParserOutput, files: &ProjectFiles) -> (r: Result<Analysis, AnalyzeError>) {
        let ghost ov = out@;
        let mut installed: StrMap<ResolvedPkg> = StrMap::new();
        let mut groups: StrMap<Names> = StrMap::new();
        let mut i: usize = 0;
        while i < out.installed.len()
            invariant
                ov == out@,
                i <= ov.installed.len(),
                installed@ == py_installed(ov.installed.take(i as int)),
                groups@ == py_groups(ov.installed.take(i as int)),
            decreases ov.installed.len() - i,
        {
            let e = &out.installed[i];
            assert(ov.installed.take(i + 1).drop_last() == ov.installed.take(i as int));
            assert(ov.installed.take(i + 1).last() == e@);
            groups.insert(e.norm.clone(), Names(clone_strings(&e.entry_groups)));
            installed.insert(
                e.norm.clone(),
                ResolvedPkg {
                    name: e.name.clone(),
                    version: e.version.clone(),
                    requires: clone_strings(&e.requires),
                },
            );
            i += 1;
        }
        assert(ov.installed.take(ov.installed.len() as int) == ov.installed);
        // import module name -> distribution package name
        let mut mod_map: StrMap<String> = StrMap::new();
        let mut k: usize = 0;
        while k < out.module_to_dist.len()
            invariant
                ov == out@,
                k <= ov.module_to_dist.len(),
                mod_map@ == py_mod_map(ov.module_to_dist.take(k as int)),
            decreases ov.module_to_dist.len() - k,
        {
            let e = &out.module_to_dist[k];
            assert(ov.module_to_dist.take(k + 1).drop_last() == ov.module_to_dist.take(k as int));
            assert(ov.module_to_dist.take(k + 1).last() == (e.0@, views(e.1@)));
            if e.1.len() > 0 {
                assert(views(e.1@)[0] == e.1@[0]@);
                mod_map.insert(e.0.clone(), normalize(e.1[0].as_str()));
            }
            k += 1;
        }
        assert(ov.module_to_dist.take(ov.module_to_dist.len() as int) == ov.module_to_dist);
        let mut used: Vec<Usage> = Vec::new();
        let mut j: usize = 0;
        while j < out.imports.len()
            invariant
                ov == out@,
                mod_map@ == py_mod_map(ov.module_to_dist),
                j <= ov.imports.len(),
                views(used@) == py_used(ov.imports.take(j as int), mod_map@),
            decreases ov.imports.len() - j,
        {
            let imp = &out.imports[j];
            assert(ov.imports.take(j + 1).drop_last() == ov.imports.take(j as int));
            assert(ov.imports.take(j + 1).last() == imp@);
            match mod_map.get(imp.specifier.as_str()) {
                Some(pkg) => {
                    let ghost before = used@;
                    used.push(Usage { package: pkg.clone(), import: imp.clone() });
                    assert(views(used@) == views(before).push(used@.last()@));
                },
                None => {},
            }
            j += 1;
        }
        assert(ov.imports.take(ov.imports.len() as int) == ov.imports);
        let pyproject = files.files.get("pyproject.toml");
        let declared = read_declared(pyproject, files.files.get("requirements.txt"));
        let build_reqs = build_system_reqs(pyproject);
        let tools = tool_sections(pyproject);
        let blob = config_blob(&files.files);
        proof {
            law_python_analysis_total(out@, files@);
        }
        let usage_hints = compute_hints(&declared, &groups, &build_reqs, &tools, blob.as_str());
        Ok(
            Analysis {
                language: "python".to_string(),
                declared: declared,
                installed: installed,
                used: used,
                usage_hints: usage_hints,
            },
        )
    }
}


/// The hint table has one entry per name, and every entry is about a
/// declared dependency (keyed by its normalized name).
pub proof fn law_py_hints_about_declared(ds: Seq<DeclaredDepView>, groups: Seq<(Seq<char>, Seq<Seq<char>>)>, breqs: Seq<Seq<char>>, tools: Seq<Seq<char>>, blob: Seq<char>)
    ensures
        keys_unique(py_hints(ds, groups, breqs, tools, blob)),
        forall|i: int|
            0 <= i < py_hints(ds, groups, breqs, tools, blob).len() ==> exists|j: int|
                0 <= j < ds.len() && ds[j].name == (#[trigger] py_hints(ds, groups, breqs, tools, blob)[i]).0,
    decreases ds.len(),
{
    if ds.len() > 0 {
        let d = ds.drop_last();
        law_py_hints_about_declared(d, groups, breqs, tools, blob);
        let m = py_hints(d, groups, breqs, tools, blob);
        assert forall|j: int| 0 <= j < d.len() implies #[trigger] d[j] == ds[j] by {}
        match py_hint(ds.last(), groups, breqs, tools, blob) {
            Some(r) => {
                law_insert_then_lookup(m, ds.last().name, r);
                lemma_insert_keys(m, ds.last().name, r);
                let n = assoc_insert(m, ds.last().name, r);
                assert forall|i: int| 0 <= i < n.len() implies exists|j: int|
                    0 <= j < ds.len() && ds[j].name == (#[trigger] n[i]).0 by {
                    if n[i].0 == ds.last().name {
                        assert(ds[ds.len() - 1] == ds.last());
                    } else {
                        let j2 = choose|j2: int| 0 <= j2 < m.len() && m[j2].0 == n[i].0;
                        let j = choose|j: int| 0 <= j < d.len() && d[j].name == (#[trigger] m[j2]).0;
                        assert(ds[j] == d[j]);
                    }
                }
            },
            None => {
                assert forall|i: int| 0 <= i < m.len() implies exists|j: int|
                    0 <= j < ds.len() && ds[j].name == (#[trigger] m[i]).0 by {
                    let j = choose|j: int| 0 <= j < d.len() && d[j].name == (#[trigger] m[i]).0;
                    assert(ds[j] == d[j]);
                }
            },
        }
    }
}


/// The installed table, the entry-point table and the module table each have
/// one entry per name.
pub proof fn law_py_tables_unique(ins: Seq<PyInstalledView>, m2d: Seq<(Seq<char>, Seq<Seq<char>>)>)
    ensures
        keys_unique(py_installed(ins)),
        keys_unique(py_groups(ins)),
        keys_unique(py_mod_map(m2d)),
    decreases ins.len() + m2d.len(),
{
    if ins.len() > 0 {
        law_py_tables_unique(ins.drop_last(), m2d);
        let e = ins.last();
        law_insert_then_lookup(
            py_installed(ins.drop_last()),
            e.norm,
            ResolvedPkgView { name: e.name, version: e.version, requires: e.requires },
        );
        law_insert_then_lookup(py_groups(ins.drop_last()), e.norm, e.entry_groups);
    } else if m2d.len() > 0 {
        law_py_tables_unique(ins, m2d.drop_last());
        let e = m2d.last();
        if e.1.len() > 0 {
            law_insert_then_lookup(py_mod_map(m2d.drop_last()), e.0, spec_normalize(e.1[0]));
        }
    }
}

proof fn lemma_pushed_norm(spec: Seq<char>, kind: DepKind, manifest: Seq<char>)
    ensures
        names_normalized(pushed_req(spec, kind, manifest)),
{
    law_normalize_canonical(req_name(spec));
}

proof fn lemma_reqs_from_norm(ss: Seq<Seq<char>>, kind: DepKind, manifest: Seq<char>)
    ensures
        names_normalized(reqs_from(ss, kind, manifest)),
    decreases ss.len(),
{
    if ss.len() > 0 {
        lemma_reqs_from_norm(ss.drop_last(), kind, manifest);
        lemma_pushed_norm(ss.last(), kind, manifest);
        lemma_names_concat(reqs_from(ss.drop_last(), kind, manifest), pushed_req(ss.last(), kind, manifest));
    }
}

proof fn lemma_optional_norm(es: Seq<(Seq<char>, Seq<char>)>)
    ensures
        names_normalized(optional_deps(es)),
    decreases es.len(),
{
    if es.len() > 0 {
        lemma_optional_norm(es.drop_last());
        let ss = string_items(items_of(toml_value(es.last().1)));
        lemma_reqs_from_norm(ss, DepKind::Optional, "pyproject.toml"@);
        lemma_names_concat(optional_deps(es.drop_last()), reqs_from(ss, DepKind::Optional, "pyproject.toml"@));
    }
}

proof fn lemma_poetry_norm(keys: Seq<Seq<char>>)
    ensures
        names_normalized(poetry_deps(keys)),
    decreases keys.len(),
{
    if keys.len() > 0 {
        lemma_poetry_norm(keys.drop_last());
        lemma_pushed_norm(keys.last(), DepKind::Prod, "pyproject.toml"@);
        let tail = if eq_ignore_ascii_case(keys.last(), "python"@) {
            Seq::<DeclaredDepView>::empty()
        } else {
            pushed_req(keys.last(), DepKind::Prod, "pyproject.toml"@)
        };
        lemma_names_concat(poetry_deps(keys.drop_last()), tail);
    }
}

proof fn lemma_requirement_norm(lines: Seq<Seq<char>>)
    ensures
        names_normalized(requirement_deps(lines)),
    decreases lines.len(),
{
    if lines.len() > 0 {
        lemma_requirement_norm(lines.drop_last());
        let t = trim_by(lines.last(), strip_pred(false));
        lemma_pushed_norm(t, DepKind::Prod, "requirements.txt"@);
        lemma_names_concat(requirement_deps(lines.drop_last()), requirement_line(lines.last()));
    }
}

proof fn lemma_mod_map_norm(m2d: Seq<(Seq<char>, Seq<Seq<char>>)>)
    ensures
        forall|i: int| 0 <= i < py_mod_map(m2d).len() ==> is_normalized(#[trigger] py_mod_map(m2d)[i].1),
    decreases m2d.len(),
{
    if m2d.len() > 0 {
        lemma_mod_map_norm(m2d.drop_last());
        let m = py_mod_map(m2d.drop_last());
        let e = m2d.last();
        if e.1.len() > 0 {
            law_normalize_canonical(e.1[0]);
            lemma_key_index(m, e.0);
            let r = py_mod_map(m2d);
            assert forall|i: int| 0 <= i < r.len() implies is_normalized(#[trigger] r[i].1) by {
                match key_index(m, e.0) {
                    Some(x) => {
                        if i != x {
                            assert(r[i] == m[i]);
                        }
                    },
                    None => {
                        if i < m.len() {
                            assert(r[i] == m[i]);
                        }
                    },
                }
            }
        }
    }
}

proof fn lemma_py_used_norm(imports: Seq<SourceImportView>, mm: Seq<(Seq<char>, Seq<char>)>)
    requires
        forall|i: int| 0 <= i < mm.len() ==> is_normalized(#[trigger] mm[i].1),
    ensures
        packages_normalized(py_used(imports, mm)),
    decreases imports.len(),
{
    if imports.len() > 0 {
        lemma_py_used_norm(imports.drop_last(), mm);
        let rest = py_used(imports.drop_last(), mm);
        lemma_key_index(mm, imports.last().specifier);
        match lookup(mm, imports.last().specifier) {
            Some(p) => {
                let x = key_index(mm, imports.last().specifier)->0;
                assert(is_normalized(mm[x].1));
                let r = rest.push(UsageView { package: p, import: imports.last() });
                assert forall|i: int| 0 <= i < r.len() implies is_normalized(#[trigger] r[i].package) by {
                    if i < rest.len() {
                        assert(r[i] == rest[i]);
                    }
                }
            },
            None => {},
        }
    }
}

/// Every declared name and every imported package name of the Python
/// analysis is in normalized form.
pub proof fn law_py_names_normalized(out: ParserOutputView, files: Seq<(Seq<char>, Seq<char>)>)
    ensures
        names_normalized(py_analysis(out, files).declared),
        packages_normalized(py_analysis(out, files).used),
{
    let pt = lookup(files, "pyproject.toml"@);
    let py = py_doc(pt);
    let reqs = lookup(files, "requirements.txt"@);
    lemma_reqs_from_norm(
        string_items(items_of(toml_get(toml_get(py, "project"@), "dependencies"@))),
        DepKind::Prod,
        "pyproject.toml"@,
    );
    lemma_optional_norm(optional_groups(py));
    lemma_poetry_norm(poetry_keys(py));
    lemma_names_concat(project_deps(py), optional_deps(optional_groups(py)));
    lemma_names_concat(project_deps(py) + optional_deps(optional_groups(py)), poetry_deps(poetry_keys(py)));
    let rq = match reqs {
        Some(t) => requirement_deps(segments(t)),
        None => seq![],
    };
    match reqs {
        Some(t) => {
            lemma_requirement_norm(segments(t));
        },
        None => {},
    }
    lemma_names_concat(pyproject_declared(py), rq);
    lemma_mod_map_norm(out.module_to_dist);
    lemma_py_used_norm(out.imports, py_mod_map(out.module_to_dist));
}

// ---------------------------------------------------------------------------
// What pyproject.toml declares
// ---------------------------------------------------------------------------

/// The declared dependency with raw name `raw`.
pub open spec fn declared_as(raw: Seq<char>, kind: DepKind, manifest: Seq<char>) -> DeclaredDepView {
    DeclaredDepView { name: spec_normalize(raw), raw_name: raw, kind: kind, manifest: manifest }
}

proof fn lemma_push_has<A>(x: Seq<A>, e: A, f: A)
    requires
        x.contains(e),
    ensures
        x.push(f).contains(e),
{
    let i = choose|i: int| 0 <= i < x.len() && x[i] == e;
    assert(x.push(f)[i] == e);
}

proof fn lemma_string_items_has(items: Seq<Seq<char>>, j: int, r: Seq<char>)
    requires
        0 <= j < items.len(),
        str_of(toml_value(items[j])) == Some(r),
    ensures
        string_items(items).contains(r),
    decreases items.len(),
{
    let rest = string_items(items.drop_last());
    if j == items.len() - 1 {
        assert(string_items(items) == rest.push(r));
        assert(rest.push(r)[rest.len() as int] == r);
    } else {
        assert(items.drop_last()[j] == items[j]);
        lemma_string_items_has(items.drop_last(), j, r);
        match str_of(toml_value(items.last())) {
            Some(x) => lemma_push_has(rest, r, x),
            None => {},
        }
    }
}

proof fn lemma_reqs_from_has(ss: Seq<Seq<char>>, r: Seq<char>, kind: DepKind, m: Seq<char>)
    requires
        ss.contains(r),
        req_name(r).len() > 0,
    ensures
        reqs_from(ss, kind, m).contains(declared_as(req_name(r), kind, m)),
    decreases ss.len(),
{
    let e = declared_as(req_name(r), kind, m);
    if ss.last() == r {
        assert(pushed_req(r, kind, m)[0] == e);
        lemma_contains_right(reqs_from(ss.drop_last(), kind, m), pushed_req(r, kind, m), e);
    } else {
        let i = choose|i: int| 0 <= i < ss.len() && ss[i] == r;
        assert(ss.drop_last()[i] == r);
        lemma_reqs_from_has(ss.drop_last(), r, kind, m);
        lemma_contains_left(reqs_from(ss.drop_last(), kind, m), pushed_req(ss.last(), kind, m), e);
    }
}

proof fn lemma_optional_has(es: Seq<(Seq<char>, Seq<char>)>, i: int, j: int, r: Seq<char>)
    requires
        0 <= i < es.len(),
        0 <= j < items_of(toml_value(es[i].1)).len(),
        str_of(toml_value(items_of(toml_value(es[i].1))[j])) == Some(r),
        req_name(r).len() > 0,
    ensures
        optional_deps(es).contains(declared_as(req_name(r), DepKind::Optional, "pyproject.toml"@)),
    decreases es.len(),
{
    let e = declared_as(req_name(r), DepKind::Optional, "pyproject.toml"@);
    if i == es.len() - 1 {
        lemma_string_items_has(items_of(toml_value(es[i].1)), j, r);
        lemma_reqs_from_has(string_items(items_of(toml_value(es[i].1))), r, DepKind::Optional, "pyproject.toml"@);
        lemma_contains_right(
            optional_deps(es.drop_last()),
            reqs_from(string_items(items_of(toml_value(es.last().1))), DepKind::Optional, "pyproject.toml"@),
            e,
        );
    } else {
        assert(es.drop_last()[i] == es[i]);
        lemma_optional_has(es.drop_last(), i, j, r);
        lemma_contains_left(
            optional_deps(es.drop_last()),
            reqs_from(string_items(items_of(toml_value(es.last().1))), DepKind::Optional, "pyproject.toml"@),
            e,
        );
    }
}

proof fn lemma_poetry_has(keys: Seq<Seq<char>>, k: int)
    requires
        0 <= k < keys.len(),
        !eq_ignore_ascii_case(keys[k], "python"@),
        req_name(keys[k]).len() > 0,
    ensures
        poetry_deps(keys).contains(declared_as(req_name(keys[k]), DepKind::Prod, "pyproject.toml"@)),
    decreases keys.len(),
{
    let e = declared_as(req_name(keys[k]), DepKind::Prod, "pyproject.toml"@);
    let tail = if eq_ignore_ascii_case(keys.last(), "python"@) {
        Seq::<DeclaredDepView>::empty()
    } else {
        pushed_req(keys.last(), DepKind::Prod, "pyproject.toml"@)
    };
    if k == keys.len() - 1 {
        assert(tail[0] == e);
        lemma_contains_right(poetry_deps(keys.drop_last()), tail, e);
    } else {
        assert(keys.drop_last()[k] == keys[k]);
        lemma_poetry_has(keys.drop_last(), k);
        lemma_contains_left(poetry_deps(keys.drop_last()), tail, e);
    }
}

proof fn lemma_pyproject_in_declared(pyproject: Option<Seq<char>>, reqs: Option<Seq<char>>, e: DeclaredDepView)
    requires
        pyproject_declared(py_doc(pyproject)).contains(e),
    ensures
        py_declared(pyproject, reqs).contains(e),
{
    lemma_contains_left(
        pyproject_declared(py_doc(pyproject)),
        match reqs {
            Some(t) => requirement_deps(segments(t)),
            None => seq![],
        },
        e,
    );
}

/// Every string requirement of every group of
/// `[project.optional-dependencies]` is declared: as optional, from
/// pyproject.toml, under the name at the start of the requirement.
pub proof fn law_py_optional_groups_declared(
    pyproject: Option<Seq<char>>,
    reqs: Option<Seq<char>>,
    i: int,
    j: int,
    r: Seq<char>,
)
    requires
        0 <= i < entries_of(toml_get(toml_get(py_doc(pyproject), "project"@), "optional-dependencies"@)).len(),
        0 <= j < items_of(
            toml_value(
                entries_of(toml_get(toml_get(py_doc(pyproject), "project"@), "optional-dependencies"@))[i].1,
            ),
        ).len(),
        str_of(
            toml_value(
                items_of(
                    toml_value(
                        entries_of(
                            toml_get(toml_get(py_doc(pyproject), "project"@), "optional-dependencies"@),
                        )[i].1,
                    ),
                )[j],
            ),
        ) == Some(r),
        req_name(r).len() > 0,
    ensures
        py_declared(pyproject, reqs).contains(
            declared_as(req_name(r), DepKind::Optional, "pyproject.toml"@),
        ),
{
    let py = py_doc(pyproject);
    let e = declared_as(req_name(r), DepKind::Optional, "pyproject.toml"@);
    lemma_optional_has(optional_groups(py), i, j, r);
    lemma_contains_right(project_deps(py), optional_deps(optional_groups(py)), e);
    lemma_contains_left(project_deps(py) + optional_deps(optional_groups(py)), poetry_deps(poetry_keys(py)), e);
    lemma_pyproject_in_declared(pyproject, reqs, e);
}

/// Every string requirement of `[project].dependencies` is declared, as a
/// production dependency from pyproject.toml.
pub proof fn law_py_project_deps_declared(pyproject: Option<Seq<char>>, reqs: Option<Seq<char>>, j: int, r: Seq<char>)
    requires
        0 <= j < items_of(toml_get(toml_get(py_doc(pyproject), "project"@), "dependencies"@)).len(),
        str_of(toml_value(items_of(toml_get(toml_get(py_doc(pyproject), "project"@), "dependencies"@))[j]))
            == Some(r),
        req_name(r).len() > 0,
    ensures
        py_declared(pyproject, reqs).contains(declared_as(req_name(r), DepKind::Prod, "pyproject.toml"@)),
{
    let py = py_doc(pyproject);
    let e = declared_as(req_name(r), DepKind::Prod, "pyproject.toml"@);
    let items = items_of(toml_get(toml_get(py, "project"@), "dependencies"@));
    lemma_string_items_has(items, j, r);
    lemma_reqs_from_has(string_items(items), r, DepKind::Prod, "pyproject.toml"@);
    lemma_contains_left(project_deps(py), optional_deps(optional_groups(py)), e);
    lemma_contains_left(project_deps(py) + optional_deps(optional_groups(py)), poetry_deps(poetry_keys(py)), e);
    lemma_pyproject_in_declared(pyproject, reqs, e);
}

/// Every key of `[tool.poetry.dependencies]` but `python` (in any case) is
/// declared, as a production dependency from pyproject.toml.
pub proof fn law_py_poetry_declared(pyproject: Option<Seq<char>>, reqs: Option<Seq<char>>, k: int)
    requires
        0 <= k < keys_of(toml_get(toml_get(toml_get(py_doc(pyproject), "tool"@), "poetry"@), "dependencies"@)).len(),
        !eq_ignore_ascii_case(
            keys_of(toml_get(toml_get(toml_get(py_doc(pyproject), "tool"@), "poetry"@), "dependencies"@))[k],
            "python"@,
        ),
        req_name(keys_of(toml_get(toml_get(toml_get(py_doc(pyproject), "tool"@), "poetry"@), "dependencies"@))[k]).len() > 0,
    ensures
        py_declared(pyproject, reqs).contains(
            declared_as(
                req_name(keys_of(toml_get(toml_get(toml_get(py_doc(pyproject), "tool"@), "poetry"@), "dependencies"@))[k]),
                DepKind::Prod,
                "pyproject.toml"@,
            ),
        ),
{
    let py = py_doc(pyproject);
    let keys = poetry_keys(py);
    let e = declared_as(req_name(keys[k]), DepKind::Prod, "pyproject.toml"@);
    lemma_poetry_has(keys, k);
    lemma_contains_right(project_deps(py) + optional_deps(optional_groups(py)), poetry_deps(keys), e);
    lemma_pyproject_in_declared(pyproject, reqs, e);
}

// ---------------------------------------------------------------------------
// What requirements.txt declares
// ---------------------------------------------------------------------------

/// Pieces joined back with newlines between them.
pub open spec fn join_lines(g: Seq<Seq<char>>) -> Seq<char>
    decreases g.len(),
{
    if g.len() == 0 {
        seq![]
    } else if g.len() == 1 {
        g[0]
    } else {
        join_lines(g.drop_last()) + seq!['\n'] + g.last()
    }
}

/// The pieces of a text between newlines are its lines: joined with
/// newlines they give the text back, and none holds a newline.
pub proof fn law_segments_are_lines(s: Seq<char>)
    ensures
        segments(s).len() >= 1,
        join_lines(segments(s)) == s,
        forall|k: int| 0 <= k < segments(s).len() ==> !(#[trigger] segments(s)[k]).contains('\n'),
    decreases s.len(),
{
    if s.len() > 0 {
        law_segments_are_lines(s.drop_last());
        let g = segments(s.drop_last());
        let c = s.last();
        if c == '\n' {
            let h = g.push(seq![]);
            assert(h.drop_last() == g);
            assert(join_lines(h) =~= s);
            assert forall|k: int| 0 <= k < h.len() implies !(#[trigger] h[k]).contains('\n') by {
                if k < g.len() {
                    assert(h[k] == g[k]);
                }
            }
        } else {
            let h = g.update(g.len() - 1, g.last().push(c));
            assert(h.last() == g.last().push(c));
            assert(s =~= s.drop_last().push(c));
            if g.len() >= 2 {
                assert(h.drop_last() =~= g.drop_last());
                assert(join_lines(h) == join_lines(g.drop_last()) + seq!['\n'] + g.last().push(c));
                assert(join_lines(g) == join_lines(g.drop_last()) + seq!['\n'] + g.last());
                assert(join_lines(h) =~= join_lines(g).push(c));
            } else {
                assert(join_lines(h) == h[0]);
                assert(join_lines(g) == g[0]);
            }
            assert(join_lines(h) =~= s);
            assert forall|k: int| 0 <= k < h.len() implies !(#[trigger] h[k]).contains('\n') by {
                if k < g.len() - 1 {
                    assert(h[k] == g[k]);
                } else {
                    let x = g.last().push(c);
                    assert(!g[g.len() - 1].contains('\n'));
                    if x.contains('\n') {
                        let y = choose|y: int| 0 <= y < x.len() && x[y] == '\n';
                        assert(g.last()[y] == '\n');
                    }
                }
            }
        }
    }
}

proof fn lemma_requirement_has(lines: Seq<Seq<char>>, k: int)
    requires
        0 <= k < lines.len(),
        trim_by(lines[k], strip_pred(false)).len() > 0,
        trim_by(lines[k], strip_pred(false))[0] != '#',
        trim_by(lines[k], strip_pred(false))[0] != '-',
        req_name(trim_by(lines[k], strip_pred(false))).len() > 0,
    ensures
        requirement_deps(lines).contains(
            declared_as(req_name(trim_by(lines[k], strip_pred(false))), DepKind::Prod, "requirements.txt"@),
        ),
    decreases lines.len(),
{
    let e = declared_as(req_name(trim_by(lines[k], strip_pred(false))), DepKind::Prod, "requirements.txt"@);
    if k == lines.len() - 1 {
        assert(requirement_line(lines.last())[0] == e);
        lemma_contains_right(requirement_deps(lines.drop_last()), requirement_line(lines.last()), e);
    } else {
        assert(lines.drop_last()[k] == lines[k]);
        lemma_requirement_has(lines.drop_last(), k);
        lemma_contains_left(requirement_deps(lines.drop_last()), requirement_line(lines.last()), e);
    }
}

/// Every line of requirements.txt that, trimmed, is not blank, a comment or
/// an option declares the package named at its start, as a production
/// dependency from requirements.txt.
pub proof fn law_requirement_lines_declared(pyproject: Option<Seq<char>>, t: Seq<char>, k: int)
    requires
        0 <= k < segments(t).len(),
        trim_by(segments(t)[k], strip_pred(false)).len() > 0,
        trim_by(segments(t)[k], strip_pred(false))[0] != '#',
        trim_by(segments(t)[k], strip_pred(false))[0] != '-',
        req_name(trim_by(segments(t)[k], strip_pred(false))).len() > 0,
    ensures
        py_declared(pyproject, Some(t)).contains(
            declared_as(
                req_name(trim_by(segments(t)[k], strip_pred(false))),
                DepKind::Prod,
                "requirements.txt"@,
            ),
        ),
{
    let e = declared_as(req_name(trim_by(segments(t)[k], strip_pred(false))), DepKind::Prod, "requirements.txt"@);
    lemma_requirement_has(segments(t), k);
    lemma_contains_right(pyproject_declared(py_doc(pyproject)), requirement_deps(segments(t)), e);
}

// ---------------------------------------------------------------------------
// Which hint a declared dependency gets
// ---------------------------------------------------------------------------

/// The first active entry-point group of a distribution is the first of its
/// groups among `console_scripts`, `gui_scripts` and `pytest11`.
pub proof fn law_first_active_group(gs: Seq<Seq<char>>, i: int)
    requires
        0 <= i < gs.len(),
        strs(ACTIVE_GROUPS).contains(gs[i]),
        forall|j: int| 0 <= j < i ==> !strs(ACTIVE_GROUPS).contains(#[trigger] gs[j]),
    ensures
        first_active(gs) == Some(gs[i]),
    decreases gs.len(),
{
    let d = gs.drop_last();
    if i < gs.len() - 1 {
        assert(d[i] == gs[i]);
        assert forall|j: int| 0 <= j < i implies !strs(ACTIVE_GROUPS).contains(#[trigger] d[j]) by {
            assert(d[j] == gs[j]);
        }
        law_first_active_group(d, i);
    } else {
        assert(first_active(d) is None) by {
            lemma_first_active_none(d);
        }
    }
}

proof fn lemma_first_active_none(gs: Seq<Seq<char>>)
    requires
        forall|j: int| 0 <= j < gs.len() ==> !strs(ACTIVE_GROUPS).contains(#[trigger] gs[j]),
    ensures
        first_active(gs) is None,
    decreases gs.len(),
{
    if gs.len() > 0 {
        let d = gs.drop_last();
        assert forall|j: int| 0 <= j < d.len() implies !strs(ACTIVE_GROUPS).contains(#[trigger] d[j]) by {
            assert(d[j] == gs[j]);
        }
        lemma_first_active_none(d);
        assert(gs[gs.len() - 1] == gs.last());
    }
}

/// The signals checked for a declared dependency, in order: a `types-`
/// stub distribution; an active entry point of the installed distribution;
/// a build-system requirement; a `[tool.<name>]` section; its name as a
/// whole token of the config text; a plugin naming convention.
pub proof fn law_py_hint_order(
    d: DeclaredDepView,
    groups: Seq<(Seq<char>, Seq<Seq<char>>)>,
    breqs: Seq<Seq<char>>,
    tools: Seq<Seq<char>>,
    blob: Seq<char>,
)
    ensures
        ({
            let stub = is_prefix("types-"@, d.raw_name);
            let entry = match lookup(groups, d.name) {
                Some(gs) => first_active(gs),
                None => None,
            };
            let h = py_hint(d, groups, breqs, tools, blob);
            &&& stub ==> h == Some("type stubs for `"@ + d.raw_name.skip(6) + "`"@)
            &&& !stub && entry is Some ==> h == Some(
                (if entry->0 == "pytest11"@ {
                    "pytest plugin"@
                } else {
                    "CLI tool"@
                }) + " (entry point `"@ + entry->0 + "`)"@,
            )
            &&& !stub && entry is None && breqs.contains(d.name) ==> h == Some(
                "build-system requirement"@,
            )
            &&& !stub && entry is None && !breqs.contains(d.name) && tools.contains(d.name) ==> h
                == Some("configured in [tool."@ + d.raw_name + "]"@)
            &&& !stub && entry is None && !breqs.contains(d.name) && !tools.contains(d.name)
                && spec_contains_token(blob, d.raw_name) ==> h == Some("referenced in config"@)
            &&& !stub && entry is None && !breqs.contains(d.name) && !tools.contains(d.name)
                && !spec_contains_token(blob, d.raw_name) ==> h == py_name_convention(d.name)
        }),
{
    reveal_strlit("types-");
}

/// The hint table holds, for each declared name, the hint of the last dep
/// declared under that name.
pub proof fn law_py_hint_of_last(
    ds: Seq<DeclaredDepView>,
    groups: Seq<(Seq<char>, Seq<Seq<char>>)>,
    breqs: Seq<Seq<char>>,
    tools: Seq<Seq<char>>,
    blob: Seq<char>,
    j: int,
)
    requires
        0 <= j < ds.len(),
        forall|k: int| j < k < ds.len() ==> (#[trigger] ds[k]).name != ds[j].name,
        py_hint(ds[j], groups, breqs, tools, blob) is Some,
    ensures
        lookup(py_hints(ds, groups, breqs, tools, blob), ds[j].name) == py_hint(
            ds[j],
            groups,
            breqs,
            tools,
            blob,
        ),
    decreases ds.len(),
{
    let d = ds.drop_last();
    law_py_hints_about_declared(d, groups, breqs, tools, blob);
    let m = py_hints(d, groups, breqs, tools, blob);
    if j == ds.len() - 1 {
        law_insert_then_lookup(m, ds[j].name, py_hint(ds[j], groups, breqs, tools, blob)->0);
    } else {
        assert forall|k: int| j < k < d.len() implies (#[trigger] d[k]).name != d[j].name by {
            assert(d[k] == ds[k]);
        }
        assert(d[j] == ds[j]);
        law_py_hint_of_last(d, groups, breqs, tools, blob, j);
        let last = ds.last();
        assert(last.name != ds[j].name) by {
            assert(ds[ds.len() - 1] == last);
        }
        match py_hint(last, groups, breqs, tools, blob) {
            Some(r) => law_insert_then_lookup(m, last.name, r),
            None => {},
        }
    }
}

/// An import module maps to the (normalized) first distribution that the
/// parser reports for it, taking the last report of the module that lists
/// any distribution.
pub proof fn law_py_module_maps_to_first_dist(m2d: Seq<(Seq<char>, Seq<Seq<char>>)>, i: int)
    requires
        0 <= i < m2d.len(),
        m2d[i].1.len() > 0,
        forall|k: int| i < k < m2d.len() ==> (#[trigger] m2d[k]).0 != m2d[i].0 || m2d[k].1.len() == 0,
    ensures
        lookup(py_mod_map(m2d), m2d[i].0) == Some(spec_normalize(m2d[i].1[0])),
    decreases m2d.len(),
{
    let d = m2d.drop_last();
    law_py_tables_unique(Seq::empty(), d);
    let e = m2d.last();
    if i == m2d.len() - 1 {
        law_insert_then_lookup(py_mod_map(d), e.0, spec_normalize(e.1[0]));
    } else {
        assert(d[i] == m2d[i]);
        assert forall|k: int| i < k < d.len() implies (#[trigger] d[k]).0 != d[i].0 || d[k].1.len() == 0 by {
            assert(d[k] == m2d[k]);
        }
        law_py_module_maps_to_first_dist(d, i);
        assert(m2d[m2d.len() - 1] == e);
        if e.1.len() > 0 {
            law_insert_then_lookup(py_mod_map(d), e.0, spec_normalize(e.1[0]));
        }
    }
}

/// Every import whose module maps to a distribution is a use of that
/// distribution.
pub proof fn law_py_used_complete(imports: Seq<SourceImportView>, mm: Seq<(Seq<char>, Seq<char>)>, j: int)
    requires
        0 <= j < imports.len(),
        lookup(mm, imports[j].specifier) is Some,
    ensures
        py_used(imports, mm).contains(
            UsageView { package: lookup(mm, imports[j].specifier)->0, import: imports[j] },
        ),
    decreases imports.len(),
{
    let e = UsageView { package: lookup(mm, imports[j].specifier)->0, import: imports[j] };
    let rest = py_used(imports.drop_last(), mm);
    if j == imports.len() - 1 {
        assert(py_used(imports, mm) == rest.push(e));
        assert(rest.push(e)[rest.len() as int] == e);
    } else {
        assert(imports.drop_last()[j] == imports[j]);
        law_py_used_complete(imports.drop_last(), mm, j);
        let x = choose|x: int| 0 <= x < rest.len() && rest[x] == e;
        let r = py_used(imports, mm);
        match lookup(mm, imports.last().specifier) {
            Some(p) => {
                assert(r == rest.push(UsageView { package: p, import: imports.last() }));
                assert(r[x] == e);
            },
            None => {},
        }
    }
}

} // verus!



