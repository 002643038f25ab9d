use deparch::adapters::node::{self, NodeAdapter};
use deparch::adapters::python::{self, PythonAdapter};
use deparch::adapters::{all, Adapter, AnalyzeError, ParserOutput, ProjectFiles, PyInstalled};
use deparch::doc::{Entry, Parsed};
use deparch::engine::{analyze, why};
use deparch::model::{normalize, DepKind, SourceImport, StrMap};

fn s(x: &str) -> String {
    x.to_string()
}

fn imp(spec: &str, file: &str, line: usize) -> SourceImport {
    SourceImport { specifier: s(spec), file: s(file), line }
}

fn no_output() -> ParserOutput {
    ParserOutput { imports: vec![], module_to_dist: vec![], installed: vec![] }
}

fn files_of(entries: &[(&str, &str)]) -> ProjectFiles {
    let mut files = StrMap::new();
    for (k, v) in entries {
        files.insert(s(k), s(v));
    }
    ProjectFiles { files }
}

#[test]
fn spec_to_package_cases() {
    assert_eq!(node::spec_to_package("./local"), None);
    assert_eq!(node::spec_to_package("/abs/x"), None);
    assert_eq!(node::spec_to_package("lodash/fp"), Some(s("lodash")));
    assert_eq!(node::spec_to_package("@babel/core/lib/x"), Some(s("@babel/core")));
    assert_eq!(node::spec_to_package("@Scope/Pkg"), Some(s("@scope/pkg")));
    assert_eq!(node::spec_to_package("@scope"), None);
    assert_eq!(node::spec_to_package("@scope/"), Some(s("@scope/")));
    assert_eq!(node::spec_to_package("node:fs"), None);
    assert_eq!(node::spec_to_package("fs/promises"), None);
    assert_eq!(node::spec_to_package("node:test"), None);
    assert_eq!(node::spec_to_package("node:lodash"), None);
    assert_eq!(node::spec_to_package("React_DOM"), Some(s("react-dom")));
}

#[test]
fn builtins() {
    assert!(node::is_builtin("child_process"));
    assert!(node::is_builtin("zlib"));
    assert!(!node::is_builtin("lodash"));
    assert!(!node::is_builtin("node:fs"));
}

#[test]
fn node_read_declared_in_field_order() {
    let pkg = r#"{
        "devDependencies": {"jest": "29"},
        "dependencies": {"react": "18", "Left_Pad": "1"},
        "peerDependencies": {"react-dom": "18"},
        "optionalDependencies": "not a table"
    }"#;
    let d = match node::read_declared(pkg) {
        Ok(d) => d,
        Err(_) => panic!("package.json parses"),
    };
    let got: Vec<(String, String, DepKind)> =
        d.iter().map(|x| (x.name.clone(), x.raw_name.clone(), x.kind)).collect();
    assert_eq!(
        got,
        vec![
            (s("left-pad"), s("Left_Pad"), DepKind::Prod),
            (s("react"), s("react"), DepKind::Prod),
            (s("jest"), s("jest"), DepKind::Dev),
            (s("react-dom"), s("react-dom"), DepKind::Peer),
        ]
    );
    assert!(d.iter().all(|x| x.manifest == "package.json"));
}

#[test]
fn node_read_declared_rejects_invalid_json() {
    match node::read_declared("{ not json") {
        Err(AnalyzeError::Unparsable(f)) => assert_eq!(f, "package.json"),
        _ => panic!("expected a parse error"),
    }
    assert_eq!(node::read_declared("{}").ok().map(|d| d.len()), Some(0));
}

#[test]
fn node_lockfile_v2_and_v1() {
    let v2 = s(r#"{"packages": {
        "": {"version": "1.0.0"},
        "node_modules/Debug": {"version": "4.3.4", "dependencies": {"MS": "2"}},
        "node_modules/a/node_modules/ms": {"version": "2.0.0"},
        "node_modules/ms": {"version": "2.1.2"}
    }}"#);
    let m = node::read_lockfile(Some(&v2)).ok().unwrap();
    assert_eq!(m.len(), 2);
    let debug = m.get("debug").unwrap();
    assert_eq!(debug.name, "Debug");
    assert_eq!(debug.version, "4.3.4");
    assert_eq!(debug.requires, vec![s("ms")]);
    // the later entry for the same normalized name wins
    assert_eq!(m.get("ms").unwrap().version, "2.1.2");

    let v1 = s(r#"{"dependencies": {"chalk": {"version": "5.0.0", "requires": {"x": "1"}}}}"#);
    let m1 = node::read_lockfile(Some(&v1)).ok().unwrap();
    assert_eq!(m1.get("chalk").unwrap().requires, vec![s("x")]);
    assert_eq!(m1.get("chalk").unwrap().version, "5.0.0");
    assert_eq!(node::read_lockfile(None).ok().unwrap().len(), 0);
    match node::read_lockfile(Some(&s("[1,"))) {
        Err(AnalyzeError::Unparsable(f)) => assert_eq!(f, "package-lock.json"),
        _ => panic!("expected a parse error"),
    }
}

fn node_project() -> (ParserOutput, ProjectFiles) {
    let pkg = r#"{
        "dependencies": {
            "lodash": "4", "@types/node": "20", "@types/left-pad": "1",
            "Chalk_Next": "1", "eslint-plugin-react": "7"
        },
        "devDependencies": {"typescript": "5", "prettier": "3"},
        "eslintConfig": {"extends": ["prettier"]},
        "scripts": {"build": "tsc -p ."}
    }"#;
    let lock = r#"{"packages": {
        "node_modules/debug": {"version": "4.3.4", "dependencies": {"ms": "2"}},
        "node_modules/ms": {"version": "2.1.2"}
    }}"#;
    let ts_manifest = r#"{"bin": {"tsserver": "bin/tsserver", "tsc": "bin/tsc"}}"#;
    let bin_path = node::bin_manifest_path("typescript");
    let files = files_of(&[
        ("package.json", pkg),
        ("package-lock.json", lock),
        (bin_path.as_str(), ts_manifest),
        (".babelrc", "{}"),
    ]);
    let out = ParserOutput {
        imports: vec![
            imp("lodash/fp", "a.ts", 1),
            imp("./local", "a.ts", 2),
            imp("fs", "a.ts", 3),
            imp("debug", "b.ts", 7),
            imp("debug", "c.ts", 1),
        ],
        module_to_dist: vec![],
        installed: vec![],
    };
    (out, files)
}

#[test]
fn node_analysis_end_to_end() {
    let (out, files) = node_project();
    let a = NodeAdapter;
    assert!(!a.would_panic(&out, &files));
    let an = a.analyze(&out, &files).ok().unwrap();
    assert_eq!(an.language, "node");
    assert_eq!(an.used.len(), 3);
    assert_eq!(an.used[0].package, "lodash");
    assert_eq!(an.used[1].package, "debug");
    assert_eq!(an.installed.get("debug").unwrap().requires, vec![s("ms")]);
    assert_eq!(an.usage_hints.get("@types/node"), Some(&s("type stubs for `node`")));
    assert_eq!(an.usage_hints.get("typescript"), Some(&s("provides executable `tsc`")));
    assert_eq!(an.usage_hints.get("prettier"), Some(&s("referenced in config / scripts")));
    assert_eq!(
        an.usage_hints.get("eslint-plugin-react"),
        Some(&s("name matches `eslint-plugin-*` (eslint plugin)"))
    );
    // left-pad is not imported, so its stubs are not in use
    assert_eq!(an.usage_hints.get("@types/left-pad"), None);
    let f = analyze(&an);
    let unused: Vec<String> = f.unused.iter().map(|u| u.name.clone()).collect();
    assert_eq!(unused, vec![s("@types/left-pad"), s("Chalk_Next")]);
    let suppressed: Vec<String> = f.suppressed.iter().map(|u| u.name.clone()).collect();
    assert_eq!(suppressed, vec![s("@types/node"), s("eslint-plugin-react"), s("prettier"), s("typescript")]);
    assert_eq!(f.phantom.len(), 1);
    assert_eq!(f.phantom[0].name, "debug");
    assert_eq!(f.phantom[0].example_file, "b.ts");
    assert_eq!(why(&an, "ms"), vec![vec![s("debug"), s("ms")]]);
}

#[test]
fn node_string_bin_uses_package_basename() {
    let pkg = r#"{"devDependencies": {"@scope/tool": "1"}}"#;
    let bin_path = node::bin_manifest_path("@scope/tool");
    assert_eq!(bin_path, "node_modules/@scope/tool/package.json");
    let files = files_of(&[("package.json", pkg), (bin_path.as_str(), r#"{"bin": "cli.js"}"#)]);
    let an = NodeAdapter.analyze(&no_output(), &files).ok().unwrap();
    assert_eq!(an.usage_hints.get("@scope/tool"), Some(&s("provides executable `tool`")));
}

#[test]
fn node_missing_or_invalid_manifests() {
    let empty = files_of(&[]);
    match NodeAdapter.analyze(&no_output(), &empty) {
        Err(AnalyzeError::MissingFile(f)) => assert_eq!(f, "package.json"),
        _ => panic!("expected an error"),
    }
    let bad = files_of(&[("package.json", "{")]);
    match NodeAdapter.analyze(&no_output(), &bad) {
        Err(AnalyzeError::Unparsable(f)) => assert_eq!(f, "package.json"),
        _ => panic!("expected an error"),
    }
    let bad_lock = files_of(&[("package.json", "{}"), ("package-lock.json", "nope")]);
    match NodeAdapter.try_analyze(&no_output(), &bad_lock) {
        Some(Err(AnalyzeError::Unparsable(f))) => assert_eq!(f, "package-lock.json"),
        _ => panic!("expected an error"),
    }
}

#[test]
fn node_scan_that_would_panic_is_reported() {
    let files = files_of(&[("package.json", r#"{"dependencies": {"é": "1"}}"#), ("tsconfig.json", "aé")]);
    assert!(NodeAdapter.would_panic(&no_output(), &files));
    assert!(NodeAdapter.try_analyze(&no_output(), &files).is_none());
    // a broken lockfile ends the analysis before any scan
    let files2 = files_of(&[
        ("package.json", r#"{"dependencies": {"é": "1"}}"#),
        ("tsconfig.json", "aé"),
        ("package-lock.json", "{"),
    ]);
    assert!(!NodeAdapter.would_panic(&no_output(), &files2));
}

#[test]
fn node_config_files_and_detect() {
    assert_eq!(NodeAdapter::config_files().len(), 64);
    assert!(NodeAdapter.detect(&vec![s("package.json")]));
    assert!(!NodeAdapter.detect(&vec![s("pyproject.toml")]));
    assert_eq!(NodeAdapter.language(), "node");
}

#[test]
fn all_adapters() {
    let v = all();
    assert_eq!(v.len(), 2);
    assert_eq!(v[0].language(), "node");
    assert_eq!(v[1].language(), "python");
}

#[test]
fn python_push_req_names() {
    let mut deps = Vec::new();
    python::push_req(&mut deps, "Flask[async]>=2; python_version>'3'", DepKind::Prod, "pyproject.toml");
    python::push_req(&mut deps, ">=1", DepKind::Prod, "pyproject.toml");
    python::push_req(&mut deps, "zope.interface==5", DepKind::Optional, "requirements.txt");
    assert_eq!(deps.len(), 2);
    assert_eq!(deps[0].raw_name, "Flask");
    assert_eq!(deps[0].name, "flask");
    assert_eq!(deps[1].name, "zope-interface");
    assert_eq!(deps[1].kind, DepKind::Optional);
    assert_eq!(deps[1].manifest, "requirements.txt");
}

const PYPROJECT: &str = r#"
[build-system]
requires = ["setuptools>=61", "wheel"]

[project]
name = "demo"
dependencies = ["requests>=2", "Flask[async]", true]

[project.optional-dependencies]
dev = ["pytest-cov", "black", "Setuptools"]

[tool.pylint-django]

[tool.Black]
line-length = 100

[tool.poetry.dependencies]
numpy = "*"
Python = "^3.10"
"#;

fn python_project() -> (ParserOutput, ProjectFiles) {
    let files = files_of(&[
        ("pyproject.toml", PYPROJECT),
        (
            "requirements.txt",
            "# pinned\n-r other.txt\nPyYAML==6.0\r\n\n  types-requests  \npylint-django\nisort",
        ),
        ("tox.ini", "[testenv]\ncommands = isort --check ."),
    ]);
    let inst = |name: &str, norm: &str, version: &str, groups: &[&str]| PyInstalled {
        name: s(name),
        norm: s(norm),
        version: s(version),
        requires: vec![],
        entry_groups: groups.iter().map(|g| s(g)).collect(),
    };
    let out = ParserOutput {
        imports: vec![imp("requests", "a.py", 1), imp("yaml", "a.py", 2), imp("six", "b.py", 5), imp("numpy", "c.py", 1)],
        module_to_dist: vec![
            (s("requests"), vec![s("requests")]),
            (s("yaml"), vec![s("PyYAML")]),
            (s("six"), vec![s("six")]),
            (s("empty"), vec![]),
        ],
        installed: vec![
            inst("requests", "requests", "2.31.0", &[]),
            inst("PyYAML", "pyyaml", "6.0", &[]),
            inst("six", "six", "1.16.0", &[]),
            inst("black", "black", "24.1", &["console_scripts"]),
            inst("pytest-cov", "pytest-cov", "4.1", &["pytest11"]),
        ],
    };
    (out, files)
}

#[test]
fn python_read_declared_sources_in_order() {
    let (_, files) = python_project();
    let d = python::read_declared(files.files.get("pyproject.toml"), files.files.get("requirements.txt"));
    let got: Vec<(String, DepKind, String)> =
        d.iter().map(|x| (x.raw_name.clone(), x.kind, x.manifest.clone())).collect();
    let p = s("pyproject.toml");
    let r = s("requirements.txt");
    assert_eq!(
        got,
        vec![
            (s("requests"), DepKind::Prod, p.clone()),
            (s("Flask"), DepKind::Prod, p.clone()),
            (s("pytest-cov"), DepKind::Optional, p.clone()),
            (s("black"), DepKind::Optional, p.clone()),
            (s("Setuptools"), DepKind::Optional, p.clone()),
            (s("numpy"), DepKind::Prod, p.clone()),
            (s("PyYAML"), DepKind::Prod, r.clone()),
            (s("types-requests"), DepKind::Prod, r.clone()),
            (s("pylint-django"), DepKind::Prod, r.clone()),
            (s("isort"), DepKind::Prod, r.clone()),
        ]
    );
}

#[test]
fn python_invalid_pyproject_is_ignored() {
    let bad = s("[project\ndependencies = [");
    let reqs = s("attrs");
    let d = python::read_declared(Some(&bad), Some(&reqs));
    assert_eq!(d.len(), 1);
    assert_eq!(d[0].name, "attrs");
    assert!(python::build_system_reqs(Some(&bad)).is_empty());
    assert!(python::tool_sections(Some(&bad)).is_empty());
}

#[test]
fn python_build_reqs_and_tools() {
    let (_, files) = python_project();
    let py = files.files.get("pyproject.toml");
    assert_eq!(python::build_system_reqs(py), vec![s("setuptools"), s("wheel")]);
    assert_eq!(python::tool_sections(py), vec![s("black"), s("poetry"), s("pylint-django")]);
    assert!(python::build_system_reqs(None).is_empty());
}

#[test]
fn python_analysis_end_to_end() {
    let (out, files) = python_project();
    let a = PythonAdapter;
    assert!(!a.would_panic(&out, &files));
    let an = a.analyze(&out, &files).ok().unwrap();
    assert_eq!(an.language, "python");
    let used: Vec<String> = an.used.iter().map(|u| u.package.clone()).collect();
    assert_eq!(used, vec![s("requests"), s("pyyaml"), s("six")]);
    let h = |k: &str| an.usage_hints.get(k).cloned();
    assert_eq!(h("pytest-cov"), Some(s("pytest plugin (entry point `pytest11`)")));
    assert_eq!(h("black"), Some(s("CLI tool (entry point `console_scripts`)")));
    assert_eq!(h("setuptools"), Some(s("build-system requirement")));
    assert_eq!(h("types-requests"), Some(s("type stubs for `requests`")));
    assert_eq!(h("pylint-django"), Some(s("configured in [tool.pylint-django]")));
    assert_eq!(h("isort"), Some(s("referenced in config")));
    assert_eq!(h("flask"), None);
    let f = analyze(&an);
    let unused: Vec<String> = f.unused.iter().map(|u| u.name.clone()).collect();
    assert_eq!(unused, vec![s("Flask"), s("numpy")]);
    assert_eq!(f.suppressed.len(), 6);
    assert_eq!(f.phantom.len(), 1);
    assert_eq!(f.phantom[0].name, "six");
    assert_eq!(f.phantom[0].version, "1.16.0");
    assert_eq!(f.phantom[0].example_file, "b.py");
    assert_eq!(f.phantom[0].example_line, 5);
}

#[test]
fn python_name_convention_hint() {
    let files = files_of(&[("requirements.txt", "flake8-bugbear\nSphinxcontrib_Mermaid")]);
    let an = PythonAdapter.analyze(&no_output(), &files).ok().unwrap();
    assert_eq!(
        an.usage_hints.get("flake8-bugbear"),
        Some(&s("name matches `flake8-*` (flake8 plugin)"))
    );
    assert_eq!(
        an.usage_hints.get("sphinxcontrib-mermaid"),
        Some(&s("name matches `sphinxcontrib-*` (sphinx extension)"))
    );
    assert!(PythonAdapter.try_analyze(&no_output(), &files).is_some());
}

#[test]
fn python_detect() {
    assert!(PythonAdapter.detect(&vec![s("setup.cfg")]));
    assert!(PythonAdapter.detect(&vec![s("x"), s("Pipfile")]));
    assert!(!PythonAdapter.detect(&vec![s("package.json")]));
    assert_eq!(PythonAdapter::config_files().len(), 12);
    assert_eq!(PythonAdapter::marker_files().len(), 5);
}

fn entry(key: &str, text: &str) -> Entry {
    Entry { key: s(key), text: s(text) }
}

#[test]
fn node_logic_on_parsed_values() {
    let pkg = Parsed::Table(vec![
        entry("dependencies", r#"{"b":"1","A_b":"2"}"#),
        entry("devDependencies", "[1,2]"),
        entry("peerDependencies", r#"{"p":"1"}"#),
    ]);
    let d = node::declared_in(&pkg);
    let got: Vec<(String, DepKind)> = d.iter().map(|x| (x.name.clone(), x.kind)).collect();
    assert_eq!(got, vec![(s("a-b"), DepKind::Prod), (s("b"), DepKind::Prod), (s("p"), DepKind::Peer)]);

    let lock = Parsed::Table(vec![entry("dependencies", r#"{"x":{"version":"1.2.3","peerDependencies":{"Y":"*"}}}"#)]);
    let m = node::installed_in(&lock);
    assert_eq!(m.get("x").unwrap().version, "1.2.3");
    assert_eq!(m.get("x").unwrap().requires, vec![s("y")]);

    let info = Parsed::Table(vec![entry("version", "7")]);
    let r = node::resolved_in("n", Some(&info));
    assert_eq!(r.version, "");
    assert!(r.requires.is_empty());

    assert_eq!(node::bin_in("@s/cli", Some(&Parsed::Table(vec![entry("bin", r#""x.js""#)]))), Some(s("cli")));
    assert_eq!(node::bin_in("t", Some(&Parsed::Table(vec![entry("bin", r#"{"b":"1","a":"2"}"#)]))), Some(s("a")));
    assert_eq!(node::bin_in("t", Some(&Parsed::Table(vec![entry("bin", "{}")]))), None);
    assert_eq!(node::bin_in("t", None), None);

    let cfg = Parsed::Table(vec![
        entry("scripts", r#"{"a":"eslint .","b":3}"#),
        entry("jest", r#"{"preset":"ts-jest"}"#),
        entry("other", r#"{"x":1}"#),
    ]);
    let mut files = StrMap::new();
    files.insert(s(".babelrc"), s("{babel}"));
    files.insert(s("unlisted.js"), s("ignored"));
    assert_eq!(node::config_blob_in(Some(&cfg), &files), "eslint .\n{\"preset\":\"ts-jest\"}\n{babel}\n");
    assert_eq!(node::config_blob_in(None, &files), "{babel}\n");
}

#[test]
fn python_logic_on_parsed_values() {
    let doc = Parsed::Table(vec![
        entry("build-system", r#"{ requires = ["hatchling>=1", 3] }"#),
        entry("project", r#"{ dependencies = ["attrs", "Click>=8"], optional-dependencies = { a = ["x"], b = "y" } }"#),
        entry("tool", r#"{ poetry = { dependencies = { PYTHON = "^3", rich = "*" } }, Ruff_X = {} }"#),
    ]);
    let d = python::pyproject_deps_in(Some(&doc));
    let got: Vec<(String, DepKind)> = d.iter().map(|x| (x.raw_name.clone(), x.kind)).collect();
    assert_eq!(
        got,
        vec![
            (s("attrs"), DepKind::Prod),
            (s("Click"), DepKind::Prod),
            (s("x"), DepKind::Optional),
            (s("rich"), DepKind::Prod),
        ]
    );
    assert_eq!(python::build_reqs_in(Some(&doc)), vec![s("hatchling")]);
    assert_eq!(python::tools_in(Some(&doc)), vec![s("ruff-x"), s("poetry")]);
    assert!(python::pyproject_deps_in(None).is_empty());
    assert!(python::tools_in(Some(&Parsed::Other)).is_empty());
}

#[test]
fn analyses_compare_normalized_names() {
    let (out, files) = node_project();
    let an = NodeAdapter.analyze(&out, &files).ok().unwrap();
    assert!(an.declared.iter().all(|d| normalize(&d.name) == d.name));
    assert!(an.used.iter().all(|u| normalize(&u.package) == u.package));
    assert!((0..an.installed.len()).all(|i| {
        let (k, _) = an.installed.entry(i);
        normalize(k) == *k
    }));
    let (pout, pfiles) = python_project();
    let pan = PythonAdapter.analyze(&pout, &pfiles).ok().unwrap();
    assert!(pan.declared.iter().all(|d| normalize(&d.name) == d.name));
    assert!(pan.used.iter().all(|u| normalize(&u.package) == u.package));
    assert_eq!(pan.declared[1].name, "flask");
}
