use deparch::engine::{analyze, why};
use deparch::model::{
    Analysis, DeclaredDep, DepKind, ResolvedPkg, SourceImport, StrMap, Usage,
};

fn s(x: &str) -> String {
    x.to_string()
}

fn dep(name: &str, kind: DepKind) -> DeclaredDep {
    DeclaredDep { name: normalize_like(name), raw_name: s(name), kind, manifest: s("package.json") }
}

fn normalize_like(n: &str) -> String {
    deparch::model::normalize(n)
}

fn usage(pkg: &str, file: &str, line: usize) -> Usage {
    Usage {
        package: s(pkg),
        import: SourceImport { specifier: s(pkg), file: s(file), line },
    }
}

fn pkg(name: &str, version: &str, requires: &[&str]) -> ResolvedPkg {
    ResolvedPkg {
        name: s(name),
        version: s(version),
        requires: requires.iter().map(|r| s(r)).collect(),
    }
}

fn sample() -> Analysis {
    let mut installed = StrMap::new();
    installed.insert(s("lodash"), pkg("lodash", "4.17.21", &[]));
    installed.insert(s("debug"), pkg("debug", "4.3.4", &["ms"]));
    installed.insert(s("ms"), pkg("ms", "2.1.2", &[]));
    let mut hints = StrMap::new();
    hints.insert(s("typescript"), s("provides executable `tsc`"));
    Analysis {
        language: s("node"),
        declared: vec![
            dep("lodash", DepKind::Prod),
            dep("Left_Pad", DepKind::Prod),
            dep("typescript", DepKind::Dev),
        ],
        installed,
        used: vec![
            usage("lodash", "a.ts", 1),
            usage("debug", "b.ts", 3),
            usage("debug", "c.ts", 9),
            usage("react", "d.ts", 2),
        ],
        usage_hints: hints,
    }
}

#[test]
fn analyze_splits_unused_suppressed_phantom() {
    let f = analyze(&sample());
    assert_eq!(f.language, "node");
    assert_eq!(f.unused.len(), 1);
    assert_eq!(f.unused[0].name, "Left_Pad");
    assert_eq!(f.unused[0].kind, DepKind::Prod);
    assert_eq!(f.unused[0].manifest, "package.json");
    assert_eq!(f.suppressed.len(), 1);
    assert_eq!(f.suppressed[0].name, "typescript");
    assert_eq!(f.suppressed[0].kind, DepKind::Dev);
    assert_eq!(f.suppressed[0].reason, "provides executable `tsc`");
    // debug once, at its first import; react is not installed
    assert_eq!(f.phantom.len(), 1);
    assert_eq!(f.phantom[0].name, "debug");
    assert_eq!(f.phantom[0].version, "4.3.4");
    assert_eq!(f.phantom[0].example_file, "b.ts");
    assert_eq!(f.phantom[0].example_line, 3);
}

#[test]
fn analyze_empty_is_clean() {
    let a = Analysis {
        language: s("python"),
        declared: vec![],
        installed: StrMap::new(),
        used: vec![],
        usage_hints: StrMap::new(),
    };
    let f = analyze(&a);
    assert_eq!(f.language, "python");
    assert!(f.unused.is_empty() && f.suppressed.is_empty() && f.phantom.is_empty());
}

#[test]
fn unimported_reported_once() {
    let f = analyze(&sample());
    // Left_Pad and typescript are the declared deps nothing imports
    assert_eq!(f.unused.len() + f.suppressed.len(), 2);
}

#[test]
fn why_walks_up_to_an_undeclared_root() {
    let a = sample();
    assert_eq!(why(&a, "MS"), vec![vec![s("debug"), s("ms")]]);
}

#[test]
fn why_stops_at_declared_target() {
    let a = sample();
    assert_eq!(why(&a, "lodash"), vec![vec![s("lodash")]]);
}

#[test]
fn why_uninstalled_is_empty() {
    let a = sample();
    assert!(why(&a, "left-pad").is_empty());
}

#[test]
fn why_stops_at_declared_dep_and_follows_every_parent() {
    let mut installed = StrMap::new();
    installed.insert(s("app-a"), pkg("App_A", "1", &["mid"]));
    installed.insert(s("app-b"), pkg("app-b", "1", &["mid"]));
    installed.insert(s("mid"), pkg("mid", "1", &["leaf"]));
    installed.insert(s("leaf"), pkg("leaf", "1", &[]));
    let a = Analysis {
        language: s("node"),
        declared: vec![dep("App_A", DepKind::Prod)],
        installed,
        used: vec![],
        usage_hints: StrMap::new(),
    };
    assert_eq!(
        why(&a, "leaf"),
        vec![vec![s("App_A"), s("mid"), s("leaf")], vec![s("app-b"), s("mid"), s("leaf")]]
    );
}

#[test]
fn why_cycle_guard() {
    let mut installed = StrMap::new();
    installed.insert(s("a"), pkg("a", "1", &["b"]));
    installed.insert(s("b"), pkg("b", "1", &["a"]));
    let a = Analysis {
        language: s("node"),
        declared: vec![],
        installed,
        used: vec![],
        usage_hints: StrMap::new(),
    };
    // every package has a parent, and the only parent is already on the path
    assert!(why(&a, "a").is_empty());
}

#[test]
fn why_depth_limit() {
    let mut installed = StrMap::new();
    for i in 0..60 {
        let next = format!("p{}", i + 1);
        installed.insert(format!("p{}", i), pkg(&format!("p{}", i), "1", &[&next]));
    }
    // p60 requires nothing; every p_i (i >= 1) is required by p_{i-1}
    installed.insert(s("p60"), pkg("p60", "1", &[]));
    let a = Analysis {
        language: s("node"),
        declared: vec![],
        installed,
        used: vec![],
        usage_hints: StrMap::new(),
    };
    // the walk from p60 gives up before reaching the root p0
    assert!(why(&a, "p60").is_empty());
    // from p40 it reaches p0 within the limit
    let chains = why(&a, "p40");
    assert_eq!(chains.len(), 1);
    assert_eq!(chains[0].len(), 41);
    assert_eq!(chains[0][0], "p0");
    assert_eq!(chains[0][40], "p40");
}
