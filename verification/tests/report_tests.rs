use deparch::adapters::python::{choose_python, PythonAdapter, PythonChoice};
use deparch::engine::{Finding, PhantomDep, SuppressedDep, UnusedDep};
use deparch::model::DepKind;
use deparch::report::{decimal_string, render_finding, render_findings, render_why};

fn s(x: &str) -> String {
    x.to_string()
}

fn finding(lang: &str, unused: usize, phantom: bool, suppressed: usize) -> Finding {
    Finding {
        language: s(lang),
        unused: (0..unused)
            .map(|i| UnusedDep { name: format!("u{}", i), kind: DepKind::Dev, manifest: s("package.json") })
            .collect(),
        suppressed: (0..suppressed)
            .map(|i| SuppressedDep {
                name: format!("s{}", i),
                kind: DepKind::Optional,
                manifest: s("package.json"),
                reason: s("type stubs for `x`"),
            })
            .collect(),
        phantom: if phantom {
            vec![PhantomDep { name: s("debug"), version: s("4.3.4"), example_file: s("b.ts"), example_line: 127 }]
        } else {
            vec![]
        },
    }
}

#[test]
fn decimal_numbers() {
    assert_eq!(decimal_string(0), "0");
    assert_eq!(decimal_string(7), "7");
    assert_eq!(decimal_string(10), "10");
    assert_eq!(decimal_string(4096), "4096");
}

#[test]
fn clean_findings() {
    assert_eq!(
        render_finding(&finding("node", 0, false, 0), false),
        "\n=== node ===\n  clean — no unused or phantom deps found\n"
    );
    assert_eq!(
        render_finding(&finding("python", 0, false, 2), false),
        "\n=== python ===\n  clean — 2 dep(s) not imported but likely used (--strict to list)\n"
    );
}

#[test]
fn listed_findings_default_and_strict() {
    let f = finding("node", 1, true, 1);
    let default = render_finding(&f, false);
    assert_eq!(
        default,
        format!(
            "\n=== node ===\n  unused (declared, never imported):\n    ✗ {:<26} [Dev]  package.json\n  phantom (imported, not declared — relying on a transitive):\n    ! {:<26} 4.3.4  (e.g. b.ts:127)\n  (1 dep(s) not imported but likely used — --strict to list)\n",
            "u0", "debug"
        )
    );
    let strict = render_finding(&f, true);
    assert!(strict.ends_with(&format!(
        "  not imported, but likely used:\n    ~ {:<26} [Optional]  type stubs for `x`\n",
        "s0"
    )));
    // suppressed only: clean by default, listed under --strict
    let g = finding("python", 0, false, 1);
    assert!(render_finding(&g, true).contains("not imported, but likely used:\n    ~ s0"));
}

#[test]
fn long_names_are_not_cut() {
    let mut f = finding("node", 1, false, 0);
    f.unused[0].name = s("a-very-long-package-name-beyond-the-column");
    assert!(render_finding(&f, false).contains("    ✗ a-very-long-package-name-beyond-the-column [Dev]  package.json\n"));
}

#[test]
fn note_only_when_some_finding_counts_suppressed() {
    let note = "\nnote: 'likely used' = a binary, config reference, entry point, or type\n      stub explains the dependency despite no source import.\n";
    let with_count = vec![finding("node", 1, false, 1), finding("python", 0, false, 0)];
    assert!(render_findings(&with_count, false).ends_with(note));
    assert!(!render_findings(&with_count, true).contains("note:"));
    let only_clean = vec![finding("node", 0, false, 3)];
    assert!(!render_findings(&only_clean, false).contains("note:"));
    assert_eq!(render_findings(&vec![], false), "");
}

#[test]
fn why_lines() {
    let chains = vec![vec![s("express"), s("debug"), s("ms")], vec![s("ms")]];
    assert_eq!(
        render_why("node", "ms", &chains),
        "\n[node] why is 'ms' here:\n  express → debug → ms\n  ms\n"
    );
    assert_eq!(render_why("python", "x", &vec![]), "\n[python] why is 'x' here:\n");
}

#[test]
fn interpreter_preference() {
    assert_eq!(choose_python(true, &vec![true, true, true]), PythonChoice::ActiveEnv);
    assert_eq!(choose_python(false, &vec![false, true, true]), PythonChoice::Local(1));
    assert_eq!(choose_python(false, &vec![false, false, false]), PythonChoice::System);
    assert_eq!(PythonAdapter::local_pythons()[0], ".venv/bin/python");
}
