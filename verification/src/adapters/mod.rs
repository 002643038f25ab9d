//! Per-ecosystem adapters. Each turns what was gathered from a project
//! directory (the texts of its manifests and config files, the source
//! parser's report) into a normalized `Analysis`. Adding a language = adding
//! one adapter here.

pub mod node;
pub mod python;

use vstd::prelude::*;
use crate::model::{lookup, views, Analysis, AnalysisView, SourceImport, SourceImportView, StrMap};
use crate::text::{chars_of, has_prefix, is_prefix, push_str};

verus! {

/// One installed distribution as the Python parser reports it.
pub struct PyInstalled {
    pub name: String,
    pub norm: String,
    pub version: String,
    pub requires: Vec<String>,
    pub entry_groups: Vec<String>,
}

pub struct PyInstalledView {
    pub name: Seq<char>,
    pub norm: Seq<char>,
    pub version: Seq<char>,
    pub requires: Seq<Seq<char>>,
    pub entry_groups: Seq<Seq<char>>,
}

impl View for PyInstalled {
    type V = PyInstalledView;

    open spec fn view(&self) -> PyInstalledView {
        PyInstalledView {
            name: self.name@,
            norm: self.norm@,
            version: self.version@,
            requires: views(self.requires@),
            entry_groups: views(self.entry_groups@),
        }
    }
}

/// What an ecosystem's source parser reported.
pub struct ParserOutput {
    /// Every import found in the sources.
    pub imports: Vec<SourceImport>,
    /// Import module name -> distributions that provide it (Python).
    pub module_to_dist: Vec<(String, Vec<String>)>,
    /// Installed distributions (Python).
    pub installed: Vec<PyInstalled>,
}

pub struct ParserOutputView {
    pub imports: Seq<SourceImportView>,
    pub module_to_dist: Seq<(Seq<char>, Seq<Seq<char>>)>,
    pub installed: Seq<PyInstalledView>,
}

impl View for ParserOutput {
    type V = ParserOutputView;

    open spec fn view(&self) -> ParserOutputView {
        ParserOutputView {
            imports: views(self.imports@),
            module_to_dist: self.module_to_dist@.map_values(
                |e: (String, Vec<String>)| (e.0@, views(e.1@)),
            ),
            installed: views(self.installed@),
        }
    }
}

/// The project files an adapter reads: path (relative to the project root)
/// -> contents, for the files that exist and could be read.
pub struct ProjectFiles {
    pub files: StrMap<String>,
}

impl View for ProjectFiles {
    type V = Seq<(Seq<char>, Seq<char>)>;

    open spec fn view(&self) -> Seq<(Seq<char>, Seq<char>)> {
        self.files@
    }
}

/// Why an adapter could not produce an analysis.
pub enum AnalyzeError {
    /// A required manifest is not among the project files.
    MissingFile(String),
    /// A manifest is not valid for its format.
    Unparsable(String),
}

pub enum AnalyzeErrorView {
    MissingFile(Seq<char>),
    Unparsable(Seq<char>),
}

impl View for AnalyzeError {
    type V = AnalyzeErrorView;

    open spec fn view(&self) -> AnalyzeErrorView {
        match self {
            AnalyzeError::MissingFile(f) => AnalyzeErrorView::MissingFile(f@),
            AnalyzeError::Unparsable(f) => AnalyzeErrorView::Unparsable(f@),
        }
    }
}

/// The view of an analysis outcome.
pub open spec fn outcome_view(r: Result<Analysis, AnalyzeError>) -> Result<AnalysisView, AnalyzeErrorView> {
    match r {
        Ok(a) => Ok(a@),
        Err(e) => Err(e@),
    }
}

/// Index of the first pattern that prefixes `raw`.
pub open spec fn first_pattern(raw: Seq<char>, pats: Seq<(&'static str, &'static str)>) -> Option<int>
    decreases pats.len(),
{
    if pats.len() == 0 {
        None
    } else {
        match first_pattern(raw, pats.drop_last()) {
            Some(i) => Some(i),
            None => if is_prefix(pats.last().0@, raw) {
                Some(pats.len() - 1)
            } else {
                None
            },
        }
    }
}

/// The reason given for a name that matches pattern `p` of kind `label`.
pub open spec fn pattern_reason(p: Seq<char>, label: Seq<char>) -> Seq<char> {
    "name matches `"@ + p + "*` ("@ + label + ")"@
}

pub proof fn lemma_first_pattern(raw: Seq<char>, pats: Seq<(&'static str, &'static str)>)
    ensures
        match first_pattern(raw, pats) {
            Some(i) => 0 <= i < pats.len() && is_prefix(pats[i].0@, raw) && forall|j: int|
                0 <= j < i ==> !is_prefix(pats[j].0@, raw),
            None => forall|j: int| 0 <= j < pats.len() ==> !is_prefix(pats[j].0@, raw),
        },
    decreases pats.len(),
{
    if pats.len() > 0 {
        let d = pats.drop_last();
        lemma_first_pattern(raw, d);
        assert forall|j: int| 0 <= j < d.len() implies d[j] == pats[j] by {}
    }
}

/// The reason message for pattern `p` of kind `label`.
pub fn reason_for(p: &str, label: &str) -> (r: String)
    ensures
        r@ == pattern_reason(p@, label@),
{
    let mut m = String::new();
    push_str(&mut m, "name matches `");
    push_str(&mut m, p);
    push_str(&mut m, "*` (");
    push_str(&mut m, label);
    push_str(&mut m, ")");
    assert(m@ == pattern_reason(p@, label@));
    m
}


/// The reason for the first of `pats` that prefixes `raw`, if any.
pub fn match_pattern<const N: usize>(pats: &[(&'static str, &'static str); N], raw: &str) -> (r:
    Option<String>)
    ensures
        match first_pattern(raw@, pats@) {
            Some(i) => r is Some && r->0@ == pattern_reason(pats@[i].0@, pats@[i].1@),
            None => r is None,
        },
{
    let cs = chars_of(raw);
    let mut i: usize = 0;
    while i < N
        invariant
            cs@ == raw@,
            pats@.len() == N,
            i <= N,
            forall|j: int| 0 <= j < i ==> !is_prefix(pats@[j].0@, raw@),
        decreases N - i,
    {
        let (p, label) = pats[i];
        let pc = chars_of(p);
        if has_prefix(cs.as_slice(), pc.as_slice()) {
            proof {
                lemma_first_pattern(raw@, pats@);
                let f = first_pattern(raw@, pats@);
                if f is Some {
                    let x = f->0;
                    if x < i {
                        assert(!is_prefix(pats@[x].0@, raw@));
                    } else if x > i {
                        assert(is_prefix(pats@[i as int].0@, raw@));
                    }
                }
            }
            return Some(reason_for(p, label));
        }
        i += 1;
    }
    proof {
        lemma_first_pattern(raw@, pats@);
    }
    None
}

/// One ecosystem: how to tell it is present, and how to analyze it.
pub trait Adapter {
    /// The gathered inputs on which `analyze` can run (it does not panic).
    spec fn accepts(&self, out: ParserOutputView, files: Seq<(Seq<char>, Seq<char>)>) -> bool;

    /// What `analyze` gives on accepted inputs.
    spec fn outcome(&self, out: ParserOutputView, files: Seq<(Seq<char>, Seq<char>)>) -> Result<
        AnalysisView,
        AnalyzeErrorView,
    >;

    /// The ecosystem's name.
    spec fn name(&self) -> Seq<char>;

    fn language(&self) -> (r: &'static str)
        ensures
            r@ == self.name(),
    ;

    /// Whether the ecosystem is present, given the names of the marker
    /// files that exist at the project root.
    spec fn detects(&self, present: Seq<Seq<char>>) -> bool;

    /// Whether the ecosystem is present, given the names of the marker files
    /// that exist at the project root.
    fn detect(&self, present: &Vec<String>) -> (r: bool)
        ensures
            r == self.detects(views(present@)),
    ;

    /// Whether `analyze` would reject (panic on) these inputs.
    fn would_panic(&self, out: &ParserOutput, files: &ProjectFiles) -> (r: bool)
        ensures
            r == !self.accepts(out@, files@),
    ;

    fn analyze(&self, out: &ParserOutput, files: &ProjectFiles) -> (r: Result<Analysis, AnalyzeError>)
        requires
            self.accepts(out@, files@),
        ensures
            outcome_view(r) == self.outcome(out@, files@),
    ;

    /// `analyze` on the inputs it accepts; `None` on the others.
    fn try_analyze(&self, out: &ParserOutput, files: &ProjectFiles) -> (r: Option<
        Result<Analysis, AnalyzeError>,
    >)
        ensures
            match r {
                Some(x) => self.accepts(out@, files@) && outcome_view(x) == self.outcome(out@, files@),
                None => !self.accepts(out@, files@),
            },
    {
        if self.would_panic(out, files) {
            None
        } else {
            Some(self.analyze(out, files))
        }
    }
}

/// Every adapter: Node, then Python.
pub fn all() -> (r: Vec<Box<dyn Adapter>>)
    ensures
        r@.len() == 2,
        r@[0].name() == "node"@,
        r@[1].name() == "python"@,
{
    let mut r: Vec<Box<dyn Adapter>> = vec![Box::new(node::NodeAdapter)];
    let mut rest: Vec<Box<dyn Adapter>> = vec![Box::new(python::PythonAdapter)];
    assert(r@[0].name() == "node"@);
    assert(rest@[0].name() == "python"@);
    r.append(&mut rest);
    r
}

/// Whether `name` is among `present`.
pub fn is_present(present: &Vec<String>, name: &str) -> (r: bool)
    ensures
        r == views(present@).contains(name@),
{
    let mut i: usize = 0;
    while i < present.len()
        invariant
            i <= present@.len(),
            forall|j: int| 0 <= j < i ==> present@[j]@ != name@,
        decreases present@.len() - i,
    {
        if crate::text::str_eq(present[i].as_str(), name) {
            assert(views(present@)[i as int] == name@);
            return true;
        }
        i += 1;
    }
    proof {
        let v = views(present@);
        assert forall|j: int| 0 <= j < v.len() implies v[j] != name@ by {
            assert(v[j] == present@[j]@);
        }
    }
    false
}

/// The contents of the files `names` that are present, in that order, each
/// followed by a newline.
pub open spec fn file_text(files: Seq<(Seq<char>, Seq<char>)>, names: Seq<Seq<char>>) -> Seq<char>
    decreases names.len(),
{
    if names.len() == 0 {
        seq![]
    } else {
        file_text(files, names.drop_last()) + match lookup(files, names.last()) {
            Some(t) => t + seq!['\n'],
            None => seq![],
        }
    }
}

/// Appends the contents of each of `names` that is present, each followed by
/// a newline.
pub fn append_files<const N: usize>(blob: &mut String, files: &StrMap<String>, names: &[&'static str; N])
    ensures
        final(blob)@ == old(blob)@ + file_text(files@, names@.map_values(|x: &str| x@)),
{
    let ghost ns = names@.map_values(|x: &str| x@);
    let mut i: usize = 0;
    while i < N
        invariant
            ns == names@.map_values(|x: &str| x@),
            names@.len() == N,
            i <= N,
            blob@ == old(blob)@ + file_text(files@, ns.take(i as int)),
        decreases N - i,
    {
        assert(ns.take(i + 1).drop_last() == ns.take(i as int));
        assert(ns.take(i + 1).last() == names@[i as int]@);
        match files.get(names[i]) {
            Some(t) => {
                push_str(blob, t.as_str());
                push_str(blob, "\n");
                proof {
                    crate::lemma_newline();
                }
            },
            None => {},
        }
        i += 1;
    }
    assert(ns.take(N as int) == ns);
}

} // verus!
