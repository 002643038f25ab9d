//! Human-readable rendering of findings and dependency chains.

use vstd::prelude::*;
use crate::engine::{
    chain_views, Finding, FindingView, PhantomDep, PhantomDepView, SuppressedDep,
    SuppressedDepView, UnusedDep, UnusedDepView,
};
use crate::model::{views, DepKind};
use crate::text::{chars_of, occurs_at, push_one, push_str};

verus! {

/// The decimal digits.
pub const DIGITS: [char; 10] = ['0', '1', '2', '3', '4', '5', '6', '7', '8', '9'];

/// The decimal representation of `n`.
pub open spec fn decimal(n: nat) -> Seq<char>
    decreases n,
{
    if n < 10 {
        seq![DIGITS@[n as int]]
    } else {
        decimal(n / 10).push(DIGITS@[(n % 10) as int])
    }
}

/// `n` in decimal (what `{}` prints for an integer).
pub fn decimal_string(n: usize) -> (r: String)
    ensures
        r@ == decimal(n as nat),
    decreases n,
{
    if n < 10 {
        let mut s = String::new();
        push_one(&mut s, DIGITS[n]);
        assert(s@ =~= decimal(n as nat));
        s
    } else {
        let mut s = decimal_string(n / 10);
        push_one(&mut s, DIGITS[n % 10]);
        s
    }
}

/// `s` followed by spaces up to `w` characters (what `{:<w}` prints).
pub open spec fn pad_right(s: Seq<char>, w: nat) -> Seq<char> {
    if s.len() >= w {
        s
    } else {
        s + Seq::new((w - s.len()) as nat, |i: int| ' ')
    }
}

fn push_padded(out: &mut String, s: &str, w: usize)
    ensures
        final(out)@ == old(out)@ + pad_right(s@, w as nat),
{
    push_str(out, s);
    let n = chars_of(s).len();
    if n < w {
        let ghost base = out@;
        let mut k = n;
        while k < w
            invariant
                n == s@.len(),
                n <= k <= w,
                out@ =~= base + Seq::new((k - n) as nat, |i: int| ' '),
            decreases w - k,
        {
            push_one(out, ' ');
            k += 1;
        }
    }
    assert(out@ =~= old(out)@ + pad_right(s@, w as nat));
}

/// How a dependency kind is printed (`{:?}`).
pub open spec fn kind_name(k: DepKind) -> Seq<char> {
    match k {
        DepKind::Prod => "Prod"@,
        DepKind::Dev => "Dev"@,
        DepKind::Optional => "Optional"@,
        DepKind::Peer => "Peer"@,
    }
}

fn kind_str(k: DepKind) -> (r: &'static str)
    ensures
        r@ == kind_name(k),
{
    match k {
        DepKind::Prod => "Prod",
        DepKind::Dev => "Dev",
        DepKind::Optional => "Optional",
        DepKind::Peer => "Peer",
    }
}

// ---------------------------------------------------------------------------
// Findings
// ---------------------------------------------------------------------------

pub open spec fn unused_line(u: UnusedDepView) -> Seq<char> {
    "    ✗ "@ + pad_right(u.name, 26) + " ["@ + kind_name(u.kind) + "]  "@ + u.manifest + "\n"@
}

pub open spec fn phantom_line(p: PhantomDepView) -> Seq<char> {
    "    ! "@ + pad_right(p.name, 26) + " "@ + p.version + "  (e.g. "@ + p.example_file + ":"@
        + decimal(p.example_line as nat) + ")\n"@
}

pub open spec fn suppressed_line(s: SuppressedDepView) -> Seq<char> {
    "    ~ "@ + pad_right(s.name, 26) + " ["@ + kind_name(s.kind) + "]  "@ + s.reason + "\n"@
}

pub open spec fn unused_lines(us: Seq<UnusedDepView>) -> Seq<char>
    decreases us.len(),
{
    if us.len() == 0 {
        seq![]
    } else {
        unused_lines(us.drop_last()) + unused_line(us.last())
    }
}

pub open spec fn phantom_lines(ps: Seq<PhantomDepView>) -> Seq<char>
    decreases ps.len(),
{
    if ps.len() == 0 {
        seq![]
    } else {
        phantom_lines(ps.drop_last()) + phantom_line(ps.last())
    }
}

pub open spec fn suppressed_lines(ss: Seq<SuppressedDepView>) -> Seq<char>
    decreases ss.len(),
{
    if ss.len() == 0 {
        seq![]
    } else {
        suppressed_lines(ss.drop_last()) + suppressed_line(ss.last())
    }
}

/// A finding with nothing to list: no unused and no phantom dependency,
/// and no suppressed one unless `strict` asks for them.
pub open spec fn is_clean(f: FindingView, strict: bool) -> bool {
    f.unused.len() == 0 && f.phantom.len() == 0 && (f.suppressed.len() == 0 || !strict)
}

/// The finding lists dependencies and only counts its suppressed ones, so
/// the report ends with the note on what "likely used" means.
pub open spec fn needs_note(f: FindingView, strict: bool) -> bool {
    !is_clean(f, strict) && !strict && f.suppressed.len() > 0
}

/// The section of one finding: a clean line, or the unused and phantom
/// lists and then either the suppressed list (`strict`) or their count.
pub open spec fn finding_text(f: FindingView, strict: bool) -> Seq<char> {
    "\n=== "@ + f.language + " ===\n"@ + if is_clean(f, strict) {
        if f.suppressed.len() == 0 {
            "  clean — no unused or phantom deps found\n"@
        } else {
            "  clean — "@ + decimal(f.suppressed.len()) + " dep(s) not imported but likely used (--strict to list)\n"@
        }
    } else {
        (if f.unused.len() > 0 {
            "  unused (declared, never imported):\n"@ + unused_lines(f.unused)
        } else {
            seq![]
        }) + (if f.phantom.len() > 0 {
            "  phantom (imported, not declared — relying on a transitive):\n"@ + phantom_lines(f.phantom)
        } else {
            seq![]
        }) + (if strict && f.suppressed.len() > 0 {
            "  not imported, but likely used:\n"@ + suppressed_lines(f.suppressed)
        } else if f.suppressed.len() > 0 {
            "  ("@ + decimal(f.suppressed.len()) + " dep(s) not imported but likely used — --strict to list)\n"@
        } else {
            seq![]
        })
    }
}

pub open spec fn findings_text(fs: Seq<FindingView>, strict: bool) -> Seq<char>
    decreases fs.len(),
{
    if fs.len() == 0 {
        seq![]
    } else {
        findings_text(fs.drop_last(), strict) + finding_text(fs.last(), strict)
    }
}

/// The closing note on what "likely used" means.
pub open spec fn likely_used_note() -> Seq<char> {
    "\nnote: 'likely used' = a binary, config reference, entry point, or type\n      stub explains the dependency despite no source import.\n"@
}

/// The whole report: each finding's section, then the note when some
/// finding only counted its suppressed dependencies.
pub open spec fn spec_render_findings(fs: Seq<FindingView>, strict: bool) -> Seq<char> {
    findings_text(fs, strict) + if exists|i: int| 0 <= i < fs.len() && needs_note(#[trigger] fs[i], strict) {
        likely_used_note()
    } else {
        seq![]
    }
}

fn push_unused(out: &mut String, us: &Vec<UnusedDep>)
    ensures
        final(out)@ == old(out)@ + unused_lines(views(us@)),
{
    let ghost v = views(us@);
    let mut i: usize = 0;
    while i < us.len()
        invariant
            v == views(us@),
            i <= v.len(),
            out@ == old(out)@ + unused_lines(v.take(i as int)),
        decreases v.len() - i,
    {
        let u = &us[i];
        assert(v.take(i + 1).drop_last() == v.take(i as int));
        assert(v.take(i + 1).last() == u@);
        let ghost before = out@;
        push_str(out, "    ✗ ");
        push_padded(out, u.name.as_str(), 26);
        push_str(out, " [");
        push_str(out, kind_str(u.kind));
        push_str(out, "]  ");
        push_str(out, u.manifest.as_str());
        push_str(out, "\n");
        assert(out@ =~= before + unused_line(u@));
        i += 1;
    }
    assert(v.take(v.len() as int) == v);
}

fn push_phantom(out: &mut String, ps: &Vec<PhantomDep>)
    ensures
        final(out)@ == old(out)@ + phantom_lines(views(ps@)),
{
    let ghost v = views(ps@);
    let mut i: usize = 0;
    while i < ps.len()
        invariant
            v == views(ps@),
            i <= v.len(),
            out@ == old(out)@ + phantom_lines(v.take(i as int)),
        decreases v.len() - i,
    {
        let p = &ps[i];
        assert(v.take(i + 1).drop_last() == v.take(i as int));
        assert(v.take(i + 1).last() == p@);
        let ghost before = out@;
        push_str(out, "    ! ");
        push_padded(out, p.name.as_str(), 26);
        push_str(out, " ");
        push_str(out, p.version.as_str());
        push_str(out, "  (e.g. ");
        push_str(out, p.example_file.as_str());
        push_str(out, ":");
        let line = decimal_string(p.example_line);
        push_str(out, line.as_str());
        push_str(out, ")\n");
        assert(out@ =~= before + phantom_line(p@));
        i += 1;
    }
    assert(v.take(v.len() as int) == v);
}

fn push_suppressed(out: &mut String, ss: &Vec<SuppressedDep>)
    ensures
        final(out)@ == old(out)@ + suppressed_lines(views(ss@)),
{
    let ghost v = views(ss@);
    let mut i: usize = 0;
    while i < ss.len()
        invariant
            v == views(ss@),
            i <= v.len(),
            out@ == old(out)@ + suppressed_lines(v.take(i as int)),
        decreases v.len() - i,
    {
        let s = &ss[i];
        assert(v.take(i + 1).drop_last() == v.take(i as int));
        assert(v.take(i + 1).last() == s@);
        let ghost before = out@;
        push_str(out, "    ~ ");
        push_padded(out, s.name.as_str(), 26);
        push_str(out, " [");
        push_str(out, kind_str(s.kind));
        push_str(out, "]  ");
        push_str(out, s.reason.as_str());
        push_str(out, "\n");
        assert(out@ =~= before + suppressed_line(s@));
        i += 1;
    }
    assert(v.take(v.len() as int) == v);
}

/// The section of one finding.
pub fn render_finding(f: &Finding, strict: bool) -> (r: String)
    ensures
        r@ == finding_text(f@, strict),
{
    let mut out = String::new();
    push_str(&mut out, "\n=== ");
    push_str(&mut out, f.language.as_str());
    push_str(&mut out, " ===\n");
    let ghost head = out@;
    let nu = f.unused.len();
    let np = f.phantom.len();
    let ns = f.suppressed.len();
    if nu == 0 && np == 0 && (ns == 0 || !strict) {
        if ns == 0 {
            push_str(&mut out, "  clean — no unused or phantom deps found\n");
        } else {
            push_str(&mut out, "  clean — ");
            let n = decimal_string(ns);
            push_str(&mut out, n.as_str());
            push_str(&mut out, " dep(s) not imported but likely used (--strict to list)\n");
        }
        assert(out@ =~= finding_text(f@, strict));
        return out;
    }
    if nu > 0 {
        push_str(&mut out, "  unused (declared, never imported):\n");
        push_unused(&mut out, &f.unused);
    }
    let ghost after_unused = out@;
    assert(after_unused =~= head + (if f@.unused.len() > 0 {
        "  unused (declared, never imported):\n"@ + unused_lines(f@.unused)
    } else {
        seq![]
    }));
    if np > 0 {
        push_str(&mut out, "  phantom (imported, not declared — relying on a transitive):\n");
        push_phantom(&mut out, &f.phantom);
    }
    let ghost after_phantom = out@;
    assert(after_phantom =~= after_unused + (if f@.phantom.len() > 0 {
        "  phantom (imported, not declared — relying on a transitive):\n"@ + phantom_lines(f@.phantom)
    } else {
        seq![]
    }));
    if strict && ns > 0 {
        push_str(&mut out, "  not imported, but likely used:\n");
        push_suppressed(&mut out, &f.suppressed);
    } else if ns > 0 {
        push_str(&mut out, "  (");
        let n = decimal_string(ns);
        push_str(&mut out, n.as_str());
        push_str(&mut out, " dep(s) not imported but likely used — --strict to list)\n");
    }
    assert(out@ =~= finding_text(f@, strict));
    out
}

/// The report on `findings`: the section of each, then, when some finding
/// only counted its suppressed dependencies, the note on what "likely used"
/// means.
pub fn render_findings(findings: &Vec<Finding>, strict: bool) -> (r: String)
    ensures
        r@ == spec_render_findings(views(findings@), strict),
{
    let ghost fs = views(findings@);
    let mut out = String::new();
    let mut noted = false;
    let mut i: usize = 0;
    while i < findings.len()
        invariant
            fs == views(findings@),
            i <= fs.len(),
            out@ == findings_text(fs.take(i as int), strict),
            noted == exists|j: int| 0 <= j < i && needs_note(#[trigger] fs[j], strict),
        decreases fs.len() - i,
    {
        let f = &findings[i];
        assert(fs.take(i + 1).drop_last() == fs.take(i as int));
        assert(fs.take(i + 1).last() == f@);
        assert(fs[i as int] == f@);
        let part = render_finding(f, strict);
        push_str(&mut out, part.as_str());
        let nu = f.unused.len();
        let np = f.phantom.len();
        let ns = f.suppressed.len();
        let clean = nu == 0 && np == 0 && (ns == 0 || !strict);
        if !clean && !strict && ns > 0 {
            noted = true;
        }
        i += 1;
    }
    assert(fs.take(fs.len() as int) == fs);
    if noted {
        push_str(
            &mut out,
            "\nnote: 'likely used' = a binary, config reference, entry point, or type\n      stub explains the dependency despite no source import.\n",
        );
    }
    out
}

// ---------------------------------------------------------------------------
// Dependency chains
// ---------------------------------------------------------------------------

/// The names of a chain joined by arrows (`join(" → ")`).
pub open spec fn arrow_join(c: Seq<Seq<char>>) -> Seq<char>
    decreases c.len(),
{
    if c.len() == 0 {
        seq![]
    } else if c.len() == 1 {
        c[0]
    } else {
        arrow_join(c.drop_last()) + " → "@ + c.last()
    }
}

pub open spec fn chain_lines(cs: Seq<Seq<Seq<char>>>) -> Seq<char>
    decreases cs.len(),
{
    if cs.len() == 0 {
        seq![]
    } else {
        chain_lines(cs.drop_last()) + "  "@ + arrow_join(cs.last()) + "\n"@
    }
}

/// What `why` prints for `target` in ecosystem `lang`: a heading, then one
/// line per chain.
pub open spec fn spec_render_why(lang: Seq<char>, target: Seq<char>, chains: Seq<Seq<Seq<char>>>) -> Seq<
    char,
> {
    "\n["@ + lang + "] why is '"@ + target + "' here:\n"@ + chain_lines(chains)
}

fn push_chain(out: &mut String, c: &Vec<String>)
    ensures
        final(out)@ == old(out)@ + arrow_join(views(c@)),
{
    let ghost v = views(c@);
    let mut i: usize = 0;
    while i < c.len()
        invariant
            v == views(c@),
            i <= v.len(),
            out@ == old(out)@ + arrow_join(v.take(i as int)),
        decreases v.len() - i,
    {
        assert(v.take(i + 1).drop_last() == v.take(i as int));
        assert(v.take(i + 1).last() == c@[i as int]@);
        let ghost before = out@;
        if i > 0 {
            push_str(out, " → ");
        } else {
            assert(v.take(0) =~= Seq::<Seq<char>>::empty());
        }
        push_str(out, c[i].as_str());
        assert(out@ =~= old(out)@ + arrow_join(v.take(i + 1)));
        i += 1;
    }
    assert(v.take(v.len() as int) == v);
}

/// The chains that explain why `target` is installed, one per line.
pub fn render_why(lang: &str, target: &str, chains: &Vec<Vec<String>>) -> (r: String)
    ensures
        r@ == spec_render_why(lang@, target@, chain_views(chains@)),
{
    let ghost cv = chain_views(chains@);
    let mut out = String::new();
    push_str(&mut out, "\n[");
    push_str(&mut out, lang);
    push_str(&mut out, "] why is '");
    push_str(&mut out, target);
    push_str(&mut out, "' here:\n");
    let ghost head = out@;
    let mut i: usize = 0;
    while i < chains.len()
        invariant
            cv == chain_views(chains@),
            i <= cv.len(),
            out@ == head + chain_lines(cv.take(i as int)),
        decreases cv.len() - i,
    {
        assert(cv.take(i + 1).drop_last() == cv.take(i as int));
        assert(cv.take(i + 1).last() == views(chains@[i as int]@));
        let ghost before = out@;
        push_str(&mut out, "  ");
        push_chain(&mut out, &chains[i]);
        push_str(&mut out, "\n");
        assert(out@ =~= before + "  "@ + arrow_join(views(chains@[i as int]@)) + "\n"@);
        i += 1;
    }
    assert(cv.take(cv.len() as int) == cv);
    out
}

// ---------------------------------------------------------------------------
// What the report shows
// ---------------------------------------------------------------------------

/// `--strict` changes nothing for a finding without suppressed
/// dependencies.
pub proof fn law_strict_only_lists_suppressed(f: FindingView)
    requires
        f.suppressed.len() == 0,
    ensures
        finding_text(f, true) == finding_text(f, false),
{
}

proof fn lemma_occurs_shift(x: Seq<char>, y: Seq<char>, z: Seq<char>, line: Seq<char>, i: int)
    requires
        occurs_at(y, line, i),
    ensures
        occurs_at(x + y + z, line, x.len() + i),
{
    assert((x + y + z).subrange(x.len() + i, x.len() + i + line.len()) =~= y.subrange(i, i + line.len()));
}

proof fn lemma_suppressed_line_in(ss: Seq<SuppressedDepView>, k: int) -> (at: int)
    requires
        0 <= k < ss.len(),
    ensures
        occurs_at(suppressed_lines(ss), suppressed_line(ss[k]), at),
    decreases ss.len(),
{
    let d = ss.drop_last();
    let rest = suppressed_lines(d);
    let last = suppressed_line(ss.last());
    if k == ss.len() - 1 {
        assert((rest + last).subrange(rest.len() as int, (rest.len() + last.len()) as int) =~= last);
        rest.len() as int
    } else {
        assert(d[k] == ss[k]);
        let at = lemma_suppressed_line_in(d, k);
        lemma_occurs_shift(seq![], rest, last, suppressed_line(ss[k]), at);
        assert(seq![] + rest + last =~= rest + last);
        at
    }
}

/// Under `--strict`, a finding lists every suppressed
/// dependency with its kind and the reason it was spared.
pub proof fn law_strict_lists_every_suppressed(f: FindingView, k: int)
    requires
        0 <= k < f.suppressed.len(),
    ensures
        exists|at: int| occurs_at(finding_text(f, true), suppressed_line(f.suppressed[k]), at),
{
    let at = lemma_suppressed_line_in(f.suppressed, k);
    let head = "\n=== "@ + f.language + " ===\n"@;
    let u = if f.unused.len() > 0 {
        "  unused (declared, never imported):\n"@ + unused_lines(f.unused)
    } else {
        seq![]
    };
    let p = if f.phantom.len() > 0 {
        "  phantom (imported, not declared — relying on a transitive):\n"@ + phantom_lines(f.phantom)
    } else {
        seq![]
    };
    let title = "  not imported, but likely used:\n"@;
    let x = head + u + p + title;
    lemma_occurs_shift(x, suppressed_lines(f.suppressed), seq![], suppressed_line(f.suppressed[k]), at);
    assert(finding_text(f, true) =~= x + suppressed_lines(f.suppressed) + seq![]);
}

} // verus!
