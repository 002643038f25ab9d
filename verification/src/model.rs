//! Language-agnostic normalized model that every adapter produces, and the
//! two name-level operations the whole crate compares by.

use vstd::prelude::*;
use crate::text::{
    is_ws,
    ascii_lower, char_ascii_lower, char_is_ascii_alnum, chars_of, find_first, find_from, first_occ, is_ascii_alnum, occurs_at, str_eq, string_of, strip_pred,
    trim_by, trim_chars, trim_end_by, trim_start_by,
};

verus! {

// ---------------------------------------------------------------------------
// Name normalization
// ---------------------------------------------------------------------------

pub open spec fn is_sep(c: char) -> bool {
    c == '-' || c == '_' || c == '.'
}

/// Left-to-right pass over `s`: every run of separators becomes one `'-'`
/// (no `'-'` when the run follows another separator, as told by `prev_sep`),
/// every other character is lower-cased (ASCII only).
pub open spec fn collapse(s: Seq<char>, prev_sep: bool) -> Seq<char>
    decreases s.len(),
{
    if s.len() == 0 {
        seq![]
    } else if is_sep(s[0]) {
        if prev_sep {
            collapse(s.drop_first(), true)
        } else {
            seq!['-'] + collapse(s.drop_first(), true)
        }
    } else {
        seq![ascii_lower(s[0])] + collapse(s.drop_first(), false)
    }
}

/// The normalized form of a package name: surrounding whitespace removed,
/// separator runs collapsed to `'-'`, ASCII lower-cased, and leading and
/// trailing `'-'` removed.
pub open spec fn spec_normalize(s: Seq<char>) -> Seq<char> {
    trim_by(collapse(trim_by(s, strip_pred(false)), false), strip_pred(true))
}

/// PEP 503 / npm-friendly name normalization so declared, installed, and
/// imported names can be compared across the three data sources.
pub fn normalize(name: &str) -> (r: String)
    ensures
        r@ == spec_normalize(name@),
{
    let cs = chars_of(name);
    let t = trim_chars(cs.as_slice(), false);
    let mut out: Vec<char> = Vec::new();
    let mut prev_sep = false;
    let mut i: usize = 0;
    assert(t@.skip(0) == t@);
    while i < t.len()
        invariant
            i <= t@.len(),
            out@ + collapse(t@.skip(i as int), prev_sep) == collapse(t@, false),
        decreases t@.len() - i,
    {
        let c = t[i];
        assert(t@.skip(i as int)[0] == c);
        assert(t@.skip(i as int).drop_first() == t@.skip(i + 1));
        if c == '-' || c == '_' || c == '.' {
            if !prev_sep {
                out.push('-');
                prev_sep = true;
            }
        } else {
            out.push(char_ascii_lower(c));
            prev_sep = false;
        }
        i += 1;
    }
    assert(t@.skip(i as int) =~= Seq::<char>::empty());
    assert(out@ == collapse(t@, false));
    let r = trim_chars(out.as_slice(), true);
    string_of(r.as_slice())
}

// ---------------------------------------------------------------------------
// Whole-token search
// ---------------------------------------------------------------------------

/// Characters that can be part of a package-like identifier.
pub open spec fn is_word(c: char) -> bool {
    is_ascii_alnum(c) || c == '_' || c == '-' || c == '.' || c == '@' || c == '/'
}

/// The occurrence at `i` is not embedded in a larger identifier.
pub open spec fn token_at(hay: Seq<char>, needle: Seq<char>, i: int) -> bool {
    &&& occurs_at(hay, needle, i)
    &&& (i == 0 || !is_word(hay[i - 1]))
    &&& (i + needle.len() >= hay.len() || !is_word(hay[i + needle.len()]))
}

pub open spec fn spec_contains_token(hay: Seq<char>, needle: Seq<char>) -> bool {
    needle.len() > 0 && exists|i: int| token_at(hay, needle, i)
}

/// The scan restarts one byte after a rejected occurrence; when the needle
/// starts with a multi-byte character that byte is inside a character and
/// the slice panics. That happens exactly when the first occurrence is not
/// a whole token.
pub open spec fn token_scan_panics(hay: Seq<char>, needle: Seq<char>) -> bool {
    &&& needle.len() > 0
    &&& (needle[0] as u32) > 0x7F
    &&& exists|i: int|
        occurs_at(hay, needle, i) && !token_at(hay, needle, i) && (forall|j: int|
            0 <= j < i ==> !occurs_at(hay, needle, j))
}

/// Whether `contains_token(hay, needle)` would panic.
pub fn token_scan_would_panic(hay: &str, needle: &str) -> (r: bool)
    ensures
        r == token_scan_panics(hay@, needle@),
{
    let h = chars_of(hay);
    let n = chars_of(needle);
    if n.len() == 0 || (n[0] as u32) <= 0x7F {
        return false;
    }
    let hl = h.len();
    match find_first(h.as_slice(), n.as_slice()) {
        None => {
            proof {
                reveal(first_occ);
            }
            false
        },
        Some(i) => {
            proof {
                reveal(first_occ);
            }
            assert(i + n@.len() <= hl);
            let before_ok = i == 0 || !is_word_char(h[i - 1]);
            let after = i + n.len();
            let after_ok = after >= hl || !is_word_char(h[after]);
            let r = !(before_ok && after_ok);
            proof {
                if !r {
                    assert(token_at(h@, n@, i as int));
                    if token_scan_panics(hay@, needle@) {
                        let x = choose|x: int|
                            occurs_at(h@, n@, x) && !token_at(h@, n@, x) && (forall|j: int|
                                0 <= j < x ==> !occurs_at(h@, n@, j));
                        if x < i {
                            assert(!occurs_at(h@, n@, x));
                        } else if x > i {
                            assert(!occurs_at(h@, n@, i as int));
                        }
                    }
                }
            }
            r
        },
    }
}

fn is_word_char(c: char) -> (r: bool)
    ensures
        r == is_word(c),
{
    char_is_ascii_alnum(c) || c == '_' || c == '-' || c == '.' || c == '@' || c == '/'
}

/// Whole-token containment: is `needle` present in `hay` not embedded inside a
/// larger package-like identifier? Used to scan config files/scripts for a
/// package name without matching `chalk` inside `chalk-next`.
pub fn contains_token(hay: &str, needle: &str) -> (r: bool)
    requires
        !token_scan_panics(hay@, needle@),
    ensures
        r == spec_contains_token(hay@, needle@),
{
    let h = chars_of(hay);
    let n = chars_of(needle);
    if n.len() == 0 {
        return false;
    }
    let nlen = n.len();
    let hl = h.len();
    let mut start: usize = 0;
    loop
        invariant
            hl == h@.len(),
            h@ == hay@,
            n@ == needle@,
            nlen == n@.len() > 0,
            start <= h@.len(),
            !token_scan_panics(hay@, needle@),
            forall|j: int| 0 <= j < start ==> !token_at(h@, n@, j),
            start > 0 ==> (n@[0] as u32) <= 0x7F,
        decreases h@.len() - start,
    {
        match find_from(h.as_slice(), n.as_slice(), start) {
            None => {
                assert forall|j: int| !token_at(h@, n@, j) by {
                    if 0 <= j && j >= start {
                        assert(!occurs_at(h@, n@, j));
                    }
                }
                return false;
            },
            Some(i) => {
                assert(i + n@.len() <= h@.len());
                let before_ok = i == 0 || !is_word_char(h[i - 1]);
                let after = i + nlen;
                let after_ok = after >= hl || !is_word_char(h[after]);
                if before_ok && after_ok {
                    assert(token_at(h@, n@, i as int));
                    return true;
                }
                proof {
                    if (n@[0] as u32) > 0x7F {
                        assert(!token_at(h@, n@, i as int));
                        assert(token_scan_panics(hay@, needle@));
                    }
                }
                start = i + 1;
            },
        }
    }
}



// ---------------------------------------------------------------------------
// What normalization guarantees
// ---------------------------------------------------------------------------

/// No ASCII upper-case letter, `_` or `.`.
pub open spec fn lower_dashed(s: Seq<char>) -> bool {
    forall|i: int| 0 <= i < s.len() ==> !('A' <= #[trigger] s[i] <= 'Z') && s[i] != '_' && s[i] != '.'
}

/// No two `-` in a row.
pub open spec fn no_double_dash(s: Seq<char>) -> bool {
    forall|i: int| 0 <= i < s.len() - 1 ==> !(#[trigger] s[i] == '-' && s[i + 1] == '-')
}

/// `s` is in normalized form: lower-case (ASCII), `-` as the only
/// separator, never doubled and never at either end.
pub open spec fn is_normalized(s: Seq<char>) -> bool {
    &&& lower_dashed(s)
    &&& no_double_dash(s)
    &&& s.len() > 0 ==> s[0] != '-' && s.last() != '-'
}

proof fn lemma_collapse_shape(s: Seq<char>, prev: bool)
    ensures
        lower_dashed(collapse(s, prev)),
        no_double_dash(collapse(s, prev)),
        prev ==> collapse(s, prev).len() == 0 || collapse(s, prev)[0] != '-',
    decreases s.len(),
{
    if s.len() > 0 {
        let rest = s.drop_first();
        if is_sep(s[0]) {
            lemma_collapse_shape(rest, true);
            if !prev {
                let r = seq!['-'] + collapse(rest, true);
                assert forall|i: int| 0 <= i < r.len() implies !('A' <= #[trigger] r[i] <= 'Z') && r[i] != '_' && r[i] != '.' by {
                    if i > 0 {
                        assert(r[i] == collapse(rest, true)[i - 1]);
                    }
                }
                assert forall|i: int| 0 <= i < r.len() - 1 implies !(#[trigger] r[i] == '-' && r[i + 1] == '-') by {
                    if i > 0 {
                        assert(r[i] == collapse(rest, true)[i - 1]);
                        assert(r[i + 1] == collapse(rest, true)[i]);
                    } else {
                        assert(r[1] == collapse(rest, true)[0]);
                    }
                }
            }
        } else {
            lemma_collapse_shape(rest, false);
            let c = ascii_lower(s[0]);
            let r = seq![c] + collapse(rest, false);
            assert(c != '-' && c != '_' && c != '.' && !('A' <= c <= 'Z'));
            assert forall|i: int| 0 <= i < r.len() implies !('A' <= #[trigger] r[i] <= 'Z') && r[i] != '_' && r[i] != '.' by {
                if i > 0 {
                    assert(r[i] == collapse(rest, false)[i - 1]);
                }
            }
            assert forall|i: int| 0 <= i < r.len() - 1 implies !(#[trigger] r[i] == '-' && r[i + 1] == '-') by {
                if i > 0 {
                    assert(r[i] == collapse(rest, false)[i - 1]);
                    assert(r[i + 1] == collapse(rest, false)[i]);
                }
            }
        }
    }
}

proof fn lemma_trim_start_skip_by(s: Seq<char>, p: spec_fn(char) -> bool) -> (a: int)
    ensures
        0 <= a <= s.len(),
        trim_start_by(s, p) == s.skip(a),
        a < s.len() ==> !p(s[a]),
    decreases s.len(),
{
    if s.len() > 0 && p(s[0]) {
        let a = lemma_trim_start_skip_by(s.drop_first(), p);
        assert(s.drop_first().skip(a) == s.skip(a + 1));
        a + 1
    } else {
        assert(s.skip(0) == s);
        0
    }
}

proof fn lemma_trim_end_take_by(s: Seq<char>, p: spec_fn(char) -> bool) -> (b: int)
    ensures
        0 <= b <= s.len(),
        trim_end_by(s, p) == s.take(b),
        b > 0 ==> !p(s[b - 1]),
    decreases s.len(),
{
    if s.len() > 0 && p(s.last()) {
        let b = lemma_trim_end_take_by(s.drop_last(), p);
        assert(s.drop_last().take(b) == s.take(b));
        b
    } else {
        assert(s.take(s.len() as int) == s);
        s.len() as int
    }
}

proof fn lemma_trim_dash_shape(s: Seq<char>)
    requires
        lower_dashed(s),
        no_double_dash(s),
    ensures
        is_normalized(trim_by(s, strip_pred(true))),
{
    let p = strip_pred(true);
    let a = lemma_trim_start_skip_by(s, p);
    let t = s.skip(a);
    let b = lemma_trim_end_take_by(t, p);
    let r = t.take(b);
    assert(trim_by(s, p) == r);
    assert forall|i: int| 0 <= i < r.len() implies #[trigger] r[i] == s[a + i] by {}
    assert forall|i: int| 0 <= i < r.len() implies !('A' <= #[trigger] r[i] <= 'Z') && r[i] != '_' && r[i] != '.' by {
        assert(r[i] == s[a + i]);
    }
    assert forall|i: int| 0 <= i < r.len() - 1 implies !(#[trigger] r[i] == '-' && r[i + 1] == '-') by {
        assert(r[i] == s[a + i]);
        assert(r[i + 1] == s[a + i + 1]);
    }
    if r.len() > 0 {
        assert(r[0] == t[0]);
        assert(r.last() == t[b - 1]);
    }
}

/// The result of normalization is in normalized form: no ASCII upper-case
/// letter, no `_` or `.`, and `-` never doubled nor at either end.
pub proof fn law_normalize_canonical(s: Seq<char>)
    ensures
        is_normalized(spec_normalize(s)),
{
    let t = trim_by(s, strip_pred(false));
    lemma_collapse_shape(t, false);
    lemma_trim_dash_shape(collapse(t, false));
}

proof fn lemma_collapse_fixed(s: Seq<char>, prev: bool)
    requires
        lower_dashed(s),
        no_double_dash(s),
        prev ==> s.len() == 0 || s[0] != '-',
    ensures
        collapse(s, prev) == s,
    decreases s.len(),
{
    if s.len() > 0 {
        let rest = s.drop_first();
        assert forall|i: int| 0 <= i < rest.len() implies !('A' <= #[trigger] rest[i] <= 'Z') && rest[i] != '_' && rest[i] != '.' by {
            assert(rest[i] == s[i + 1]);
        }
        assert forall|i: int| 0 <= i < rest.len() - 1 implies !(#[trigger] rest[i] == '-' && rest[i + 1] == '-') by {
            assert(rest[i] == s[i + 1]);
            assert(rest[i + 1] == s[i + 2]);
        }
        if is_sep(s[0]) {
            assert(s[0] == '-');
            if rest.len() > 0 {
                assert(rest[0] == s[1]);
                assert(!(s[0] == '-' && s[1] == '-'));
            }
            lemma_collapse_fixed(rest, true);
            assert(seq!['-'] + rest == s);
        } else {
            lemma_collapse_fixed(rest, false);
            assert(ascii_lower(s[0]) == s[0]);
            assert(seq![s[0]] + rest == s);
        }
    }
}

/// Normalizing a normalized name changes nothing, when the normalized name
/// neither starts nor ends with whitespace (the inner whitespace of an input
/// such as `"- x"` becomes leading once the `-` is dropped, and a second
/// pass trims it).
pub proof fn law_normalize_idempotent(s: Seq<char>)
    requires
        trim_by(spec_normalize(s), strip_pred(false)) == spec_normalize(s),
    ensures
        spec_normalize(spec_normalize(s)) == spec_normalize(s),
{
    let n = spec_normalize(s);
    law_normalize_canonical(s);
    lemma_collapse_fixed(n, false);
    let p = strip_pred(true);
    if n.len() > 0 {
        assert(!p(n[0]));
        assert(trim_start_by(n, p) == n);
        assert(!p(n.last()));
        assert(trim_end_by(n, p) == n);
    } else {
        assert(trim_start_by(n, p) == n);
        assert(trim_end_by(n, p) == n);
    }
}

/// A name already in normalized form, with no whitespace at either end, is
/// left as it is.
pub proof fn law_normalize_keeps_normalized(s: Seq<char>)
    requires
        is_normalized(s),
        s.len() == 0 || (!is_ws(s[0]) && !is_ws(s.last())),
    ensures
        spec_normalize(s) == s,
{
    let w = strip_pred(false);
    let d = strip_pred(true);
    if s.len() > 0 {
        assert(trim_start_by(s, w) == s);
        assert(trim_end_by(s, w) == s);
        lemma_collapse_fixed(s, false);
        assert(trim_start_by(s, d) == s);
        assert(trim_end_by(s, d) == s);
    } else {
        lemma_collapse_fixed(s, false);
        assert(trim_start_by(s, w) == s);
        assert(trim_end_by(s, w) == s);
        assert(trim_start_by(s, d) == s);
        assert(trim_end_by(s, d) == s);
    }
}

/// `f` changes no character in a way normalization can see: whitespace
/// stays whitespace, separators stay separators, and any other character
/// keeps its lower-case form.
pub open spec fn name_preserving(f: spec_fn(char) -> char) -> bool {
    forall|c: char|
        #![trigger f(c)]
        is_ws(f(c)) == is_ws(c) && is_sep(f(c)) == is_sep(c) && (!is_sep(c) ==> ascii_lower(f(c))
            == ascii_lower(c))
}

proof fn lemma_trim_start_map(s: Seq<char>, f: spec_fn(char) -> char)
    requires
        name_preserving(f),
    ensures
        trim_start_by(s.map_values(f), strip_pred(false)) == trim_start_by(s, strip_pred(false)).map_values(f),
    decreases s.len(),
{
    let m = s.map_values(f);
    if s.len() > 0 {
        assert(m[0] == f(s[0]));
        assert(m.drop_first() =~= s.drop_first().map_values(f));
        lemma_trim_start_map(s.drop_first(), f);
    } else {
        assert(m =~= s.map_values(f));
    }
}

proof fn lemma_trim_end_map(s: Seq<char>, f: spec_fn(char) -> char)
    requires
        name_preserving(f),
    ensures
        trim_end_by(s.map_values(f), strip_pred(false)) == trim_end_by(s, strip_pred(false)).map_values(f),
    decreases s.len(),
{
    let m = s.map_values(f);
    if s.len() > 0 {
        assert(m.last() == f(s.last()));
        assert(m.drop_last() =~= s.drop_last().map_values(f));
        lemma_trim_end_map(s.drop_last(), f);
    }
}

proof fn lemma_collapse_map(t: Seq<char>, prev: bool, f: spec_fn(char) -> char)
    requires
        name_preserving(f),
    ensures
        collapse(t.map_values(f), prev) == collapse(t, prev),
    decreases t.len(),
{
    let m = t.map_values(f);
    if t.len() > 0 {
        assert(m[0] == f(t[0]));
        assert(m.drop_first() =~= t.drop_first().map_values(f));
        lemma_collapse_map(t.drop_first(), true, f);
        lemma_collapse_map(t.drop_first(), false, f);
    }
}

/// Changing characters in a way normalization cannot see changes nothing.
proof fn lemma_normalize_map(s: Seq<char>, f: spec_fn(char) -> char)
    requires
        name_preserving(f),
    ensures
        spec_normalize(s.map_values(f)) == spec_normalize(s),
{
    let w = strip_pred(false);
    lemma_trim_start_map(s, f);
    let t0 = trim_start_by(s, w);
    lemma_trim_end_map(t0, f);
    lemma_collapse_map(trim_by(s, w), false, f);
}

/// Normalization ignores ASCII case: `PyYAML` and `pyyaml` compare equal.
pub proof fn law_normalize_ignores_case(s: Seq<char>)
    ensures
        spec_normalize(s.map_values(|c: char| ascii_lower(c))) == spec_normalize(s),
{
    let f = |c: char| ascii_lower(c);
    assert forall|c: char| #![trigger f(c)]
        is_ws(f(c)) == is_ws(c) && is_sep(f(c)) == is_sep(c) && (!is_sep(c) ==> ascii_lower(f(c))
            == ascii_lower(c)) by {
        if 'A' <= c <= 'Z' {
            assert(('a' as u32) <= (f(c) as u32) <= ('z' as u32));
        }
    }
    lemma_normalize_map(s, f);
}

/// Normalization treats `-`, `_` and `.` alike: `zope.interface` and
/// `zope-interface` compare equal.
pub proof fn law_normalize_separators_alike(s: Seq<char>)
    ensures
        spec_normalize(s.map_values(|c: char| if is_sep(c) { '-' } else { c })) == spec_normalize(s),
{
    let f = |c: char| if is_sep(c) { '-' } else { c };
    assert forall|c: char| #![trigger f(c)]
        is_ws(f(c)) == is_ws(c) && is_sep(f(c)) == is_sep(c) && (!is_sep(c) ==> ascii_lower(f(c))
            == ascii_lower(c)) by {}
    lemma_normalize_map(s, f);
}

// ---------------------------------------------------------------------------
// What the token search guarantees
// ---------------------------------------------------------------------------

/// An empty needle is never found; a found needle occurs in the haystack;
/// an occurrence bounded by non-identifier characters (or the ends) is
/// found.
pub proof fn law_contains_token(hay: Seq<char>, needle: Seq<char>, i: int)
    ensures
        needle.len() == 0 ==> !spec_contains_token(hay, needle),
        spec_contains_token(hay, needle) ==> exists|j: int| occurs_at(hay, needle, j),
        needle.len() > 0 && token_at(hay, needle, i) ==> spec_contains_token(hay, needle),
{
}

/// A non-empty name is a token of itself.
pub proof fn law_whole_text_is_token(s: Seq<char>)
    requires
        s.len() > 0,
    ensures
        spec_contains_token(s, s),
{
    assert(s.subrange(0, s.len() as int) == s);
    assert(token_at(s, s, 0));
}

/// A name never matches inside a longer identifier: when every occurrence
/// is followed by an identifier character (`chalk` in `chalk-next`), the
/// name is not found.
pub proof fn law_no_match_inside_identifier(hay: Seq<char>, needle: Seq<char>)
    requires
        forall|j: int|
            occurs_at(hay, needle, j) ==> j + needle.len() < hay.len() && is_word(
                #[trigger] hay[j + needle.len()],
            ),
    ensures
        !spec_contains_token(hay, needle),
{
    if spec_contains_token(hay, needle) {
        let j = choose|j: int| token_at(hay, needle, j);
        assert(occurs_at(hay, needle, j));
        assert(is_word(hay[j + needle.len()]));
    }
}

// ---------------------------------------------------------------------------
// The normalized model
// ---------------------------------------------------------------------------

#[derive(Debug, Clone, Copy, PartialEq, Eq, Structural)]
pub enum DepKind {
    Prod,
    Dev,
    Optional,
    Peer,
}

/// The views of a sequence of values.
pub open spec fn views<T: View>(s: Seq<T>) -> Seq<T::V> {
    s.map_values(|x: T| x@)
}

/// A dependency the project *declares* in a manifest.
#[derive(Debug, Clone)]
pub struct DeclaredDep {
    /// normalized
    pub name: String,
    pub raw_name: String,
    pub kind: DepKind,
    pub manifest: String,
}

pub struct DeclaredDepView {
    pub name: Seq<char>,
    pub raw_name: Seq<char>,
    pub kind: DepKind,
    pub manifest: Seq<char>,
}

impl View for DeclaredDep {
    type V = DeclaredDepView;

    open spec fn view(&self) -> DeclaredDepView {
        DeclaredDepView {
            name: self.name@,
            raw_name: self.raw_name@,
            kind: self.kind,
            manifest: self.manifest@,
        }
    }
}

/// A package that is actually *installed*, with who it requires.
#[derive(Debug, Clone)]
pub struct ResolvedPkg {
    /// display name
    pub name: String,
    pub version: String,
    /// normalized names
    pub requires: Vec<String>,
}

pub struct ResolvedPkgView {
    pub name: Seq<char>,
    pub version: Seq<char>,
    pub requires: Seq<Seq<char>>,
}

impl View for ResolvedPkg {
    type V = ResolvedPkgView;

    open spec fn view(&self) -> ResolvedPkgView {
        ResolvedPkgView { name: self.name@, version: self.version@, requires: views(self.requires@) }
    }
}

#[derive(Debug)]
pub struct SourceImport {
    pub specifier: String,
    pub file: String,
    pub line: usize,
}

impl Clone for SourceImport {
    fn clone(&self) -> (r: Self)
        ensures
            r@ == self@,
    {
        SourceImport { specifier: self.specifier.clone(), file: self.file.clone(), line: self.line }
    }
}

pub struct SourceImportView {
    pub specifier: Seq<char>,
    pub file: Seq<char>,
    pub line: usize,
}

impl View for SourceImport {
    type V = SourceImportView;

    open spec fn view(&self) -> SourceImportView {
        SourceImportView { specifier: self.specifier@, file: self.file@, line: self.line }
    }
}

/// One resolved use of a package in source code.
#[derive(Debug, Clone)]
pub struct Usage {
    /// normalized package name
    pub package: String,
    pub import: SourceImport,
}

pub struct UsageView {
    pub package: Seq<char>,
    pub import: SourceImportView,
}

impl View for Usage {
    type V = UsageView;

    open spec fn view(&self) -> UsageView {
        UsageView { package: self.package@, import: self.import@ }
    }
}

/// Everything one adapter knows about one ecosystem in the project.
#[derive(Debug, Clone)]
pub struct Analysis {
    pub language: String,
    pub declared: Vec<DeclaredDep>,
    /// keyed by normalized name
    pub installed: StrMap<ResolvedPkg>,
    pub used: Vec<Usage>,
    /// normalized package name -> reason it's likely used without a source
    /// import (binary, config reference, entry point, type stubs, ...).
    pub usage_hints: StrMap<String>,
}

pub struct AnalysisView {
    pub language: Seq<char>,
    pub declared: Seq<DeclaredDepView>,
    pub installed: Seq<(Seq<char>, ResolvedPkgView)>,
    pub used: Seq<UsageView>,
    pub usage_hints: Seq<(Seq<char>, Seq<char>)>,
}

impl View for Analysis {
    type V = AnalysisView;

    open spec fn view(&self) -> AnalysisView {
        AnalysisView {
            language: self.language@,
            declared: views(self.declared@),
            installed: self.installed@,
            used: views(self.used@),
            usage_hints: self.usage_hints@,
        }
    }
}

// ---------------------------------------------------------------------------
// Tables keyed by name
// ---------------------------------------------------------------------------

/// Index of the entry with key `k`, if any (the first one).
pub open spec fn key_index<W>(m: Seq<(Seq<char>, W)>, k: Seq<char>) -> Option<int>
    decreases m.len(),
{
    if m.len() == 0 {
        None
    } else {
        match key_index(m.drop_last(), k) {
            Some(i) => Some(i),
            None => if m.last().0 == k {
                Some(m.len() - 1)
            } else {
                None
            },
        }
    }
}

/// The value stored under `k`.
pub open spec fn lookup<W>(m: Seq<(Seq<char>, W)>, k: Seq<char>) -> Option<W> {
    match key_index(m, k) {
        Some(i) => Some(m[i].1),
        None => None,
    }
}

/// `m` with `k` bound to `v`: the entry of `k` is replaced in place, or a new
/// entry is appended.
pub open spec fn assoc_insert<W>(m: Seq<(Seq<char>, W)>, k: Seq<char>, v: W) -> Seq<(Seq<char>, W)> {
    match key_index(m, k) {
        Some(i) => m.update(i, (k, v)),
        None => m.push((k, v)),
    }
}

/// No key occurs twice.
pub open spec fn keys_unique<W>(m: Seq<(Seq<char>, W)>) -> bool {
    forall|i: int, j: int| 0 <= i < j < m.len() ==> m[i].0 != m[j].0
}

pub proof fn lemma_key_index<W>(m: Seq<(Seq<char>, W)>, k: Seq<char>)
    ensures
        match key_index(m, k) {
            Some(i) => 0 <= i < m.len() && m[i].0 == k && forall|j: int| 0 <= j < i ==> m[j].0 != k,
            None => forall|j: int| 0 <= j < m.len() ==> m[j].0 != k,
        },
    decreases m.len(),
{
    if m.len() > 0 {
        let d = m.drop_last();
        lemma_key_index(d, k);
        assert forall|j: int| 0 <= j < d.len() implies d[j] == m[j] by {}
    }
}

/// `key_index` finds exactly the first entry whose key is `k`.
pub proof fn lemma_key_index_at<W>(m: Seq<(Seq<char>, W)>, k: Seq<char>, i: int)
    requires
        0 <= i < m.len(),
        m[i].0 == k,
        forall|j: int| 0 <= j < i ==> m[j].0 != k,
    ensures
        key_index(m, k) == Some(i),
{
    lemma_key_index(m, k);
    if key_index(m, k) is Some {
        let x = key_index(m, k)->0;
        if x < i {
            assert(m[x].0 != k);
        } else if x > i {
            assert(m[i].0 != k);
        }
    }
}

/// A table read gives back the last write of that key and is unaffected by
/// writes of other keys; writing keeps keys unique.
pub proof fn law_insert_then_lookup<W>(m: Seq<(Seq<char>, W)>, k: Seq<char>, v: W)
    requires
        keys_unique(m),
    ensures
        keys_unique(assoc_insert(m, k, v)),
        lookup(assoc_insert(m, k, v), k) == Some(v),
        forall|k2: Seq<char>| k2 != k ==> lookup(assoc_insert(m, k, v), k2) == lookup(m, k2),
{
    lemma_key_index(m, k);
    let r = assoc_insert(m, k, v);
    match key_index(m, k) {
        Some(i) => {
            lemma_key_index_at(r, k, i);
        },
        None => {
            lemma_key_index_at(r, k, m.len() as int);
        },
    }
    assert forall|k2: Seq<char>| k2 != k implies lookup(r, k2) == lookup(m, k2) by {
        lemma_key_index(m, k2);
        lemma_key_index(r, k2);
        match key_index(m, k2) {
            Some(i) => {
                lemma_key_index_at(r, k2, i);
            },
            None => {
                if key_index(r, k2) is Some {
                    let i = key_index(r, k2)->0;
                    assert(r[i].0 == k2);
                }
            },
        }
    }
}

/// What a sequence contains, its concatenation with another still contains
/// (on the left).
pub proof fn lemma_contains_left<A>(x: Seq<A>, y: Seq<A>, e: A)
    requires
        x.contains(e),
    ensures
        (x + y).contains(e),
{
    let i = choose|i: int| 0 <= i < x.len() && x[i] == e;
    assert((x + y)[i] == e);
}

/// What a sequence contains, its concatenation with another still contains
/// (on the right).
pub proof fn lemma_contains_right<A>(x: Seq<A>, y: Seq<A>, e: A)
    requires
        y.contains(e),
    ensures
        (x + y).contains(e),
{
    let i = choose|i: int| 0 <= i < y.len() && y[i] == e;
    assert((x + y)[x.len() + i] == e);
}

/// Every declared name is in normalized form.
pub open spec fn names_normalized(ds: Seq<DeclaredDepView>) -> bool {
    forall|i: int| 0 <= i < ds.len() ==> is_normalized(#[trigger] ds[i].name)
}

/// Every imported package name is in normalized form.
pub open spec fn packages_normalized(us: Seq<UsageView>) -> bool {
    forall|i: int| 0 <= i < us.len() ==> is_normalized(#[trigger] us[i].package)
}

/// Every key of a table is in normalized form.
pub open spec fn keys_normalized<W>(m: Seq<(Seq<char>, W)>) -> bool {
    forall|i: int| 0 <= i < m.len() ==> is_normalized(#[trigger] m[i].0)
}

pub proof fn lemma_names_concat(a: Seq<DeclaredDepView>, b: Seq<DeclaredDepView>)
    requires
        names_normalized(a),
        names_normalized(b),
    ensures
        names_normalized(a + b),
{
    assert forall|i: int| 0 <= i < (a + b).len() implies is_normalized(#[trigger] (a + b)[i].name) by {
        if i < a.len() {
            assert((a + b)[i] == a[i]);
        } else {
            assert((a + b)[i] == b[i - a.len()]);
        }
    }
}

/// Inserting a normalized key into a table whose keys are normalized keeps
/// them so.
pub proof fn lemma_insert_normalized<W>(m: Seq<(Seq<char>, W)>, k: Seq<char>, v: W)
    requires
        keys_normalized(m),
        is_normalized(k),
    ensures
        keys_normalized(assoc_insert(m, k, v)),
{
    lemma_insert_keys(m, k, v);
    let r = assoc_insert(m, k, v);
    assert forall|i: int| 0 <= i < r.len() implies is_normalized(#[trigger] r[i].0) by {
        if r[i].0 != k {
            let j = choose|j: int| 0 <= j < m.len() && m[j].0 == r[i].0;
            assert(is_normalized(m[j].0));
        }
    }
}

/// Every key of a table grown by one insert is the inserted key or an old
/// key.
pub proof fn lemma_insert_keys<W>(m: Seq<(Seq<char>, W)>, k: Seq<char>, v: W)
    ensures
        forall|i: int|
            0 <= i < assoc_insert(m, k, v).len() ==> #[trigger] assoc_insert(m, k, v)[i].0 == k
                || exists|j: int| 0 <= j < m.len() && m[j].0 == assoc_insert(m, k, v)[i].0,
{
    let r = assoc_insert(m, k, v);
    lemma_key_index(m, k);
    assert forall|i: int| 0 <= i < r.len() implies #[trigger] r[i].0 == k || exists|j: int|
        0 <= j < m.len() && m[j].0 == r[i].0 by {
        if r[i].0 != k {
            assert(m[i].0 == r[i].0);
        }
    }
}

/// A table of values keyed by (normalized) name, in insertion order. No
/// key occurs twice.
#[derive(Debug)]
pub struct StrMap<V: View> {
    entries: Vec<(String, V)>,
}

impl<V: View> View for StrMap<V> {
    type V = Seq<(Seq<char>, V::V)>;

    closed spec fn view(&self) -> Seq<(Seq<char>, V::V)> {
        self.entries@.map_values(|e: (String, V)| (e.0@, e.1@))
    }
}

impl<V: View> StrMap<V> {
    #[verifier::type_invariant]
    spec fn keys_distinct(&self) -> bool {
        keys_unique(self@)
    }

    pub fn new() -> (r: Self)
        ensures
            r@ == Seq::<(Seq<char>, V::V)>::empty(),
    {
        let r = StrMap { entries: Vec::new() };
        assert(r@ =~= Seq::<(Seq<char>, V::V)>::empty());
        r
    }

    pub fn len(&self) -> (r: usize)
        ensures
            r == self@.len(),
            keys_unique(self@),
    {
        proof {
            use_type_invariant(self);
        }
        self.entries.len()
    }

    /// The key and the value of entry `i`, in insertion order.
    pub fn entry(&self, i: usize) -> (r: (&String, &V))
        requires
            i < self@.len(),
        ensures
            r.0@ == self@[i as int].0,
            r.1@ == self@[i as int].1,
    {
        let e = &self.entries[i];
        (&e.0, &e.1)
    }

    /// Position of the entry for `key`.
    pub fn index_of(&self, key: &str) -> (r: Option<usize>)
        ensures
            match r {
                Some(i) => key_index(self@, key@) == Some(i as int) && i < self@.len()
                    && self@[i as int].0 == key@,
                None => key_index(self@, key@) is None,
            },
    {
        let mut i: usize = 0;
        while i < self.entries.len()
            invariant
                i <= self@.len(),
                self@.len() == self.entries@.len(),
                forall|j: int| 0 <= j < i ==> self@[j].0 != key@,
            decreases self@.len() - i,
        {
            assert(self@[i as int].0 == self.entries@[i as int].0@);
            if str_eq(self.entries[i].0.as_str(), key) {
                proof {
                    lemma_key_index_at(self@, key@, i as int);
                }
                return Some(i);
            }
            i += 1;
        }
        proof {
            lemma_key_index(self@, key@);
        }
        None
    }

    pub fn contains_key(&self, key: &str) -> (r: bool)
        ensures
            r == (key_index(self@, key@) is Some),
    {
        self.index_of(key).is_some()
    }

    pub fn get(&self, key: &str) -> (r: Option<&V>)
        ensures
            match r {
                Some(v) => lookup(self@, key@) == Some(v@),
                None => lookup(self@, key@) is None,
            },
    {
        match self.index_of(key) {
            Some(i) => {
                assert(self@[i as int].1 == self.entries@[i as int].1@);
                Some(&self.entries[i].1)
            },
            None => None,
        }
    }

    /// Binds `key` to `value`: the entry of `key` is replaced in place, or a
    /// new entry is appended.
    pub fn insert(&mut self, key: String, value: V)
        ensures
            final(self)@ == assoc_insert(old(self)@, key@, value@),
    {
        proof {
            use_type_invariant(&*self);
            law_insert_then_lookup(self@, key@, value@);
        }
        let ghost target = assoc_insert(self@, key@, value@);
        let pos = self.index_of(key.as_str());
        let mut es: Vec<(String, V)> = Vec::new();
        std::mem::swap(&mut es, &mut self.entries);
        match pos {
            Some(i) => {
                es.set(i, (key, value));
            },
            None => {
                es.push((key, value));
            },
        }
        assert(es@.map_values(|e: (String, V)| (e.0@, e.1@)) =~= target);
        self.entries = es;
    }
}

impl<V: View + Clone> Clone for StrMap<V> {
    /// A copy with the same keys in the same order; each value is cloned.
    fn clone(&self) -> (r: Self)
        ensures
            r@.len() == self@.len(),
            forall|i: int| 0 <= i < self@.len() ==> #[trigger] r@[i].0 == self@[i].0,
    {
        proof {
            use_type_invariant(self);
        }
        let mut es: Vec<(String, V)> = Vec::new();
        let mut i: usize = 0;
        while i < self.entries.len()
            invariant
                i <= self.entries@.len(),
                self@.len() == self.entries@.len(),
                keys_unique(self@),
                es@.len() == i,
                forall|j: int| 0 <= j < i ==> #[trigger] es@[j].0@ == self@[j].0,
            decreases self.entries@.len() - i,
        {
            assert(self@[i as int].0 == self.entries@[i as int].0@);
            let e = &self.entries[i];
            es.push((e.0.clone(), e.1.clone()));
            i += 1;
        }
        let ghost v = es@.map_values(|e: (String, V)| (e.0@, e.1@));
        assert forall|a: int, b: int| 0 <= a < b < v.len() implies v[a].0 != v[b].0 by {
            assert(v[a].0 == es@[a].0@);
            assert(v[b].0 == es@[b].0@);
        }
        StrMap { entries: es }
    }
}

} // verus!
