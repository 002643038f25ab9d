//! Character-level helpers shared by the whole crate.

use vstd::prelude::*;

verus! {

/// The Unicode `White_Space` property (what `char::is_whitespace` and
/// `str::trim` test).
pub open spec fn is_ws(c: char) -> bool {
    let u = c as u32;
    ||| 0x09 <= u <= 0x0D
    ||| u == 0x20
    ||| u == 0x85
    ||| u == 0xA0
    ||| u == 0x1680
    ||| 0x2000 <= u <= 0x200A
    ||| u == 0x2028
    ||| u == 0x2029
    ||| u == 0x202F
    ||| u == 0x205F
    ||| u == 0x3000
}

pub open spec fn is_ascii_alnum(c: char) -> bool {
    ||| 'a' <= c <= 'z'
    ||| 'A' <= c <= 'Z'
    ||| '0' <= c <= '9'
}

/// `char::to_ascii_lowercase`.
pub open spec fn ascii_lower(c: char) -> char {
    if 'A' <= c <= 'Z' {
        ((c as u32) + 32) as char
    } else {
        c
    }
}

/// `p` is a prefix of `s`.
pub open spec fn is_prefix(p: Seq<char>, s: Seq<char>) -> bool {
    p.len() <= s.len() && s.subrange(0, p.len() as int) == p
}

/// Drops the leading characters that satisfy `p`.
pub open spec fn trim_start_by(s: Seq<char>, p: spec_fn(char) -> bool) -> Seq<char>
    decreases s.len(),
{
    if s.len() > 0 && p(s[0]) {
        trim_start_by(s.drop_first(), p)
    } else {
        s
    }
}

/// Drops the trailing characters that satisfy `p`.
pub open spec fn trim_end_by(s: Seq<char>, p: spec_fn(char) -> bool) -> Seq<char>
    decreases s.len(),
{
    if s.len() > 0 && p(s.last()) {
        trim_end_by(s.drop_last(), p)
    } else {
        s
    }
}

/// Drops leading and trailing characters that satisfy `p`.
pub open spec fn trim_by(s: Seq<char>, p: spec_fn(char) -> bool) -> Seq<char> {
    trim_end_by(trim_start_by(s, p), p)
}

/// The predicate a trimming call strips: `'-'` or Unicode whitespace.
pub open spec fn strip_pred(dash: bool) -> spec_fn(char) -> bool {
    if dash {
        |c: char| c == '-'
    } else {
        |c: char| is_ws(c)
    }
}

pub fn char_is_ws(c: char) -> (r: bool)
    ensures
        r == is_ws(c),
{
    let u = c as u32;
    (0x09 <= u && u <= 0x0D) || u == 0x20 || u == 0x85 || u == 0xA0 || u == 0x1680 || (0x2000
        <= u && u <= 0x200A) || u == 0x2028 || u == 0x2029 || u == 0x202F || u == 0x205F || u
        == 0x3000
}

pub fn char_is_ascii_alnum(c: char) -> (r: bool)
    ensures
        r == is_ascii_alnum(c),
{
    ('a' <= c && c <= 'z') || ('A' <= c && c <= 'Z') || ('0' <= c && c <= '9')
}

pub fn char_ascii_lower(c: char) -> (r: char)
    ensures
        r == ascii_lower(c),
{
    if 'A' <= c && c <= 'Z' {
        ((c as u8) + 32) as char
    } else {
        c
    }
}

/// The characters of a string slice.
pub fn chars_of(s: &str) -> (r: Vec<char>)
    ensures
        r@ == s@,
{
    let mut r: Vec<char> = Vec::new();
    for c in it: s.chars()
        invariant
            it.seq() == s@,
            r@ == it.seq().take(it.index() as int),
    {
        r.push(c);
    }
    r
}

/// `String::push`.
#[verifier::external_body]
fn push_char(s: &mut String, c: char)
    ensures
        final(s)@ == old(s)@.push(c),
{
    s.push(c);
}

/// A string made of the given characters.
pub fn string_of(cs: &[char]) -> (r: String)
    ensures
        r@ == cs@,
{
    let mut r = String::new();
    let mut i: usize = 0;
    while i < cs.len()
        invariant
            i <= cs@.len(),
            r@ == cs@.take(i as int),
        decreases cs@.len() - i,
    {
        push_char(&mut r, cs[i]);
        assert(cs@.take(i + 1) == cs@.take(i as int).push(cs@[i as int]));
        i += 1;
    }
    assert(cs@.take(cs@.len() as int) == cs@);
    r
}

/// A copy of the characters `from..to` of `cs`.
pub fn sub_chars(cs: &[char], from: usize, to: usize) -> (r: Vec<char>)
    requires
        from <= to <= cs@.len(),
    ensures
        r@ == cs@.subrange(from as int, to as int),
{
    let mut r: Vec<char> = Vec::new();
    let mut i = from;
    while i < to
        invariant
            from <= i <= to <= cs@.len(),
            r@ == cs@.subrange(from as int, i as int),
        decreases to - i,
    {
        r.push(cs[i]);
        assert(cs@.subrange(from as int, i + 1) == cs@.subrange(from as int, i as int).push(
            cs@[i as int],
        ));
        i += 1;
    }
    r
}

/// Whether two character sequences are equal.
pub fn chars_eq(a: &[char], b: &[char]) -> (r: bool)
    ensures
        r == (a@ == b@),
{
    if a.len() != b.len() {
        return false;
    }
    let mut i: usize = 0;
    while i < a.len()
        invariant
            a@.len() == b@.len(),
            i <= a@.len(),
            forall|j: int| 0 <= j < i ==> a@[j] == b@[j],
        decreases a@.len() - i,
    {
        if a[i] != b[i] {
            return false;
        }
        i += 1;
    }
    assert(a@ == b@);
    true
}

/// Whether two string slices hold the same characters.
pub fn str_eq(a: &str, b: &str) -> (r: bool)
    ensures
        r == (a@ == b@),
{
    let ca = chars_of(a);
    let cb = chars_of(b);
    chars_eq(ca.as_slice(), cb.as_slice())
}

/// Whether `p` is a prefix of `s`.
pub fn has_prefix(s: &[char], p: &[char]) -> (r: bool)
    ensures
        r == is_prefix(p@, s@),
{
    if p.len() > s.len() {
        return false;
    }
    let mut i: usize = 0;
    while i < p.len()
        invariant
            p@.len() <= s@.len(),
            i <= p@.len(),
            forall|j: int| 0 <= j < i ==> s@[j] == p@[j],
        decreases p@.len() - i,
    {
        if s[i] != p[i] {
            assert(s@.subrange(0, p@.len() as int)[i as int] != p@[i as int]);
            return false;
        }
        i += 1;
    }
    assert(s@.subrange(0, p@.len() as int) == p@);
    true
}

proof fn lemma_trim_start_skip(s: Seq<char>, p: spec_fn(char) -> bool, i: int)
    requires
        0 <= i <= s.len(),
        forall|j: int| 0 <= j < i ==> p(s[j]),
    ensures
        trim_start_by(s, p) == trim_start_by(s.skip(i), p),
    decreases i,
{
    if i > 0 {
        assert(s.skip(1) == s.drop_first());
        lemma_trim_start_skip(s.drop_first(), p, i - 1);
        assert(s.drop_first().skip(i - 1) == s.skip(i));
    } else {
        assert(s.skip(0) == s);
    }
}

proof fn lemma_trim_end_take(s: Seq<char>, p: spec_fn(char) -> bool, i: int)
    requires
        0 <= i <= s.len(),
        forall|j: int| i <= j < s.len() ==> p(s[j]),
    ensures
        trim_end_by(s, p) == trim_end_by(s.take(i), p),
    decreases s.len() - i,
{
    if i < s.len() {
        lemma_trim_end_take(s.drop_last(), p, i);
        assert(s.drop_last().take(i) == s.take(i));
    } else {
        assert(s.take(i) == s);
    }
}

fn strips(c: char, dash: bool) -> (r: bool)
    ensures
        r == strip_pred(dash)(c),
{
    if dash {
        c == '-'
    } else {
        char_is_ws(c)
    }
}

/// Strips leading and trailing `'-'` (when `dash`) or whitespace.
pub fn trim_chars(cs: &[char], dash: bool) -> (r: Vec<char>)
    ensures
        r@ == trim_by(cs@, strip_pred(dash)),
{
    let ghost p = strip_pred(dash);
    let n = cs.len();
    let mut i: usize = 0;
    while i < n && strips(cs[i], dash)
        invariant
            n == cs@.len(),
            i <= n,
            p == strip_pred(dash),
            forall|j: int| 0 <= j < i ==> p(cs@[j]),
        decreases n - i,
    {
        i += 1;
    }
    proof {
        lemma_trim_start_skip(cs@, p, i as int);
        if i < n {
            assert(!p(cs@[i as int]));
            assert(cs@.skip(i as int)[0] == cs@[i as int]);
        }
    }
    let mut j: usize = n;
    while j > i && strips(cs[j - 1], dash)
        invariant
            n == cs@.len(),
            i <= j <= n,
            p == strip_pred(dash),
            forall|k: int| j <= k < n ==> p(cs@[k]),
        decreases j,
    {
        j -= 1;
    }
    let r = sub_chars(cs, i, j);
    proof {
        let t = cs@.skip(i as int);
        assert(trim_start_by(cs@, p) == t);
        assert forall|k: int| (j - i) <= k < t.len() implies p(t[k]) by {
            assert(t[k] == cs@[k + i]);
        }
        lemma_trim_end_take(t, p, j - i);
        assert(t.take(j - i) == cs@.subrange(i as int, j as int));
        if j > i {
            assert(t.take(j - i).last() == cs@[j - 1]);
        }
    }
    r
}

/// `needle` occurs in `hay` starting at character `i`.
pub open spec fn occurs_at(hay: Seq<char>, needle: Seq<char>, i: int) -> bool {
    0 <= i && i + needle.len() <= hay.len() && hay.subrange(i, i + needle.len()) == needle
}


/// The first occurrence of `p` in `s`.
#[verifier::opaque]
pub open spec fn first_occ(s: Seq<char>, p: Seq<char>) -> Option<int> {
    if exists|i: int|
        occurs_at(s, p, i) && forall|j: int| 0 <= j < i ==> !occurs_at(s, p, j) {
        Some(
            choose|i: int|
                occurs_at(s, p, i) && forall|j: int| 0 <= j < i ==> !occurs_at(s, p, j),
        )
    } else {
        None
    }
}

pub proof fn lemma_first_occ_bound(s: Seq<char>, p: Seq<char>)
    ensures
        first_occ(s, p) matches Some(i) ==> occurs_at(s, p, i),
{
    reveal(first_occ);
}

proof fn lemma_occurs_char(s: Seq<char>, c: char, j: int)
    ensures
        occurs_at(s, seq![c], j) <==> (0 <= j < s.len() && s[j] == c),
{
    if 0 <= j < s.len() {
        if s[j] == c {
            assert(s.subrange(j, j + 1) =~= seq![c]);
        } else {
            assert(s.subrange(j, j + 1)[0] == s[j]);
        }
    }
}

/// The first occurrence of character `c` in `s` is at `i` when `i` is the
/// first index holding `c` (none when `i` is the end).
pub proof fn lemma_first_occ_char(s: Seq<char>, c: char, i: int)
    requires
        0 <= i <= s.len(),
        forall|j: int| 0 <= j < i ==> s[j] != c,
        i == s.len() || s[i] == c,
    ensures
        first_occ(s, seq![c]) == (if i < s.len() { Some(i) } else { None::<int> }),
        before_first(s, c) == s.take(i),
{
    assert forall|j: int| 0 <= j < i implies !occurs_at(s, seq![c], j) by {
        lemma_occurs_char(s, c, j);
    }
    if i < s.len() {
        lemma_occurs_char(s, c, i);
        assert(first_occ(s, seq![c]) == Some(i)) by {
            reveal(first_occ);
            let x = choose|x: int|
                occurs_at(s, seq![c], x) && forall|j: int| 0 <= j < x ==> !occurs_at(s, seq![c], j);
            lemma_occurs_char(s, c, x);
            if x > i {
                assert(!occurs_at(s, seq![c], i));
            }
        }
    } else {
        assert forall|j: int| !occurs_at(s, seq![c], j) by {
            lemma_occurs_char(s, c, j);
        }
        assert(first_occ(s, seq![c]) is None) by {
            reveal(first_occ);
        }
        assert(s.take(i) == s);
    }
}

pub proof fn lemma_last_occ_bound(s: Seq<char>, p: Seq<char>)
    ensures
        last_occ(s, p) matches Some(i) ==> occurs_at(s, p, i),
{
    reveal(last_occ);
}

/// The last occurrence of `p` in `s`.
#[verifier::opaque]
pub open spec fn last_occ(s: Seq<char>, p: Seq<char>) -> Option<int> {
    if exists|i: int| occurs_at(s, p, i) && forall|j: int| j > i ==> !occurs_at(s, p, j) {
        Some(choose|i: int| occurs_at(s, p, i) && forall|j: int| j > i ==> !occurs_at(s, p, j))
    } else {
        None
    }
}

/// `p` occurs somewhere in `s` (`str::contains`).
pub open spec fn has_sub(s: Seq<char>, p: Seq<char>) -> bool {
    exists|i: int| occurs_at(s, p, i)
}

/// What comes before the first `c` (all of `s` if there is none): the first
/// item of `split(c)`.
pub open spec fn before_first(s: Seq<char>, c: char) -> Seq<char> {
    match first_occ(s, seq![c]) {
        Some(i) => s.take(i),
        None => s,
    }
}

/// What comes after the last occurrence of `p` (all of `s` if there is
/// none): the tail of `rsplit_once(p)`, or the first item of `rsplit(c)`.
pub open spec fn after_last(s: Seq<char>, p: Seq<char>) -> Seq<char> {
    match last_occ(s, p) {
        Some(i) => s.skip(i + p.len()),
        None => s,
    }
}

/// `str::eq_ignore_ascii_case`.
pub open spec fn eq_ignore_ascii_case(a: Seq<char>, b: Seq<char>) -> bool {
    a.len() == b.len() && forall|i: int| 0 <= i < a.len() ==> ascii_lower(a[i]) == ascii_lower(b[i])
}

/// The longest prefix of `s` whose characters all satisfy `p`
/// (`take_while`).
pub open spec fn take_while(s: Seq<char>, p: spec_fn(char) -> bool) -> Seq<char>
    decreases s.len(),
{
    if s.len() > 0 && p(s[0]) {
        seq![s[0]] + take_while(s.drop_first(), p)
    } else {
        seq![]
    }
}

pub fn occurs_here(hay: &[char], needle: &[char], i: usize) -> (r: bool)
    ensures
        r == occurs_at(hay@, needle@, i as int),
{
    let hl = hay.len();
    if i > hl || needle.len() > hl - i {
        return false;
    }
    let mut k: usize = 0;
    while k < needle.len()
        invariant
            hl == hay@.len(),
            i <= hay@.len(),
            i + needle@.len() <= hay@.len(),
            k <= needle@.len(),
            forall|j: int| 0 <= j < k ==> hay@[i + j] == needle@[j],
        decreases needle@.len() - k,
    {
        assert(i + k < hay@.len());
        if hay[i + k] != needle[k] {
            assert(hay@.subrange(i as int, i + needle@.len())[k as int] != needle@[k as int]);
            return false;
        }
        k += 1;
    }
    assert(hay@.subrange(i as int, i + needle@.len()) == needle@);
    true
}

/// The first occurrence of `needle` at or after `start`.
pub fn find_from(hay: &[char], needle: &[char], start: usize) -> (r: Option<usize>)
    ensures
        match r {
            Some(i) => start <= i && occurs_at(hay@, needle@, i as int) && forall|j: int|
                start <= j < i ==> !occurs_at(hay@, needle@, j),
            None => forall|j: int| start <= j ==> !occurs_at(hay@, needle@, j),
        },
{
    let mut i = start;
    while i < hay.len()
        invariant
            start <= i,
            forall|j: int| start <= j < i ==> !occurs_at(hay@, needle@, j),
        decreases hay@.len() - i,
    {
        if occurs_here(hay, needle, i) {
            return Some(i);
        }
        i += 1;
    }
    if occurs_here(hay, needle, i) {
        return Some(i);
    }
    None
}


/// The first occurrence of `needle`.
pub fn find_first(hay: &[char], needle: &[char]) -> (r: Option<usize>)
    ensures
        match r {
            Some(i) => first_occ(hay@, needle@) == Some(i as int),
            None => first_occ(hay@, needle@) is None,
        },
{
    let r = find_from(hay, needle, 0);
    reveal(first_occ);
    match r {
        Some(i) => {
            let ghost x = choose|x: int|
                occurs_at(hay@, needle@, x) && forall|j: int| 0 <= j < x ==> !occurs_at(hay@, needle@, j);
            assert(occurs_at(hay@, needle@, x));
            assert(x == i) by {
                if x < i {
                    assert(!occurs_at(hay@, needle@, x));
                } else if x > i {
                    assert(!occurs_at(hay@, needle@, i as int));
                }
            }
        },
        None => {},
    }
    r
}

/// The last occurrence of `needle`.
pub fn rfind(hay: &[char], needle: &[char]) -> (r: Option<usize>)
    ensures
        match r {
            Some(i) => last_occ(hay@, needle@) == Some(i as int),
            None => last_occ(hay@, needle@) is None,
        },
{
    let hl = hay.len();
    let mut i = hl;
    loop
        invariant
            hl == hay@.len(),
            i <= hl,
            forall|j: int| j > i ==> !occurs_at(hay@, needle@, j),
        decreases i,
    {
        if occurs_here(hay, needle, i) {
            reveal(last_occ);
            let ghost x = choose|x: int|
                occurs_at(hay@, needle@, x) && forall|j: int| j > x ==> !occurs_at(hay@, needle@, j);
            assert(occurs_at(hay@, needle@, x));
            assert(x == i) by {
                if x < i {
                    assert(!occurs_at(hay@, needle@, i as int));
                } else if x > i {
                    assert(!occurs_at(hay@, needle@, x));
                }
            }
            return Some(i);
        }
        if i == 0 {
            reveal(last_occ);
            assert forall|j: int| !occurs_at(hay@, needle@, j) by {
                if j < 0 {
                    assert(!(0 <= j));
                }
            }
            return None;
        }
        i -= 1;
    }
}

/// Whether `needle` occurs in `hay`.
pub fn contains_sub(hay: &[char], needle: &[char]) -> (r: bool)
    ensures
        r == has_sub(hay@, needle@),
{
    match find_from(hay, needle, 0) {
        Some(i) => true,
        None => {
            assert forall|j: int| !occurs_at(hay@, needle@, j) by {
                if j < 0 {
                    assert(!(0 <= j));
                }
            }
            false
        },
    }
}

/// Appends the characters of `t`.
pub fn push_str(s: &mut String, t: &str)
    ensures
        final(s)@ == old(s)@ + t@,
{
    let cs = chars_of(t);
    let mut i: usize = 0;
    while i < cs.len()
        invariant
            i <= cs@.len(),
            cs@ == t@,
            s@ == old(s)@ + cs@.take(i as int),
        decreases cs@.len() - i,
    {
        push_char(s, cs[i]);
        assert(cs@.take(i + 1) == cs@.take(i as int).push(cs@[i as int]));
        i += 1;
    }
    assert(cs@.take(cs@.len() as int) == cs@);
}

/// Appends one character.
pub fn push_one(s: &mut String, c: char)
    ensures
        final(s)@ == old(s)@.push(c),
{
    push_char(s, c);
}


/// Whether `s` is one of the strings of `list`.
pub fn list_contains<const N: usize>(list: &[&'static str; N], s: &[char]) -> (r: bool)
    ensures
        r == list@.map_values(|x: &str| x@).contains(s@),
{
    let ghost v = list@.map_values(|x: &str| x@);
    let mut i: usize = 0;
    while i < N
        invariant
            v == list@.map_values(|x: &str| x@),
            list@.len() == N,
            i <= N,
            forall|j: int| 0 <= j < i ==> v[j] != s@,
        decreases N - i,
    {
        let c = chars_of(list[i]);
        if chars_eq(c.as_slice(), s) {
            assert(v[i as int] == s@);
            return true;
        }
        i += 1;
    }
    false
}

} // verus!


