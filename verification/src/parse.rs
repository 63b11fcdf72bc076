//! Character-level scanning shared by the decoders.
//!
//! Everything here is verified: the spec functions define what scanning and
//! entity-unescaping mean on a sequence of characters, and the executable
//! functions return exactly what the spec functions say.

use crate::xml::push_char;
use vstd::prelude::*;

verus! {

/// XML whitespace.
pub open spec fn is_ws(c: char) -> bool {
    c == ' ' || c == '\t' || c == '\n' || c == '\r'
}

/// A character that may stand in an element or attribute name. This covers
/// the names SAML metadata uses, colons of namespace prefixes included.
pub open spec fn is_name_char(c: char) -> bool {
    ('a' <= c && c <= 'z') || ('A' <= c && c <= 'Z') || ('0' <= c && c <= '9') || c == ':' || c
        == '-' || c == '_' || c == '.'
}

/// The first index at or after `i` that does not hold whitespace.
pub open spec fn skip_ws(s: Seq<char>, i: int) -> int
    decreases s.len() - i,
{
    if 0 <= i < s.len() && is_ws(s[i]) {
        skip_ws(s, i + 1)
    } else {
        i
    }
}

/// The index just after the run of name characters starting at `i`.
pub open spec fn name_end(s: Seq<char>, i: int) -> int
    decreases s.len() - i,
{
    if 0 <= i < s.len() && is_name_char(s[i]) {
        name_end(s, i + 1)
    } else {
        i
    }
}

/// The first index at or after `i` holding `c`, or the index where the
/// search ran out.
pub open spec fn find_char(s: Seq<char>, i: int, c: char) -> int
    decreases s.len() - i,
{
    if 0 <= i < s.len() {
        if s[i] == c {
            i
        } else {
            find_char(s, i + 1, c)
        }
    } else {
        i
    }
}

/// Whether `s` starts with `p`.
pub open spec fn begins(s: Seq<char>, p: Seq<char>) -> bool {
    p.len() <= s.len() && s.subrange(0, p.len() as int) == p
}

/// Prepends one character to an optional tail.
pub open spec fn opt_prepend1(c: char, o: Option<Seq<char>>) -> Option<Seq<char>> {
    match o {
        None => None,
        Some(r) => Some(seq![c] + r),
    }
}

/// Prepends a prefix to an optional tail.
pub open spec fn opt_prepend(pre: Seq<char>, o: Option<Seq<char>>) -> Option<Seq<char>> {
    match o {
        None => None,
        Some(r) => Some(pre + r),
    }
}

/// What undoing entity escaping yields: the text with each recognized entity
/// reference replaced by its character, or `None` where a bare `&` begins no
/// recognized entity.
pub open spec fn unescape(s: Seq<char>) -> Option<Seq<char>>
    decreases s.len(),
{
    if s.len() == 0 {
        Some(Seq::empty())
    } else if s[0] != '&' {
        opt_prepend1(s[0], unescape(s.skip(1)))
    } else if begins(s, seq!['&', 'l', 't', ';']) {
        opt_prepend1('<', unescape(s.skip(4)))
    } else if begins(s, seq!['&', 'g', 't', ';']) {
        opt_prepend1('>', unescape(s.skip(4)))
    } else if begins(s, seq!['&', 'a', 'm', 'p', ';']) {
        opt_prepend1('&', unescape(s.skip(5)))
    } else if begins(s, seq!['&', 'a', 'p', 'o', 's', ';']) {
        opt_prepend1('\'', unescape(s.skip(6)))
    } else if begins(s, seq!['&', 'q', 'u', 'o', 't', ';']) {
        opt_prepend1('"', unescape(s.skip(6)))
    } else if begins(s, seq!['&', '#', '1', '3', ';']) {
        opt_prepend1('\r', unescape(s.skip(5)))
    } else if begins(s, seq!['&', '#', '1', '0', ';']) {
        opt_prepend1('\n', unescape(s.skip(5)))
    } else if begins(s, seq!['&', '#', '9', ';']) {
        opt_prepend1('\t', unescape(s.skip(4)))
    } else {
        None
    }
}

/// Bounds of `skip_ws`: it stays inside the text, skips only whitespace, and
/// stops at the first character that is none.
pub proof fn lemma_skip_ws(s: Seq<char>, i: int)
    requires
        0 <= i <= s.len(),
    ensures
        i <= skip_ws(s, i) <= s.len(),
        skip_ws(s, i) < s.len() ==> !is_ws(s[skip_ws(s, i)]),
        forall|j: int| i <= j < skip_ws(s, i) ==> is_ws(s[j]),
    decreases s.len() - i,
{
    if i < s.len() && is_ws(s[i]) {
        lemma_skip_ws(s, i + 1);
    }
}

/// Bounds of `name_end`, as for `lemma_skip_ws`.
pub proof fn lemma_name_end(s: Seq<char>, i: int)
    requires
        0 <= i <= s.len(),
    ensures
        i <= name_end(s, i) <= s.len(),
        name_end(s, i) < s.len() ==> !is_name_char(s[name_end(s, i)]),
        forall|j: int| i <= j < name_end(s, i) ==> is_name_char(s[j]),
    decreases s.len() - i,
{
    if i < s.len() && is_name_char(s[i]) {
        lemma_name_end(s, i + 1);
    }
}

/// Bounds of `find_char`: nothing before the result matches, and the result
/// either holds `c` or is the end of the text.
pub proof fn lemma_find_char(s: Seq<char>, i: int, c: char)
    requires
        0 <= i <= s.len(),
    ensures
        i <= find_char(s, i, c) <= s.len(),
        find_char(s, i, c) < s.len() ==> s[find_char(s, i, c)] == c,
        forall|j: int| i <= j < find_char(s, i, c) ==> s[j] != c,
    decreases s.len() - i,
{
    if i < s.len() && s[i] != c {
        lemma_find_char(s, i + 1, c);
    }
}

/// Whether `c` is XML whitespace.
pub fn is_ws_x(c: char) -> (b: bool)
    ensures
        b == is_ws(c),
{
    c == ' ' || c == '\t' || c == '\n' || c == '\r'
}

/// Whether `c` may stand in a name.
pub fn is_name_char_x(c: char) -> (b: bool)
    ensures
        b == is_name_char(c),
{
    ('a' <= c && c <= 'z') || ('A' <= c && c <= 'Z') || ('0' <= c && c <= '9') || c == ':' || c
        == '-' || c == '_' || c == '.'
}

/// The characters of `s`, in order.
pub fn to_chars(s: &str) -> (v: Vec<char>)
    ensures
        v@ == s@,
{
    let n = s.unicode_len();
    let mut v: Vec<char> = Vec::new();
    let mut i: usize = 0;
    while i < n
        invariant
            i <= n,
            n == s@.len(),
            v@ == s@.subrange(0, i as int),
        decreases n - i,
    {
        let c = s.get_char(i);
        v.push(c);
        assert(v@ =~= s@.subrange(0, i + 1));
        i = i + 1;
    }
    assert(v@ =~= s@);
    v
}

/// Whether the characters of `v` from `lo` to `hi` read `pat`.
pub fn range_eq(v: &Vec<char>, lo: usize, hi: usize, pat: &str) -> (b: bool)
    requires
        lo <= hi <= v.len(),
    ensures
        b == (v@.subrange(lo as int, hi as int) == pat@),
{
    let n = pat.unicode_len();
    if hi - lo != n {
        return false;
    }
    let mut i: usize = 0;
    while i < n
        invariant
            i <= n,
            n == pat@.len(),
            lo + n == hi,
            hi <= v.len(),
            forall|j: int| 0 <= j < i ==> v@[lo + j] == pat@[j],
        decreases n - i,
    {
        if v[lo + i] != pat.get_char(i) {
            assert(v@.subrange(lo as int, hi as int)[i as int] != pat@[i as int]);
            return false;
        }
        i = i + 1;
    }
    assert(v@.subrange(lo as int, hi as int) =~= pat@);
    true
}

/// Whether the characters of `v` at `i`, kept below `end`, begin with `pat`.
pub fn match_in(v: &Vec<char>, i: usize, end: usize, pat: &str) -> (b: bool)
    requires
        i <= end <= v.len(),
    ensures
        b == (i + pat@.len() <= end && v@.subrange(i as int, i + pat@.len()) == pat@),
{
    let n = pat.unicode_len();
    if end - i < n {
        return false;
    }
    range_eq(v, i, i + n, pat)
}

/// The first non-whitespace position of `v` at or after `i`.
pub fn skip_ws_x(v: &Vec<char>, i: usize) -> (r: usize)
    requires
        i <= v.len(),
    ensures
        r == skip_ws(v@, i as int),
        i <= r <= v.len(),
{
    let mut j = i;
    while j < v.len() && is_ws_x(v[j])
        invariant
            i <= j <= v.len(),
            skip_ws(v@, i as int) == skip_ws(v@, j as int),
        decreases v.len() - j,
    {
        j = j + 1;
    }
    proof {
        lemma_skip_ws(v@, j as int);
    }
    j
}

/// The end of the name-character run of `v` starting at `i`.
pub fn name_end_x(v: &Vec<char>, i: usize) -> (r: usize)
    requires
        i <= v.len(),
    ensures
        r == name_end(v@, i as int),
        i <= r <= v.len(),
{
    let mut j = i;
    while j < v.len() && is_name_char_x(v[j])
        invariant
            i <= j <= v.len(),
            name_end(v@, i as int) == name_end(v@, j as int),
        decreases v.len() - j,
    {
        j = j + 1;
    }
    proof {
        lemma_name_end(v@, j as int);
    }
    j
}

/// The first position of `c` in `v` at or after `i`, or the length.
pub fn find_char_x(v: &Vec<char>, i: usize, c: char) -> (r: usize)
    requires
        i <= v.len(),
    ensures
        r == find_char(v@, i as int, c),
        i <= r <= v.len(),
{
    let mut j = i;
    while j < v.len() && v[j] != c
        invariant
            i <= j <= v.len(),
            find_char(v@, i as int, c) == find_char(v@, j as int, c),
        decreases v.len() - j,
    {
        j = j + 1;
    }
    proof {
        lemma_find_char(v@, j as int, c);
    }
    j
}

/// Splicing one character onto an accumulated prefix.
proof fn lemma_opt_prepend_assoc(pre: Seq<char>, c: char, o: Option<Seq<char>>)
    ensures
        opt_prepend(pre + seq![c], o) == opt_prepend(pre, opt_prepend1(c, o)),
{
    match o {
        Some(r) => {
            assert((pre + seq![c]) + r =~= pre + (seq![c] + r));
        },
        None => {},
    }
}

/// A suffix of a subrange, seen from the underlying text.
proof fn lemma_skip_of_subrange(s: Seq<char>, a: int, b: int, k: int)
    requires
        0 <= a <= b <= s.len(),
        0 <= k <= b - a,
    ensures
        s.subrange(a, b).skip(k) =~= s.subrange(a + k, b),
{
}

/// Undoes entity escaping on the characters of `v` from `a` to `b`,
/// returning exactly what `unescape` says of that range.
pub fn unescape_range(v: &Vec<char>, a: usize, b: usize) -> (r: Option<String>)
    requires
        a <= b <= v.len(),
    ensures
        (match r {
            Some(t) => unescape(v@.subrange(a as int, b as int)) == Some(t@),
            None => unescape(v@.subrange(a as int, b as int)) is None,
        }),
{
    let ghost sub = v@.subrange(a as int, b as int);
    let mut out = String::new();
    let mut i = a;
    proof {
        assert(sub.skip(0) =~= sub);
        if unescape(sub) is Some {
            assert(Seq::<char>::empty() + unescape(sub)->Some_0 =~= unescape(sub)->Some_0);
        }
    }
    while i < b
        invariant
            a <= i <= b <= v.len(),
            sub == v@.subrange(a as int, b as int),
            unescape(sub) == opt_prepend(out@, unescape(sub.skip(i - a))),
        decreases b - i,
    {
        let ghost k = i - a;
        let ghost rest = sub.skip(k);
        proof {
            lemma_skip_of_subrange(v@, a as int, b as int, k);
            assert(rest[0] == v@[i as int]);
        }
        let c = v[i];
        if c != '&' {
            proof {
                lemma_skip_of_subrange(v@, a as int, b as int, k + 1);
                assert(rest.skip(1) =~= sub.skip(k + 1));
                assert(unescape(rest) == opt_prepend1(c, unescape(rest.skip(1))));
                lemma_opt_prepend_assoc(out@, c, unescape(sub.skip(k + 1)));
            }
            push_char(&mut out, c);
            i = i + 1;
        } else {
            proof {
                reveal_strlit("&lt;");
                reveal_strlit("&gt;");
                reveal_strlit("&amp;");
                reveal_strlit("&apos;");
                reveal_strlit("&quot;");
                reveal_strlit("&#13;");
                reveal_strlit("&#10;");
                reveal_strlit("&#9;");
            }
            let m_lt = match_in(v, i, b, "&lt;");
            let m_gt = match_in(v, i, b, "&gt;");
            let m_amp = match_in(v, i, b, "&amp;");
            let m_apos = match_in(v, i, b, "&apos;");
            let m_quot = match_in(v, i, b, "&quot;");
            let m_cr = match_in(v, i, b, "&#13;");
            let m_nl = match_in(v, i, b, "&#10;");
            let m_tab = match_in(v, i, b, "&#9;");
            proof {
                lemma_entity_step(v@, sub, a as int, b as int, i as int);
            }
            let (rep, width): (char, usize) = if m_lt {
                ('<', 4)
            } else if m_gt {
                ('>', 4)
            } else if m_amp {
                ('&', 5)
            } else if m_apos {
                ('\'', 6)
            } else if m_quot {
                ('"', 6)
            } else if m_cr {
                ('\r', 5)
            } else if m_nl {
                ('\n', 5)
            } else if m_tab {
                ('\t', 4)
            } else {
                return None;
            };
            proof {
                lemma_skip_of_subrange(v@, a as int, b as int, k + width);
                assert(rest.skip(width as int) =~= sub.skip(k + width));
                lemma_opt_prepend_assoc(out@, rep, unescape(sub.skip(k + width)));
            }
            push_char(&mut out, rep);
            i = i + width;
        }
    }
    proof {
        assert(sub.skip(b - a) =~= Seq::<char>::empty());
        if unescape(sub) is Some {
            assert(out@ + Seq::<char>::empty() =~= out@);
        }
    }
    Some(out)
}

/// How one step of unescaping resolves at a `&`: it consumes whichever
/// entity reference begins there, and fails where none does.
proof fn lemma_entity_step(s: Seq<char>, sub: Seq<char>, a: int, b: int, i: int)
    requires
        0 <= a <= i < b <= s.len(),
        sub == s.subrange(a, b),
        s[i] == '&',
    ensures
        ({
            let rest = sub.skip(i - a);
            let m_lt = i + 4 <= b && s.subrange(i, i + 4) == "&lt;"@;
            let m_gt = i + 4 <= b && s.subrange(i, i + 4) == "&gt;"@;
            let m_amp = i + 5 <= b && s.subrange(i, i + 5) == "&amp;"@;
            let m_apos = i + 6 <= b && s.subrange(i, i + 6) == "&apos;"@;
            let m_quot = i + 6 <= b && s.subrange(i, i + 6) == "&quot;"@;
            let m_cr = i + 5 <= b && s.subrange(i, i + 5) == "&#13;"@;
            let m_nl = i + 5 <= b && s.subrange(i, i + 5) == "&#10;"@;
            let m_tab = i + 4 <= b && s.subrange(i, i + 4) == "&#9;"@;
            &&& m_lt ==> unescape(rest) == opt_prepend1('<', unescape(rest.skip(4)))
            &&& !m_lt && m_gt ==> unescape(rest) == opt_prepend1('>', unescape(rest.skip(4)))
            &&& !m_lt && !m_gt && m_amp ==> unescape(rest) == opt_prepend1(
                '&',
                unescape(rest.skip(5)),
            )
            &&& !m_lt && !m_gt && !m_amp && m_apos ==> unescape(rest) == opt_prepend1(
                '\'',
                unescape(rest.skip(6)),
            )
            &&& !m_lt && !m_gt && !m_amp && !m_apos && m_quot ==> unescape(rest) == opt_prepend1(
                '"',
                unescape(rest.skip(6)),
            )
            &&& !m_lt && !m_gt && !m_amp && !m_apos && !m_quot && m_cr ==> unescape(rest)
                == opt_prepend1('\r', unescape(rest.skip(5)))
            &&& !m_lt && !m_gt && !m_amp && !m_apos && !m_quot && !m_cr && m_nl ==> unescape(rest)
                == opt_prepend1('\n', unescape(rest.skip(5)))
            &&& !m_lt && !m_gt && !m_amp && !m_apos && !m_quot && !m_cr && !m_nl && m_tab
                ==> unescape(rest) == opt_prepend1('\t', unescape(rest.skip(4)))
            &&& !m_lt && !m_gt && !m_amp && !m_apos && !m_quot && !m_cr && !m_nl && !m_tab
                ==> unescape(rest) is None
        }),
{
    reveal_strlit("&lt;");
    reveal_strlit("&gt;");
    reveal_strlit("&amp;");
    reveal_strlit("&apos;");
    reveal_strlit("&quot;");
    reveal_strlit("&#13;");
    reveal_strlit("&#10;");
    reveal_strlit("&#9;");
    lemma_entity_forms(s, sub, a, b, i);
    let rest = sub.skip(i - a);
    assert(rest[0] == s[i]);
    assert(rest.len() > 0);
    assert(seq!['&', 'l', 't', ';'] =~= "&lt;"@);
    assert(seq!['&', 'g', 't', ';'] =~= "&gt;"@);
    assert(seq!['&', 'a', 'm', 'p', ';'] =~= "&amp;"@);
    assert(seq!['&', 'a', 'p', 'o', 's', ';'] =~= "&apos;"@);
    assert(seq!['&', 'q', 'u', 'o', 't', ';'] =~= "&quot;"@);
    assert(seq!['&', '#', '1', '3', ';'] =~= "&#13;"@);
    assert(seq!['&', '#', '1', '0', ';'] =~= "&#10;"@);
    assert(seq!['&', '#', '9', ';'] =~= "&#9;"@);
}

/// How each entity reference looks from the underlying text: beginning with
/// one at position `i` of the text is beginning with it at the head of the
/// suffix of the range.
proof fn lemma_entity_forms(s: Seq<char>, sub: Seq<char>, a: int, b: int, i: int)
    requires
        0 <= a <= i <= b <= s.len(),
        sub == s.subrange(a, b),
    ensures
        forall|p: Seq<char>|
            (#[trigger] begins(sub.skip(i - a), p)) == (i + p.len() <= b && s.subrange(
                i,
                i + p.len() as int,
            ) == p),
{
    assert forall|p: Seq<char>|
        (#[trigger] begins(sub.skip(i - a), p)) == (i + p.len() <= b && s.subrange(
            i,
            i + p.len() as int,
        ) == p) by {
        let rest = sub.skip(i - a);
        assert(rest =~= s.subrange(i, b));
        if p.len() <= rest.len() {
            assert(rest.subrange(0, p.len() as int) =~= s.subrange(i, i + p.len() as int));
        }
    }
}


/// Unescaping consumes the escaped form of one character and yields that
/// character, for text content and for attribute values alike.
proof fn lemma_unescape_step(c: char, rest: Seq<char>)
    ensures
        unescape(crate::xml::text_escape_char(c) + rest) == opt_prepend1(c, unescape(rest)),
        unescape(crate::xml::attr_escape_char(c) + rest) == opt_prepend1(c, unescape(rest)),
{
    lemma_unescape_one(crate::xml::text_escape_char(c), c, rest);
    lemma_unescape_one(crate::xml::attr_escape_char(c), c, rest);
}

/// Unescaping a recognized escape form at the head of the text steps over
/// it: `ec` here is what escaping made of the one character `c`.
proof fn lemma_unescape_one(ec: Seq<char>, c: char, rest: Seq<char>)
    requires
        ec == crate::xml::text_escape_char(c) || ec == crate::xml::attr_escape_char(c),
    ensures
        unescape(ec + rest) == opt_prepend1(c, unescape(rest)),
{
    let e = ec + rest;
    if c == '<' || c == '>' || c == '&' || c == '\'' || c == '"' || c == '\r' || (c == '\n'
        && ec.len() == 5) || (c == '\t' && ec.len() == 4) {
        assert(e.subrange(0, ec.len() as int) =~= ec);
        if ec.len() + 1 <= e.len() {
            assert(e.subrange(0, ec.len() as int + 1) =~= ec + seq![rest[0]]);
        }
        assert(e.skip(ec.len() as int) =~= rest);
        assert(unescape(e) == opt_prepend1(c, unescape(rest)));
    } else {
        assert(ec =~= seq![c]);
        assert(e[0] == c && c != '&');
        assert(e.skip(1) =~= rest);
    }
}


/// Unescaping inverts text escaping.
pub proof fn lemma_text_escape_unescape(s: Seq<char>)
    ensures
        unescape(crate::xml::text_escape(s)) == Some(s),
    decreases s.len(),
{
    if s.len() == 0 {
    } else {
        lemma_text_escape_unescape(s.skip(1));
        lemma_unescape_step(s[0], crate::xml::text_escape(s.skip(1)));
        assert(seq![s[0]] + s.skip(1) =~= s);
    }
}

/// Unescaping inverts attribute-value escaping.
pub proof fn lemma_attr_escape_unescape(s: Seq<char>)
    ensures
        unescape(crate::xml::attr_escape(s)) == Some(s),
    decreases s.len(),
{
    if s.len() == 0 {
    } else {
        lemma_attr_escape_unescape(s.skip(1));
        lemma_unescape_step(s[0], crate::xml::attr_escape(s.skip(1)));
        assert(seq![s[0]] + s.skip(1) =~= s);
    }
}

/// Escaped text holds no `<`, so markup boundaries cannot occur inside it;
/// and it is empty only for empty input.
pub proof fn lemma_text_escape_clean(s: Seq<char>)
    ensures
        forall|j: int|
            0 <= j < crate::xml::text_escape(s).len() ==> crate::xml::text_escape(s)[j] != '<',
        crate::xml::text_escape(s).len() >= s.len(),
    decreases s.len(),
{
    if s.len() > 0 {
        lemma_text_escape_clean(s.skip(1));
    }
}

/// An escaped attribute value holds neither `<` nor `"`, so it cannot close
/// its own quotes or open markup.
pub proof fn lemma_attr_escape_clean(s: Seq<char>)
    ensures
        forall|j: int|
            0 <= j < crate::xml::attr_escape(s).len() ==> (crate::xml::attr_escape(s)[j] != '<'
                && crate::xml::attr_escape(s)[j] != '"'),
        crate::xml::attr_escape(s).len() >= s.len(),
    decreases s.len(),
{
    if s.len() > 0 {
        lemma_attr_escape_clean(s.skip(1));
    }
}


/// The characters of `v` from `lo` to `hi`, as an owned string.
pub fn chars_string(v: &Vec<char>, lo: usize, hi: usize) -> (r: String)
    requires
        lo <= hi <= v.len(),
    ensures
        r@ == v@.subrange(lo as int, hi as int),
{
    let mut out = String::new();
    let mut i = lo;
    while i < hi
        invariant
            lo <= i <= hi <= v.len(),
            out@ == v@.subrange(lo as int, i as int),
        decreases hi - i,
    {
        push_char(&mut out, v[i]);
        assert(out@ =~= v@.subrange(lo as int, i + 1));
        i = i + 1;
    }
    out
}

/// What parsing an attribute list yields, starting at `i`: the name-value pairs in
/// order with their values unescaped, and the position of the `>` or `/`
/// that ends the list. Values may be double- or single-quoted; unterminated
/// or unquoted attributes, a `<` inside a value, and unrecognized entities
/// are syntax errors.
pub open spec fn parse_attrs(s: Seq<char>, i: int) -> Result<
    (Seq<(Seq<char>, Seq<char>)>, int),
    crate::error::MetadataError,
>
    decreases s.len() - i
        when 0 <= i <= s.len()
        via parse_attrs_decreases
{
    let j = skip_ws(s, i);
    if j >= s.len() {
        Err(crate::error::MetadataError::SyntaxError)
    } else if s[j] == '>' || s[j] == '/' {
        Ok((Seq::empty(), j))
    } else {
        let k = name_end(s, j);
        if k == j {
            Err(crate::error::MetadataError::SyntaxError)
        } else if !(k + 1 < s.len() && s[k] == '=' && (s[k + 1] == '"' || s[k + 1] == '\'')) {
            Err(crate::error::MetadataError::SyntaxError)
        } else {
            let q = find_char(s, k + 2, s[k + 1]);
            if q >= s.len() {
                Err(crate::error::MetadataError::SyntaxError)
            } else if !(forall|m: int| k + 2 <= m < q ==> s[m] != '<') {
                Err(crate::error::MetadataError::SyntaxError)
            } else {
                match unescape(s.subrange(k + 2, q)) {
                    None => Err(crate::error::MetadataError::SyntaxError),
                    Some(val) => match parse_attrs(s, q + 1) {
                        Err(e) => Err(e),
                        Ok((rest, end)) => Ok((seq![(s.subrange(j, k), val)] + rest, end)),
                    },
                }
            }
        }
    }
}

#[via_fn]
proof fn parse_attrs_decreases(s: Seq<char>, i: int) {
    lemma_skip_ws(s, i);
    let j = skip_ws(s, i);
    if j < s.len() && !(s[j] == '>' || s[j] == '/') {
        lemma_name_end(s, j);
        let k = name_end(s, j);
        if k != j && k + 1 < s.len() && s[k] == '=' && (s[k + 1] == '"' || s[k + 1] == '\'') {
            lemma_find_char(s, k + 2, s[k + 1]);
        }
    }
}

/// Bounds of `parse_attrs`: on success the end position lies inside the
/// text, at the `>` or `/` that ends the list.
pub proof fn lemma_parse_attrs_bounds(s: Seq<char>, i: int)
    requires
        0 <= i <= s.len(),
    ensures
        (match parse_attrs(s, i) {
            Ok((attrs, end)) => i <= end < s.len() && (s[end] == '>' || s[end] == '/'),
            Err(_) => true,
        }),
    decreases s.len() - i,
{
    lemma_skip_ws(s, i);
    let j = skip_ws(s, i);
    if j < s.len() && !(s[j] == '>' || s[j] == '/') {
        lemma_name_end(s, j);
        let k = name_end(s, j);
        if k != j && k + 1 < s.len() && s[k] == '=' && (s[k + 1] == '"' || s[k + 1] == '\'') {
            lemma_find_char(s, k + 2, s[k + 1]);
            let q = find_char(s, k + 2, s[k + 1]);
            if q < s.len() {
                lemma_parse_attrs_bounds(s, q + 1);
            }
        }
    }
}

/// Parses an attribute list from the characters of `v`, returning exactly
/// what `parse_attrs` says.
pub fn parse_attrs_x(v: &Vec<char>, i: usize) -> (r: Result<
    (Vec<(String, String)>, usize),
    crate::error::MetadataError,
>)
    requires
        i <= v.len(),
    ensures
        (match r {
            Ok((attrs, end)) => parse_attrs(v@, i as int) == Ok::<_, crate::error::MetadataError>(
                (crate::xml::attrs_view(attrs@), end as int),
            ) && end <= v.len(),
            Err(e) => parse_attrs(v@, i as int) == Err::<(Seq<(Seq<char>, Seq<char>)>, int), _>(e),
        }),
    decreases v.len() - i,
{
    let j = skip_ws_x(v, i);
    if j >= v.len() {
        return Err(crate::error::MetadataError::SyntaxError);
    }
    if v[j] == '>' || v[j] == '/' {
        let attrs: Vec<(String, String)> = Vec::new();
        proof {
            assert(crate::xml::attrs_view(attrs@) =~= Seq::<(Seq<char>, Seq<char>)>::empty());
        }
        return Ok((attrs, j));
    }
    let k = name_end_x(v, j);
    if k == j {
        return Err(crate::error::MetadataError::SyntaxError);
    }
    if !(v.len() - k > 1 && v[k] == '=' && (v[k + 1] == '"' || v[k + 1] == '\'')) {
        return Err(crate::error::MetadataError::SyntaxError);
    }
    let q = find_char_x(v, k + 2, v[k + 1]);
    if q >= v.len() {
        return Err(crate::error::MetadataError::SyntaxError);
    }
    let lt = find_char_x(v, k + 2, '<');
    if lt < q {
        proof {
            lemma_find_char(v@, k + 2, '<');
        }
        return Err(crate::error::MetadataError::SyntaxError);
    }
    proof {
        lemma_find_char(v@, k + 2, '<');
        lemma_find_char(v@, k + 2, v@[k + 1]);
        assert(forall|m: int| k + 2 <= m < q ==> v@[m] != '<');
    }
    match unescape_range(v, k + 2, q) {
        None => Err(crate::error::MetadataError::SyntaxError),
        Some(val) => {
            let name = chars_string(v, j, k);
            let ghost namev = name@;
            let ghost valv = val@;
            match parse_attrs_x(v, q + 1) {
                Err(e) => Err(e),
                Ok((rest, end)) => {
                    let ghost restv = rest@;
                    let mut attrs: Vec<(String, String)> = Vec::new();
                    attrs.push((name, val));
                    let mut rest = rest;
                    attrs.append(&mut rest);
                    proof {
                        assert(crate::xml::attrs_view(attrs@) =~= seq![(namev, valv)]
                            + crate::xml::attrs_view(restv));
                    }
                    Ok((attrs, end))
                },
            }
        },
    }
}

/// The value of the first attribute named `key`, if one is there.
pub open spec fn attr_lookup(attrs: Seq<(Seq<char>, Seq<char>)>, key: Seq<char>) -> Option<
    Seq<char>,
>
    decreases attrs.len(),
{
    if attrs.len() == 0 {
        None
    } else if attrs[0].0 == key {
        Some(attrs[0].1)
    } else {
        attr_lookup(attrs.skip(1), key)
    }
}

/// Looks `key` up in an attribute list, returning exactly what
/// `attr_lookup` says.
pub fn attr_lookup_x(attrs: &Vec<(String, String)>, key: &str) -> (r: Option<String>)
    ensures
        (match r {
            Some(t) => attr_lookup(crate::xml::attrs_view(attrs@), key@) == Some(t@),
            None => attr_lookup(crate::xml::attrs_view(attrs@), key@) is None,
        }),
{
    let ghost av = crate::xml::attrs_view(attrs@);
    let kv = to_chars(key);
    let mut i: usize = 0;
    proof {
        assert(av.skip(0) =~= av);
    }
    while i < attrs.len()
        invariant
            i <= attrs.len(),
            kv@ == key@,
            av == crate::xml::attrs_view(attrs@),
            attr_lookup(av, key@) == attr_lookup(av.skip(i as int), key@),
        decreases attrs.len() - i,
    {
        let nv = to_chars(attrs[i].0.as_str());
        proof {
            assert(av.skip(i as int)[0] == av[i as int]);
        }
        if range_eq(&nv, 0, nv.len(), key) {
            proof {
                assert(nv@.subrange(0, nv.len() as int) =~= nv@);
            }
            let r = attrs[i].1.clone();
            return Some(r);
        }
        proof {
            assert(nv@.subrange(0, nv.len() as int) =~= nv@);
            assert(av.skip(i as int).skip(1) =~= av.skip(i + 1));
        }
        i = i + 1;
    }
    proof {
        assert(av.skip(attrs@.len() as int).len() == 0);
    }
    None
}


/// Whether two ranges of `v` hold the same characters.
pub fn ranges_eq(v: &Vec<char>, lo1: usize, hi1: usize, lo2: usize, hi2: usize) -> (b: bool)
    requires
        lo1 <= hi1 <= v.len(),
        lo2 <= hi2 <= v.len(),
    ensures
        b == (v@.subrange(lo1 as int, hi1 as int) == v@.subrange(lo2 as int, hi2 as int)),
{
    let ghost s1 = v@.subrange(lo1 as int, hi1 as int);
    let ghost s2 = v@.subrange(lo2 as int, hi2 as int);
    let n = hi1 - lo1;
    if hi2 - lo2 != n {
        assert(s1.len() != s2.len());
        return false;
    }
    let mut i: usize = 0;
    while i < n
        invariant
            i <= n,
            lo1 + n == hi1 <= v.len(),
            lo2 + n == hi2 <= v.len(),
            s1 == v@.subrange(lo1 as int, hi1 as int),
            s2 == v@.subrange(lo2 as int, hi2 as int),
            forall|j: int| 0 <= j < i ==> #[trigger] s1[j] == s2[j],
        decreases n - i,
    {
        if v[lo1 + i] != v[lo2 + i] {
            assert(s1[i as int] != s2[i as int]);
            return false;
        }
        assert(s1[i as int] == s2[i as int]);
        i = i + 1;
    }
    assert(s1 =~= s2);
    true
}


/// Scanning a run of `n` name characters ends just after it.
pub proof fn lemma_name_end_run(s: Seq<char>, i: int, n: int)
    requires
        0 <= i,
        0 <= n,
        i + n <= s.len(),
        forall|k: int| i <= k < i + n ==> is_name_char(s[k]),
        i + n == s.len() || !is_name_char(s[i + n]),
    ensures
        name_end(s, i) == i + n,
    decreases n,
{
    if n > 0 {
        lemma_name_end_run(s, i + 1, n - 1);
    }
}

/// Searching across a run of `n` characters that are not `c` finds the `c`
/// just after it.
pub proof fn lemma_find_char_run(s: Seq<char>, i: int, n: int, c: char)
    requires
        0 <= i,
        0 <= n,
        i + n < s.len(),
        forall|k: int| i <= k < i + n ==> s[k] != c,
        s[i + n] == c,
    ensures
        find_char(s, i, c) == i + n,
    decreases n,
{
    if n > 0 {
        lemma_find_char_run(s, i + 1, n - 1, c);
    }
}

/// Well-formed attribute names: nonempty, of name characters only.
pub open spec fn attr_names_ok(attrs: Seq<(Seq<char>, Seq<char>)>) -> bool {
    forall|k: int|
        0 <= k < attrs.len() ==> ((#[trigger] attrs[k]).0.len() > 0 && (forall|j: int|
            0 <= j < attrs[k].0.len() ==> is_name_char(attrs[k].0[j])))
}

/// Parsing inverts rendering for an attribute list: where the text holds
/// exactly the rendered list followed by the `>` or `/` that ends it, the
/// parse returns the list, values unescaped, and stops at that character.
pub proof fn lemma_parse_attrs_inverse(s: Seq<char>, i: int, attrs: Seq<(Seq<char>, Seq<char>)>)
    requires
        0 <= i <= s.len(),
        attr_names_ok(attrs),
        i + crate::xml::attrs_text(attrs).len() < s.len(),
        s.subrange(i, i + crate::xml::attrs_text(attrs).len()) == crate::xml::attrs_text(attrs),
        s[i + crate::xml::attrs_text(attrs).len()] == '>' || s[i + crate::xml::attrs_text(
            attrs,
        ).len()] == '/',
    ensures
        parse_attrs(s, i) == Ok::<_, crate::error::MetadataError>(
            (attrs, i + crate::xml::attrs_text(attrs).len()),
        ),
    decreases attrs.len(),
{
    let t = crate::xml::attrs_text(attrs);
    if attrs.len() == 0 {
        assert(skip_ws(s, i) == i);
        assert(attrs =~= Seq::<(Seq<char>, Seq<char>)>::empty());
    } else {
        let nm = attrs[0].0;
        let val = attrs[0].1;
        let e = crate::xml::attr_escape(val);
        let rest = crate::xml::attrs_text(attrs.skip(1));
        let c0 = seq![' '] + nm + seq!['=', '"'] + e + seq!['"'] + rest;
        assert(t == c0);
        assert forall|j: int| 0 <= j < t.len() implies s[i + j] == #[trigger] c0[j] by {
            assert(s.subrange(i, i + t.len() as int)[j] == t[j]);
        }
        crate::parse::lemma_attr_escape_clean(val);
        crate::parse::lemma_attr_escape_unescape(val);
        let k = i + 1 + nm.len();
        let q = k + 2 + e.len();
        assert(s[i] == ' ') by {
            assert(c0[0] == ' ');
        }
        assert forall|j: int| 0 <= j < nm.len() implies s[i + 1 + j] == nm[j] by {
            assert(c0[1 + j] == nm[j]);
        }
        assert forall|k2: int| i + 1 <= k2 < i + 1 + nm.len() implies is_name_char(s[k2]) by {
            let j = k2 - (i + 1);
            assert(s[i + 1 + j] == nm[j]);
            assert(is_name_char(attrs[0].0[j]));
        }
        assert(is_name_char(nm[0]) && !is_ws(nm[0]));
        assert(skip_ws(s, i) == i + 1) by {
            assert(s[i + 1] == nm[0]);
            assert(skip_ws(s, i + 1) == i + 1);
        }
        assert(s[k] == '=') by {
            assert(c0[1 + nm.len() as int] == '=');
        }
        assert(s[k + 1] == '"') by {
            assert(c0[2 + nm.len() as int] == '"');
        }
        assert forall|j: int| 0 <= j < e.len() implies s[k + 2 + j] == e[j] by {
            assert(c0[3 + nm.len() + j] == e[j]);
        }
        assert(s[q] == '"') by {
            assert(c0[3 + nm.len() + e.len() as int] == '"');
        }
        assert forall|m: int| k + 2 <= m < q implies s[m] != '"' && s[m] != '<' by {
            let j = m - (k + 2);
            assert(s[k + 2 + j] == e[j]);
            assert(crate::xml::attr_escape(val)[j] != '"' && crate::xml::attr_escape(val)[j]
                != '<');
        }
        lemma_name_end_run(s, i + 1, nm.len() as int);
        lemma_find_char_run(s, k + 2, e.len() as int, '"');
        assert(s.subrange(i + 1, k) =~= nm);
        assert(s.subrange(k + 2, q) =~= e);
        assert forall|j: int| 0 <= j < rest.len() implies s[q + 1 + j] == rest[j] by {
            assert(c0[4 + nm.len() + e.len() + j] == rest[j]);
        }
        assert(s.subrange(q + 1, q + 1 + rest.len()) =~= rest);
        assert((q + 1) + rest.len() == i + t.len());
        lemma_parse_attrs_inverse(s, q + 1, attrs.skip(1));
        assert(seq![(nm, val)] + attrs.skip(1) =~= attrs);
    }
}

/// A key that no attribute bears looks up to nothing.
pub proof fn lemma_attr_lookup_absent(attrs: Seq<(Seq<char>, Seq<char>)>, key: Seq<char>)
    requires
        forall|m: int| 0 <= m < attrs.len() ==> (#[trigger] attrs[m]).0 != key,
    ensures
        attr_lookup(attrs, key) is None,
    decreases attrs.len(),
{
    if attrs.len() > 0 {
        lemma_attr_lookup_absent(attrs.skip(1), key);
    }
}

/// Looking up in a concatenation tries the front first.
pub proof fn lemma_attr_lookup_concat(
    x: Seq<(Seq<char>, Seq<char>)>,
    y: Seq<(Seq<char>, Seq<char>)>,
    key: Seq<char>,
)
    ensures
        attr_lookup(x + y, key) == (if attr_lookup(x, key) is Some {
            attr_lookup(x, key)
        } else {
            attr_lookup(y, key)
        }),
    decreases x.len(),
{
    if x.len() == 0 {
        assert((x + y) =~= y);
    } else {
        assert((x + y).skip(1) =~= x.skip(1) + y);
        lemma_attr_lookup_concat(x.skip(1), y, key);
    }
}


/// The first position at or after `i` where a comment terminator `-->`
/// begins, or the length of the text where none does.
pub open spec fn comment_end(s: Seq<char>, i: int) -> int
    decreases s.len() - i,
{
    if 0 <= i && i + 3 <= s.len() {
        if s[i] == '-' && s[i + 1] == '-' && s[i + 2] == '>' {
            i
        } else {
            comment_end(s, i + 1)
        }
    } else {
        s.len() as int
    }
}

/// Bounds of `comment_end`: it stays inside the text, and where it stops
/// short of the end a terminator stands there.
pub proof fn lemma_comment_end(s: Seq<char>, i: int)
    requires
        0 <= i <= s.len(),
    ensures
        i <= comment_end(s, i) <= s.len(),
        comment_end(s, i) < s.len() ==> comment_end(s, i) + 3 <= s.len() && s[comment_end(s, i)]
            == '-' && s[comment_end(s, i) + 1] == '-' && s[comment_end(s, i) + 2] == '>',
    decreases s.len() - i,
{
    if i + 3 <= s.len() && !(s[i] == '-' && s[i + 1] == '-' && s[i + 2] == '>') {
        lemma_comment_end(s, i + 1);
    }
}

/// The first comment terminator of `v` at or after `i`, as `comment_end`
/// says.
pub fn comment_end_x(v: &Vec<char>, i: usize) -> (r: usize)
    requires
        i <= v.len(),
    ensures
        r == comment_end(v@, i as int),
        i <= r <= v.len(),
{
    let mut j = i;
    loop
        invariant
            i <= j <= v.len(),
            comment_end(v@, i as int) == comment_end(v@, j as int),
        decreases v.len() - j,
    {
        if v.len() - j < 3 {
            proof {
                lemma_comment_end(v@, j as int);
            }
            return v.len();
        }
        if v[j] == '-' && v[j + 1] == '-' && v[j + 2] == '>' {
            return j;
        }
        j = j + 1;
    }
}

} // verus!
