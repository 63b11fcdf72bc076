//! The encrypted-content leaf and its wrapper.
//!
//! `EncryptedCipherValue` owns the optional opaque payload text of an
//! encrypted blob; `EncryptedCipherData` owns exactly one such value and
//! wraps it in its own element. Both render themselves as XML fragments that
//! a host element embeds as literal markup; escaping is applied exactly once,
//! to the payload text at the leaf.

use crate::error::MetadataError;
use crate::parse::{
    find_char_x, lemma_find_char, lemma_text_escape_clean, lemma_text_escape_unescape, range_eq,
    to_chars, unescape, unescape_range,
};
use crate::xml::{
    attrs_view, empty_tag, end_tag, start_tag, text_escape, write_empty, write_end, write_raw,
    write_start, write_text,
};
use vstd::prelude::*;

verus! {

/// The element name of a cipher value, as a character sequence.
pub open spec fn cipher_value_name() -> Seq<char> {
    seq!['x', 'e', 'n', 'c', ':', 'C', 'i', 'p', 'h', 'e', 'r', 'V', 'a', 'l', 'u', 'e']
}

/// The element name of a cipher-data wrapper, as a character sequence.
pub open spec fn cipher_data_name() -> Seq<char> {
    seq!['x', 'e', 'n', 'c', ':', 'C', 'i', 'p', 'h', 'e', 'r', 'D', 'a', 't', 'a']
}

/// A leaf holding an optional opaque payload text, already encoded (for
/// example base64) by whoever produced it.
#[derive(Clone, Debug, PartialEq, Eq, Hash, PartialOrd, Ord, Default)]
pub struct EncryptedCipherValue {
    pub value: Option<String>,
}

/// A wrapper owning exactly one cipher value; it has no attributes of its
/// own and exists to add its wrapping element.
#[derive(Clone, Debug, PartialEq, Eq, Hash, PartialOrd, Ord, Default)]
pub struct EncryptedCipherData {
    pub value: EncryptedCipherValue,
}

impl View for EncryptedCipherValue {
    type V = Option<Seq<char>>;

    open spec fn view(&self) -> Option<Seq<char>> {
        match self.value {
            Some(t) => Some(t@),
            None => None,
        }
    }
}

impl View for EncryptedCipherData {
    type V = Option<Seq<char>>;

    open spec fn view(&self) -> Option<Seq<char>> {
        self.value@
    }
}

/// The fragment a cipher value encodes to: a self-closing element for no
/// payload, otherwise the payload as escaped character data between a start
/// and an end tag.
pub open spec fn cipher_value_xml(v: Option<Seq<char>>) -> Seq<char> {
    match v {
        None => empty_tag(cipher_value_name(), Seq::empty()),
        Some(t) => start_tag(cipher_value_name(), Seq::empty()) + text_escape(t) + end_tag(
            cipher_value_name(),
        ),
    }
}

/// The fragment a cipher-data wrapper encodes to: its own tags around the
/// value's fragment, embedded as literal markup.
pub open spec fn cipher_data_xml(v: Option<Seq<char>>) -> Seq<char> {
    start_tag(cipher_data_name(), Seq::empty()) + cipher_value_xml(v) + end_tag(cipher_data_name())
}

/// What decoding a cipher value from the characters of `s` yields. A
/// self-closing element and an element with empty content both decode to no
/// payload, mirroring the encoder's symmetry; anything that is not a
/// cipher-value element with entity-clean text content is a syntax error.
pub open spec fn cipher_value_parse(s: Seq<char>) -> Result<Option<Seq<char>>, MetadataError> {
    if s == empty_tag(cipher_value_name(), Seq::empty()) {
        Ok(None)
    } else if s.len() >= 37 && s.subrange(0, 18) == start_tag(cipher_value_name(), Seq::empty())
        && s.subrange(s.len() - 19, s.len() as int) == end_tag(cipher_value_name()) && (forall|
        j: int,
    |
        18 <= j < s.len() - 19 ==> s[j] != '<') {
        match unescape(s.subrange(18, s.len() - 19)) {
            None => Err(MetadataError::SyntaxError),
            Some(t) => if t.len() == 0 {
                Ok(None)
            } else {
                Ok(Some(t))
            },
        }
    } else {
        Err(MetadataError::SyntaxError)
    }
}

/// What decoding a cipher-data wrapper yields: its single child decoded by
/// the child's own contract. A wrapper with no child at all is a structure
/// error; so is a self-closing wrapper.
pub open spec fn cipher_data_parse(s: Seq<char>) -> Result<Option<Seq<char>>, MetadataError> {
    if s == empty_tag(cipher_data_name(), Seq::empty()) {
        Err(MetadataError::StructureError)
    } else if s.len() >= 35 && s.subrange(0, 17) == start_tag(cipher_data_name(), Seq::empty())
        && s.subrange(s.len() - 18, s.len() as int) == end_tag(cipher_data_name()) {
        let inner = s.subrange(17, s.len() - 18);
        if inner.len() == 0 {
            Err(MetadataError::StructureError)
        } else {
            cipher_value_parse(inner)
        }
    } else {
        Err(MetadataError::SyntaxError)
    }
}

impl EncryptedCipherValue {
    /// The element name this leaf renders under.
    pub fn name() -> (r: &'static str)
        ensures
            r@ == cipher_value_name(),
    {
        let r = "xenc:CipherValue";
        proof {
            reveal_strlit("xenc:CipherValue");
            assert(r@ =~= cipher_value_name());
        }
        r
    }

    /// Renders this leaf as an XML fragment: `<xenc:CipherValue/>` for no
    /// payload, otherwise the payload as escaped character data.
    pub fn to_xml(&self) -> (r: String)
        ensures
            r@ == cipher_value_xml(self@),
    {
        let mut out = String::new();
        let attrs: Vec<(String, String)> = Vec::new();
        proof {
            assert(attrs_view(attrs@) =~= Seq::<(Seq<char>, Seq<char>)>::empty());
        }
        match &self.value {
            None => {
                write_empty(&mut out, Self::name(), &attrs);
            },
            Some(t) => {
                write_start(&mut out, Self::name(), &attrs);
                write_text(&mut out, t.as_str());
                write_end(&mut out, Self::name());
            },
        }
        assert(out@ =~= cipher_value_xml(self@));
        out
    }

    /// Decodes a leaf from XML text, returning exactly what
    /// `cipher_value_parse` says of it.
    pub fn from_xml(s: &str) -> (r: Result<EncryptedCipherValue, MetadataError>)
        ensures
            (match r {
                Ok(cv) => cipher_value_parse(s@) == Ok::<_, MetadataError>(cv@),
                Err(e) => cipher_value_parse(s@) == Err::<Option<Seq<char>>, _>(e),
            }),
    {
        let v = to_chars(s);
        let n = v.len();
        proof {
            assert(v@.subrange(0, n as int) =~= v@);
        }
        match parse_cipher_value_range(&v, 0, n) {
            Ok(o) => Ok(EncryptedCipherValue { value: o }),
            Err(e) => Err(e),
        }
    }
}

impl EncryptedCipherData {
    /// The element name this wrapper renders under.
    pub fn name() -> (r: &'static str)
        ensures
            r@ == cipher_data_name(),
    {
        let r = "xenc:CipherData";
        proof {
            reveal_strlit("xenc:CipherData");
            assert(r@ =~= cipher_data_name());
        }
        r
    }

    /// Renders this wrapper as an XML fragment: its own tags around the
    /// value's fragment, which is embedded as literal markup and never
    /// escaped a second time.
    pub fn to_xml(&self) -> (r: String)
        ensures
            r@ == cipher_data_xml(self@),
    {
        let mut out = String::new();
        let attrs: Vec<(String, String)> = Vec::new();
        proof {
            assert(attrs_view(attrs@) =~= Seq::<(Seq<char>, Seq<char>)>::empty());
        }
        write_start(&mut out, Self::name(), &attrs);
        let child = self.value.to_xml();
        write_raw(&mut out, child.as_str());
        write_end(&mut out, Self::name());
        assert(out@ =~= cipher_data_xml(self@));
        out
    }

    /// Decodes a wrapper and its single child from XML text, returning
    /// exactly what `cipher_data_parse` says of it.
    pub fn from_xml(s: &str) -> (r: Result<EncryptedCipherData, MetadataError>)
        ensures
            (match r {
                Ok(cd) => cipher_data_parse(s@) == Ok::<_, MetadataError>(cd@),
                Err(e) => cipher_data_parse(s@) == Err::<Option<Seq<char>>, _>(e),
            }),
    {
        let v = to_chars(s);
        let n = v.len();
        proof {
            reveal_strlit("<xenc:CipherData/>");
            reveal_strlit("<xenc:CipherData>");
            reveal_strlit("</xenc:CipherData>");
            assert("<xenc:CipherData/>"@ =~= empty_tag(cipher_data_name(), Seq::empty()));
            assert("<xenc:CipherData>"@ =~= start_tag(cipher_data_name(), Seq::empty()));
            assert("</xenc:CipherData>"@ =~= end_tag(cipher_data_name()));
            assert(v@.subrange(0, n as int) =~= v@);
        }
        if range_eq(&v, 0, n, "<xenc:CipherData/>") {
            return Err(MetadataError::StructureError);
        }
        if n >= 35 && range_eq(&v, 0, 17, "<xenc:CipherData>") && range_eq(
            &v,
            n - 18,
            n,
            "</xenc:CipherData>",
        ) {
            if n == 35 {
                proof {
                    assert(v@.subrange(17, n - 18).len() == 0);
                }
                return Err(MetadataError::StructureError);
            }
            match parse_cipher_value_range(&v, 17, n - 18) {
                Ok(o) => Ok(EncryptedCipherData { value: EncryptedCipherValue { value: o } }),
                Err(e) => Err(e),
            }
        } else {
            Err(MetadataError::SyntaxError)
        }
    }
}

/// Decodes a cipher value from the characters of `v` between `a` and `b`,
/// returning exactly what `cipher_value_parse` says of that range.
fn parse_cipher_value_range(v: &Vec<char>, a: usize, b: usize) -> (r: Result<
    Option<String>,
    MetadataError,
>)
    requires
        a <= b <= v.len(),
    ensures
        (match r {
            Ok(o) => cipher_value_parse(v@.subrange(a as int, b as int)) == Ok::<
                _,
                MetadataError,
            >(
                match o {
                    Some(t) => Some(t@),
                    None => None,
                },
            ),
            Err(e) => cipher_value_parse(v@.subrange(a as int, b as int)) == Err::<
                Option<Seq<char>>,
                _,
            >(e),
        }),
{
    let ghost sub = v@.subrange(a as int, b as int);
    proof {
        reveal_strlit("<xenc:CipherValue/>");
        reveal_strlit("<xenc:CipherValue>");
        reveal_strlit("</xenc:CipherValue>");
        assert("<xenc:CipherValue/>"@ =~= empty_tag(cipher_value_name(), Seq::empty()));
        assert("<xenc:CipherValue>"@ =~= start_tag(cipher_value_name(), Seq::empty()));
        assert("</xenc:CipherValue>"@ =~= end_tag(cipher_value_name()));
    }
    if range_eq(v, a, b, "<xenc:CipherValue/>") {
        assert(cipher_value_parse(sub) == Ok::<Option<Seq<char>>, MetadataError>(None));
        return Ok(None);
    }
    proof {
        if b - a >= 37 {
            assert(sub.subrange(0, 18) =~= v@.subrange(a as int, a + 18));
            assert(sub.subrange(sub.len() - 19, sub.len() as int) =~= v@.subrange(
                b - 19,
                b as int,
            ));
            assert(sub.subrange(18, sub.len() - 19) =~= v@.subrange(a + 18, b - 19));
        }
    }
    if b - a >= 37 && range_eq(v, a, a + 18, "<xenc:CipherValue>") && range_eq(
        v,
        b - 19,
        b,
        "</xenc:CipherValue>",
    ) {
        let f = find_char_x(v, a + 18, '<');
        if f < b - 19 {
            proof {
                lemma_find_char(v@, a + 18, '<');
                assert(sub[f - a] == '<');
            }
            return Err(MetadataError::SyntaxError);
        }
        proof {
            lemma_find_char(v@, a + 18, '<');
            assert(forall|j: int| 18 <= j < sub.len() - 19 ==> sub[j] == v@[a + j] && sub[j] != '<');
        }
        match unescape_range(v, a + 18, b - 19) {
            None => {
                assert(cipher_value_parse(sub) == Err::<Option<Seq<char>>, _>(
                    MetadataError::SyntaxError,
                ));
                Err(MetadataError::SyntaxError)
            },
            Some(t) => {
                if t.as_str().unicode_len() == 0 {
                    assert(cipher_value_parse(sub) == Ok::<Option<Seq<char>>, MetadataError>(
                        None,
                    ));
                    Ok(None)
                } else {
                    assert(cipher_value_parse(sub) == Ok::<Option<Seq<char>>, MetadataError>(
                        Some(t@),
                    ));
                    Ok(Some(t))
                }
            },
        }
    } else {
        assert(cipher_value_parse(sub) == Err::<Option<Seq<char>>, _>(MetadataError::SyntaxError));
        Err(MetadataError::SyntaxError)
    }
}

/// Decoding inverts encoding for a cipher value, for every payload but the
/// empty text: no payload and an empty payload encode to the same empty
/// element, which decodes to no payload.
pub proof fn lemma_cipher_value_round_trip(v: Option<Seq<char>>)
    requires
        v matches Some(t) ==> t.len() > 0,
    ensures
        cipher_value_parse(cipher_value_xml(v)) == Ok::<_, MetadataError>(v),
{
    match v {
        None => {},
        Some(t) => {
            let st = start_tag(cipher_value_name(), Seq::empty());
            let te = text_escape(t);
            let et = end_tag(cipher_value_name());
            let s = cipher_value_xml(v);
            lemma_text_escape_clean(t);
            lemma_text_escape_unescape(t);
            assert(s.len() == 18 + te.len() + 19);
            assert(s != empty_tag(cipher_value_name(), Seq::empty())) by {
                assert(empty_tag(cipher_value_name(), Seq::empty()).len() == 19);
            }
            assert(s.subrange(0, 18) =~= st);
            assert(s.subrange(s.len() - 19, s.len() as int) =~= et);
            assert(s.subrange(18, s.len() - 19) =~= te);
            assert(forall|j: int| 18 <= j < s.len() - 19 ==> s[j] == te[j - 18] && s[j] != '<');
        },
    }
}

/// Decoding inverts encoding for a cipher-data wrapper, under the same
/// empty-payload proviso as for the cipher value.
pub proof fn lemma_cipher_data_round_trip(v: Option<Seq<char>>)
    requires
        v matches Some(t) ==> t.len() > 0,
    ensures
        cipher_data_parse(cipher_data_xml(v)) == Ok::<_, MetadataError>(v),
{
    let st = start_tag(cipher_data_name(), Seq::empty());
    let cvx = cipher_value_xml(v);
    let et = end_tag(cipher_data_name());
    let s = cipher_data_xml(v);
    assert(cvx.len() >= 19);
    assert(s.len() == 17 + cvx.len() + 18);
    assert(s != empty_tag(cipher_data_name(), Seq::empty())) by {
        assert(empty_tag(cipher_data_name(), Seq::empty()).len() == 18);
    }
    assert(s.subrange(0, 17) =~= st);
    assert(s.subrange(s.len() - 18, s.len() as int) =~= et);
    assert(s.subrange(17, s.len() - 18) =~= cvx);
    lemma_cipher_value_round_trip(v);
}

} // verus!
