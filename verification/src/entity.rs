//! The entity descriptor: the root document unit.
//!
//! It owns the optional entity-level attributes and the child descriptor
//! collections, declares the full namespace set once at the root, and
//! serializes its children in the schema-mandated order: SP-SSO descriptors,
//! then the organization, then the contact person.

use crate::descriptor::{
    contact_person_name, contact_person_xml, contact_type_key, organization_name_child,
    organization_name_elem, organization_xml, protocol_support_key, sp_sso_name, sp_sso_xml,
    ContactPerson, Organization, SpSsoDescriptor,
};
use crate::error::MetadataError;
use crate::parse::{
    attr_lookup, attr_lookup_x, find_char, find_char_x, is_name_char, lemma_find_char,
    lemma_name_end, lemma_parse_attrs_bounds, lemma_skip_ws, name_end, name_end_x, parse_attrs,
    parse_attrs_x, range_eq, skip_ws, skip_ws_x, to_chars, unescape, unescape_range,
};
use crate::timestamp::{timestamp_parse, timestamp_text, Timestamp};
use crate::xml::{attrs_view, empty_tag, end_tag, start_tag, write_end, write_raw, write_start};
use vstd::prelude::*;

verus! {

/// The root element name, as a character sequence.
pub open spec fn root_name() -> Seq<char> {
    seq![
        'm',
        'd',
        ':',
        'E',
        'n',
        't',
        'i',
        't',
        'y',
        'D',
        'e',
        's',
        'c',
        'r',
        'i',
        'p',
        't',
        'o',
        'r',
    ]
}

/// The `entityID` attribute key.
pub open spec fn entity_id_key() -> Seq<char> {
    seq!['e', 'n', 't', 'i', 't', 'y', 'I', 'D']
}

/// The `ID` attribute key.
pub open spec fn id_key() -> Seq<char> {
    seq!['I', 'D']
}

/// The `validUntil` attribute key.
pub open spec fn valid_until_key() -> Seq<char> {
    seq!['v', 'a', 'l', 'i', 'd', 'U', 'n', 't', 'i', 'l']
}

/// The `cacheDuration` attribute key.
pub open spec fn cache_duration_key() -> Seq<char> {
    seq!['c', 'a', 'c', 'h', 'e', 'D', 'u', 'r', 'a', 't', 'i', 'o', 'n']
}

/// The namespace declarations the root carries unconditionally, whether or
/// not elements of each namespace occur in the document.
pub open spec fn ns_attrs() -> Seq<(Seq<char>, Seq<char>)> {
    seq![
        ("xmlns:md"@, "urn:oasis:names:tc:SAML:2.0:metadata"@),
        ("xmlns:saml"@, "urn:oasis:names:tc:SAML:2.0:assertion"@),
        ("xmlns:mdrpi"@, "urn:oasis:names:tc:SAML:metadata:rpi"@),
        ("xmlns:mdattr"@, "urn:oasis:names:tc:SAML:metadata:attribute"@),
        ("xmlns:mdui"@, "urn:oasis:names:tc:SAML:metadata:ui"@),
        ("xmlns:idpdisc"@, "urn:oasis:names:tc:SAML:profiles:SSO:idp-discovery-protocol"@),
        ("xmlns:ds"@, "http://www.w3.org/2000/09/xmldsig#"@),
    ]
}

/// The mathematical shape of an entity descriptor.
pub ghost struct EntityDescriptorV {
    pub entity_id: Option<Seq<char>>,
    pub id: Option<Seq<char>>,
    pub valid_until: Option<Timestamp>,
    pub cache_duration: Option<Seq<char>>,
    pub sp_sso_descriptors: Option<Seq<Option<Seq<char>>>>,
    pub organization: Option<Option<Seq<char>>>,
    pub contact_person: Option<Option<Seq<char>>>,
}

/// The root document unit of SAML metadata: entity-level attributes and the
/// child descriptor collections this library models.
#[derive(Clone, Debug, PartialEq, Eq, Default)]
pub struct EntityDescriptor {
    pub entity_id: Option<String>,
    pub id: Option<String>,
    pub valid_until: Option<Timestamp>,
    pub cache_duration: Option<String>,
    pub sp_sso_descriptors: Option<Vec<SpSsoDescriptor>>,
    pub organization: Option<Organization>,
    pub contact_person: Option<ContactPerson>,
}

/// The views of a list of SP-SSO descriptors, in order.
pub open spec fn sp_list_view(l: Seq<SpSsoDescriptor>) -> Seq<Option<Seq<char>>> {
    l.map_values(|d: SpSsoDescriptor| d@)
}

impl View for EntityDescriptor {
    type V = EntityDescriptorV;

    open spec fn view(&self) -> EntityDescriptorV {
        EntityDescriptorV {
            entity_id: match self.entity_id {
                Some(s) => Some(s@),
                None => None,
            },
            id: match self.id {
                Some(s) => Some(s@),
                None => None,
            },
            valid_until: self.valid_until,
            cache_duration: match self.cache_duration {
                Some(s) => Some(s@),
                None => None,
            },
            sp_sso_descriptors: match self.sp_sso_descriptors {
                Some(l) => Some(sp_list_view(l@)),
                None => None,
            },
            organization: match self.organization {
                Some(o) => Some(o@),
                None => None,
            },
            contact_person: match self.contact_person {
                Some(c) => Some(c@),
                None => None,
            },
        }
    }
}

impl EntityDescriptor {
    /// The invariant of an entity descriptor: a validity bound, where one is
    /// set, is a well-formed timestamp.
    pub open spec fn well_formed(self) -> bool {
        match self.valid_until {
            Some(t) => t.well_formed(),
            None => true,
        }
    }
}

/// The attribute list of the root element: `entityID` and `validUntil` only
/// where present, then the unconditional namespace declarations.
pub open spec fn entity_attrs(d: EntityDescriptorV) -> Seq<(Seq<char>, Seq<char>)> {
    (match d.entity_id {
        Some(e) => seq![(entity_id_key(), e)],
        None => Seq::empty(),
    }) + (match d.valid_until {
        Some(t) => seq![(valid_until_key(), timestamp_text(t))],
        None => Seq::empty(),
    }) + ns_attrs()
}

/// The concatenated fragments of a list of SP-SSO descriptors, in order.
pub open spec fn sp_list_xml(l: Seq<Option<Seq<char>>>) -> Seq<char>
    decreases l.len(),
{
    if l.len() == 0 {
        Seq::empty()
    } else {
        sp_sso_xml(l[0]) + sp_list_xml(l.skip(1))
    }
}

/// The SP-SSO section of the document: every descriptor's fragment, or
/// nothing where the collection is absent.
pub open spec fn sp_section(d: EntityDescriptorV) -> Seq<char> {
    match d.sp_sso_descriptors {
        Some(l) => sp_list_xml(l),
        None => Seq::empty(),
    }
}

/// The organization section of the document.
pub open spec fn org_section(d: EntityDescriptorV) -> Seq<char> {
    match d.organization {
        Some(o) => organization_xml(o),
        None => Seq::empty(),
    }
}

/// The contact-person section of the document.
pub open spec fn contact_section(d: EntityDescriptorV) -> Seq<char> {
    match d.contact_person {
        Some(c) => contact_person_xml(c),
        None => Seq::empty(),
    }
}

/// The complete document an entity descriptor encodes to: the root start
/// tag with its attributes and namespace declarations, the child sections in
/// schema order, and the root end tag.
pub open spec fn entity_xml(d: EntityDescriptorV) -> Seq<char> {
    start_tag(root_name(), entity_attrs(d)) + sp_section(d) + org_section(d) + contact_section(d)
        + end_tag(root_name())
}

/// Appending one descriptor appends its fragment.
proof fn lemma_sp_list_xml_push(l: Seq<Option<Seq<char>>>, x: Option<Seq<char>>)
    ensures
        sp_list_xml(l.push(x)) == sp_list_xml(l) + sp_sso_xml(x),
    decreases l.len(),
{
    if l.len() == 0 {
        assert(l.push(x).skip(1) =~= Seq::<Option<Seq<char>>>::empty());
        assert(l.push(x)[0] == x);
        assert(sp_list_xml(Seq::<Option<Seq<char>>>::empty()) == Seq::<char>::empty());
        assert(sp_list_xml(l.push(x)) == sp_sso_xml(x) + sp_list_xml(l.push(x).skip(1)));
        assert(sp_list_xml(l.push(x)) =~= sp_list_xml(l) + sp_sso_xml(x));
    } else {
        assert(l.push(x).skip(1) =~= l.skip(1).push(x));
        lemma_sp_list_xml_push(l.skip(1), x);
        assert(l.push(x)[0] == l[0]);
        assert(sp_list_xml(l.push(x)) =~= sp_list_xml(l) + sp_sso_xml(x));
    }
}

impl EntityDescriptor {
    /// Encodes this entity descriptor as a complete XML document text.
    /// Encoding writes to an in-memory buffer and always succeeds; the
    /// result is exactly the document `entity_xml` describes.
    pub fn to_xml(&self) -> (r: Result<String, MetadataError>)
        requires
            self.well_formed(),
        ensures
            r matches Ok(t) && t@ == entity_xml(self@),
    {
        let root = "md:EntityDescriptor";
        proof {
            reveal_strlit("md:EntityDescriptor");
            reveal_strlit("entityID");
            reveal_strlit("validUntil");
            assert(root@ =~= root_name());
            assert("entityID"@ =~= entity_id_key());
            assert("validUntil"@ =~= valid_until_key());
        }
        let mut attrs: Vec<(String, String)> = Vec::new();
        if let Some(eid) = &self.entity_id {
            attrs.push((String::from_str("entityID"), eid.clone()));
        }
        if let Some(ts) = &self.valid_until {
            attrs.push((String::from_str("validUntil"), ts.to_rfc3339()));
        }
        attrs.push((String::from_str("xmlns:md"), String::from_str(
            "urn:oasis:names:tc:SAML:2.0:metadata",
        )));
        attrs.push((String::from_str("xmlns:saml"), String::from_str(
            "urn:oasis:names:tc:SAML:2.0:assertion",
        )));
        attrs.push((String::from_str("xmlns:mdrpi"), String::from_str(
            "urn:oasis:names:tc:SAML:metadata:rpi",
        )));
        attrs.push((String::from_str("xmlns:mdattr"), String::from_str(
            "urn:oasis:names:tc:SAML:metadata:attribute",
        )));
        attrs.push((String::from_str("xmlns:mdui"), String::from_str(
            "urn:oasis:names:tc:SAML:metadata:ui",
        )));
        attrs.push((String::from_str("xmlns:idpdisc"), String::from_str(
            "urn:oasis:names:tc:SAML:profiles:SSO:idp-discovery-protocol",
        )));
        attrs.push((String::from_str("xmlns:ds"), String::from_str(
            "http://www.w3.org/2000/09/xmldsig#",
        )));
        proof {
            assert(attrs_view(attrs@) =~= entity_attrs(self@));
        }
        let mut out = String::new();
        write_start(&mut out, root, &attrs);
        let ghost head = start_tag(root_name(), entity_attrs(self@));
        if let Some(sps) = &self.sp_sso_descriptors {
            let mut i: usize = 0;
            proof {
                assert(sp_list_view(sps@.take(0)) =~= Seq::<Option<Seq<char>>>::empty());
                assert(out@ =~= head + sp_list_xml(sp_list_view(sps@.take(0))));
            }
            while i < sps.len()
                invariant
                    i <= sps.len(),
                    self.well_formed(),
                    self.sp_sso_descriptors matches Some(l) && l@ == sps@,
                    out@ == head + sp_list_xml(sp_list_view(sps@.take(i as int))),
                    head == start_tag(root_name(), entity_attrs(self@)),
                decreases sps.len() - i,
            {
                let frag = sps[i].to_xml();
                write_raw(&mut out, frag.as_str());
                proof {
                    assert(sp_list_view(sps@.take(i + 1)) =~= sp_list_view(
                        sps@.take(i as int),
                    ).push(sps@[i as int]@));
                    lemma_sp_list_xml_push(sp_list_view(sps@.take(i as int)), sps@[i as int]@);
                    assert(out@ =~= head + sp_list_xml(sp_list_view(sps@.take(i + 1))));
                }
                i = i + 1;
            }
            proof {
                assert(sps@.take(sps@.len() as int) =~= sps@);
            }
        }
        proof {
            assert(out@ =~= head + sp_section(self@));
        }
        if let Some(org) = &self.organization {
            let frag = org.to_xml();
            write_raw(&mut out, frag.as_str());
        }
        if let Some(contact) = &self.contact_person {
            let frag = contact.to_xml();
            write_raw(&mut out, frag.as_str());
        }
        write_end(&mut out, root);
        assert(out@ =~= entity_xml(self@));
        Ok(out)
    }
}

/// Encoding is deterministic: equal documents encode to identical text, so
/// encoding the same value twice yields byte-identical output.
pub proof fn lemma_encode_deterministic(a: EntityDescriptorV, b: EntityDescriptorV)
    requires
        a == b,
    ensures
        entity_xml(a) == entity_xml(b),
{
}

/// An entity descriptor with every optional field absent encodes to a
/// self-contained root element that carries nothing but the namespace
/// declarations.
pub proof fn lemma_empty_entity_xml(d: EntityDescriptorV)
    requires
        d.entity_id is None,
        d.id is None,
        d.valid_until is None,
        d.cache_duration is None,
        d.sp_sso_descriptors is None,
        d.organization is None,
        d.contact_person is None,
    ensures
        entity_xml(d) == start_tag(root_name(), ns_attrs()) + end_tag(root_name()),
{
    assert(entity_attrs(d) =~= ns_attrs());
    assert(entity_xml(d) =~= start_tag(root_name(), ns_attrs()) + end_tag(root_name()));
}

/// Ordering of the encoded children: where SP-SSO descriptors and an
/// organization are both present, every SP-SSO fragment stands before the
/// organization fragment; the offsets below pin the two regions down.
pub proof fn lemma_sp_before_org(d: EntityDescriptorV)
    requires
        d.sp_sso_descriptors is Some,
        d.organization is Some,
    ensures
        ({
            let head = start_tag(root_name(), entity_attrs(d));
            let sp = sp_section(d);
            let org = org_section(d);
            entity_xml(d).subrange(head.len() as int, head.len() + sp.len() as int) == sp
                && entity_xml(d).subrange(
                head.len() + sp.len() as int,
                head.len() + sp.len() + org.len() as int,
            ) == org
        }),
{
    let head = start_tag(root_name(), entity_attrs(d));
    let sp = sp_section(d);
    let org = org_section(d);
    let s = entity_xml(d);
    assert(s.subrange(head.len() as int, head.len() + sp.len() as int) =~= sp);
    assert(s.subrange(head.len() + sp.len() as int, head.len() + sp.len() + org.len() as int) =~= org);
}


/// The child collections found while scanning the root's children.
pub ghost struct ChildrenV {
    pub sp: Seq<Option<Seq<char>>>,
    pub org: Option<Option<Seq<char>>>,
    pub contact: Option<Option<Seq<char>>>,
}

/// Skips the content of an element whose meaning this library does not
/// model, up to and over the end tag matching `name`: text runs, comments,
/// and nested elements with their own balanced subtrees are all passed
/// over. A mismatched or missing end tag is a syntax error.
pub open spec fn skip_content(s: Seq<char>, i: int, name: Seq<char>) -> Result<int, MetadataError>
    decreases s.len() - i
        when 0 <= i <= s.len()
        via skip_content_decreases
{
    let t = find_char(s, i, '<');
    if !(t + 1 < s.len()) {
        Err(MetadataError::SyntaxError)
    } else if s[t + 1] == '/' {
        let ne = name_end(s, t + 2);
        if s.subrange(t + 2, ne) == name && ne < s.len() && s[ne] == '>' {
            Ok(ne + 1)
        } else {
            Err(MetadataError::SyntaxError)
        }
    } else if s[t + 1] == '!' {
        if t + 4 <= s.len() && s[t + 2] == '-' && s[t + 3] == '-' {
            let q = crate::parse::comment_end(s, t + 4);
            if q < s.len() {
                skip_content(s, q + 3, name)
            } else {
                Err(MetadataError::SyntaxError)
            }
        } else {
            Err(MetadataError::SyntaxError)
        }
    } else {
        let ne = name_end(s, t + 1);
        if ne == t + 1 {
            Err(MetadataError::SyntaxError)
        } else {
            match parse_attrs(s, ne) {
                Err(e) => Err(e),
                Ok((atts, p)) => {
                    if p + 1 < s.len() && s[p] == '/' && s[p + 1] == '>' {
                        skip_content(s, p + 2, name)
                    } else if p < s.len() && s[p] == '>' {
                        match skip_content(s, p + 1, s.subrange(t + 1, ne)) {
                            Err(e) => Err(e),
                            Ok(after) => if p + 1 < after <= s.len() {
                                skip_content(s, after, name)
                            } else {
                                Err(MetadataError::SyntaxError)
                            },
                        }
                    } else {
                        Err(MetadataError::SyntaxError)
                    }
                },
            }
        }
    }
}

#[via_fn]
proof fn skip_content_decreases(s: Seq<char>, i: int, name: Seq<char>) {
    lemma_find_char(s, i, '<');
    let t = find_char(s, i, '<');
    if t + 1 < s.len() && s[t + 1] != '/' {
        if s[t + 1] == '!' {
            if t + 4 <= s.len() && s[t + 2] == '-' && s[t + 3] == '-' {
                crate::parse::lemma_comment_end(s, t + 4);
            }
        } else {
            lemma_name_end(s, t + 1);
            let ne = name_end(s, t + 1);
            if ne != t + 1 {
                lemma_parse_attrs_bounds(s, ne);
            }
        }
    }
}

/// Bounds of `skip_content`: on success the scan moved forward and stayed
/// inside the text.
pub proof fn lemma_skip_content_bounds(s: Seq<char>, i: int, name: Seq<char>)
    requires
        0 <= i <= s.len(),
    ensures
        (match skip_content(s, i, name) {
            Ok(after) => i < after <= s.len(),
            Err(_) => true,
        }),
    decreases s.len() - i,
{
    lemma_find_char(s, i, '<');
    let t = find_char(s, i, '<');
    if t + 1 < s.len() {
        if s[t + 1] == '/' {
            lemma_name_end(s, t + 2);
        } else if s[t + 1] == '!' {
            if t + 4 <= s.len() && s[t + 2] == '-' && s[t + 3] == '-' {
                crate::parse::lemma_comment_end(s, t + 4);
                let q = crate::parse::comment_end(s, t + 4);
                if q < s.len() {
                    lemma_skip_content_bounds(s, q + 3, name);
                }
            }
        } else {
            lemma_name_end(s, t + 1);
            let ne = name_end(s, t + 1);
            if ne != t + 1 {
                lemma_parse_attrs_bounds(s, ne);
                match parse_attrs(s, ne) {
                    Ok((atts, p)) => {
                        if p + 1 < s.len() && s[p] == '/' && s[p + 1] == '>' {
                            lemma_skip_content_bounds(s, p + 2, name);
                        } else if p < s.len() && s[p] == '>' {
                            lemma_skip_content_bounds(s, p + 1, s.subrange(t + 1, ne));
                            match skip_content(s, p + 1, s.subrange(t + 1, ne)) {
                                Ok(after) => {
                                    if p + 1 < after <= s.len() {
                                        lemma_skip_content_bounds(s, after, name);
                                    }
                                },
                                Err(_) => {},
                            }
                        }
                    },
                    Err(_) => {},
                }
            }
        }
    }
}

/// What closing a childless element yields, with the scan at the `/` or `>`
/// that ends its start tag: the position after `/>`, or after its balanced
/// content and matching end tag. Content of such an element — text,
/// comments, nested elements — is tolerated and ignored, as unknown
/// elements are.
pub open spec fn parse_elem_close(s: Seq<char>, p: int, name: Seq<char>) -> Result<
    int,
    MetadataError,
> {
    if p + 1 < s.len() && s[p] == '/' && s[p + 1] == '>' {
        Ok(p + 2)
    } else if 0 <= p < s.len() && s[p] == '>' {
        skip_content(s, p + 1, name)
    } else {
        Err(MetadataError::SyntaxError)
    }
}

/// Bounds of `parse_elem_close`: on success the scan moved forward and
/// stayed inside the text.
pub proof fn lemma_parse_elem_close_bounds(s: Seq<char>, p: int, name: Seq<char>)
    requires
        0 <= p <= s.len(),
    ensures
        (match parse_elem_close(s, p, name) {
            Ok(after) => p < after <= s.len(),
            Err(_) => true,
        }),
{
    if !(p + 1 < s.len() && s[p] == '/' && s[p + 1] == '>') && 0 <= p < s.len() && s[p] == '>' {
        lemma_skip_content_bounds(s, p + 1, name);
    }
}

/// What parsing an organization's name child yields, with the scan at its
/// opening `<`: the name text (empty decodes to none), and the position
/// after the child element. A child that is not an organization name is a
/// validation error.
pub open spec fn parse_org_name_child(s: Seq<char>, w: int) -> Result<
    (Option<Seq<char>>, int),
    MetadataError,
> {
    let ne = name_end(s, w + 1);
    if ne == w + 1 {
        Err(MetadataError::SyntaxError)
    } else if s.subrange(w + 1, ne) != organization_name_child() {
        Err(MetadataError::ValidationError)
    } else {
        match parse_attrs(s, ne) {
            Err(e) => Err(e),
            Ok((atts, p)) => {
                if p + 1 < s.len() && s[p] == '/' && s[p + 1] == '>' {
                    Ok((None, p + 2))
                } else if 0 <= p < s.len() && s[p] == '>' {
                    let t = find_char(s, p + 1, '<');
                    if !(t + 1 < s.len() && s[t + 1] == '/') {
                        Err(MetadataError::SyntaxError)
                    } else {
                        let ne2 = name_end(s, t + 2);
                        if !(s.subrange(t + 2, ne2) == organization_name_child() && ne2 < s.len()
                            && s[ne2] == '>') {
                            Err(MetadataError::SyntaxError)
                        } else {
                            match unescape(s.subrange(p + 1, t)) {
                                None => Err(MetadataError::SyntaxError),
                                Some(txt) => Ok(
                                    (
                                        if txt.len() == 0 {
                                            None
                                        } else {
                                            Some(txt)
                                        },
                                        ne2 + 1,
                                    ),
                                ),
                            }
                        }
                    }
                } else {
                    Err(MetadataError::SyntaxError)
                }
            },
        }
    }
}

/// Bounds of `parse_org_name_child`.
pub proof fn lemma_parse_org_name_child_bounds(s: Seq<char>, w: int)
    requires
        0 <= w <= s.len(),
    ensures
        (match parse_org_name_child(s, w) {
            Ok((_, after)) => w < after <= s.len(),
            Err(_) => true,
        }),
{
    if w + 1 <= s.len() {
        lemma_name_end(s, w + 1);
        let ne = name_end(s, w + 1);
        if ne != w + 1 && s.subrange(w + 1, ne) == organization_name_child() {
            lemma_parse_attrs_bounds(s, ne);
            match parse_attrs(s, ne) {
                Ok((atts0, p)) => {
                    if !(p + 1 < s.len() && s[p] == '/' && s[p + 1] == '>') && p < s.len() && s[p]
                        == '>' {
                        lemma_find_char(s, p + 1, '<');
                        let t = find_char(s, p + 1, '<');
                        if t + 1 < s.len() {
                            lemma_name_end(s, t + 2);
                        }
                    }
                },
                Err(_) => {},
            }
        }
    }
}

/// What parsing an organization's content yields, with the scan just after
/// the `>` of its start tag: exactly one organization-name child, then the
/// organization's end tag. An organization with no name child at all is a
/// validation error, as the schema mandates the name.
pub open spec fn parse_org_content(s: Seq<char>, i: int) -> Result<
    (Option<Seq<char>>, int),
    MetadataError,
> {
    let w = skip_ws(s, i);
    if !(w + 1 < s.len() && s[w] == '<') {
        Err(MetadataError::SyntaxError)
    } else if s[w + 1] == '/' {
        let ne = name_end(s, w + 2);
        if s.subrange(w + 2, ne) == organization_name_elem() && ne < s.len() && s[ne] == '>' {
            Err(MetadataError::ValidationError)
        } else {
            Err(MetadataError::SyntaxError)
        }
    } else {
        match parse_org_name_child(s, w) {
            Err(e) => Err(e),
            Ok((val, after)) => {
                let w2 = skip_ws(s, after);
                if !(w2 + 1 < s.len() && s[w2] == '<' && s[w2 + 1] == '/') {
                    Err(MetadataError::SyntaxError)
                } else {
                    let ne3 = name_end(s, w2 + 2);
                    if s.subrange(w2 + 2, ne3) == organization_name_elem() && ne3 < s.len()
                        && s[ne3] == '>' {
                        Ok((val, ne3 + 1))
                    } else {
                        Err(MetadataError::SyntaxError)
                    }
                }
            },
        }
    }
}

/// Bounds of `parse_org_content`.
pub proof fn lemma_parse_org_content_bounds(s: Seq<char>, i: int)
    requires
        0 <= i <= s.len(),
    ensures
        (match parse_org_content(s, i) {
            Ok((_, after)) => i < after <= s.len(),
            Err(_) => true,
        }),
{
    lemma_skip_ws(s, i);
    let w = skip_ws(s, i);
    if w + 1 < s.len() && s[w] == '<' && s[w + 1] != '/' {
        lemma_parse_org_name_child_bounds(s, w);
        match parse_org_name_child(s, w) {
            Ok((val0, after)) => {
                lemma_skip_ws(s, after);
                let w2 = skip_ws(s, after);
                if w2 + 1 < s.len() {
                    lemma_name_end(s, w2 + 2);
                }
            },
            Err(_) => {},
        }
    }
}

/// What scanning the root's children yields, starting at `i`: the child
/// collections in document order, and the position just after the root's
/// end tag. SP-SSO descriptors accumulate in order; for the organization
/// and the contact person the first occurrence counts; unknown elements
/// with their balanced subtrees, comments, and whitespace between children
/// are ignored.
pub open spec fn parse_children(s: Seq<char>, i: int) -> Result<(ChildrenV, int), MetadataError>
    decreases s.len() - i
        when 0 <= i <= s.len()
        via parse_children_decreases
{
    let j = skip_ws(s, i);
    if !(j + 1 < s.len() && s[j] == '<') {
        Err(MetadataError::SyntaxError)
    } else if s[j + 1] == '/' {
        let ne = name_end(s, j + 2);
        if s.subrange(j + 2, ne) == root_name() && ne < s.len() && s[ne] == '>' {
            Ok((ChildrenV { sp: Seq::empty(), org: None, contact: None }, ne + 1))
        } else {
            Err(MetadataError::SyntaxError)
        }
    } else if s[j + 1] == '!' {
        if j + 4 <= s.len() && s[j + 2] == '-' && s[j + 3] == '-' {
            let q = crate::parse::comment_end(s, j + 4);
            if q < s.len() {
                parse_children(s, q + 3)
            } else {
                Err(MetadataError::SyntaxError)
            }
        } else {
            Err(MetadataError::SyntaxError)
        }
    } else {
        let ne = name_end(s, j + 1);
        if ne == j + 1 {
            Err(MetadataError::SyntaxError)
        } else {
            let name = s.subrange(j + 1, ne);
            match parse_attrs(s, ne) {
                Err(e) => Err(e),
                Ok((atts, p)) => {
                    if name == sp_sso_name() {
                        match parse_elem_close(s, p, name) {
                            Err(e) => Err(e),
                            Ok(after) => match parse_children(s, after) {
                                Err(e) => Err(e),
                                Ok((rest, end)) => Ok(
                                    (
                                        ChildrenV {
                                            sp: seq![
                                                attr_lookup(atts, protocol_support_key()),
                                            ] + rest.sp,
                                            org: rest.org,
                                            contact: rest.contact,
                                        },
                                        end,
                                    ),
                                ),
                            },
                        }
                    } else if name == contact_person_name() {
                        match parse_elem_close(s, p, name) {
                            Err(e) => Err(e),
                            Ok(after) => match parse_children(s, after) {
                                Err(e) => Err(e),
                                Ok((rest, end)) => Ok(
                                    (
                                        ChildrenV {
                                            sp: rest.sp,
                                            org: rest.org,
                                            contact: (if rest.contact is Some {
                                                rest.contact
                                            } else {
                                                Some(attr_lookup(atts, contact_type_key()))
                                            }),
                                        },
                                        end,
                                    ),
                                ),
                            },
                        }
                    } else if name == organization_name_elem() {
                        if p + 1 < s.len() && s[p] == '/' && s[p + 1] == '>' {
                            match parse_children(s, p + 2) {
                                Err(e) => Err(e),
                                Ok((rest, end)) => Ok(
                                    (
                                        ChildrenV {
                                            sp: rest.sp,
                                            org: (if rest.org is Some {
                                                rest.org
                                            } else {
                                                Some(None)
                                            }),
                                            contact: rest.contact,
                                        },
                                        end,
                                    ),
                                ),
                            }
                        } else if p < s.len() && s[p] == '>' {
                            match parse_org_content(s, p + 1) {
                                Err(e) => Err(e),
                                Ok((o, after)) => match parse_children(s, after) {
                                    Err(e) => Err(e),
                                    Ok((rest, end)) => Ok(
                                        (
                                            ChildrenV {
                                                sp: rest.sp,
                                                org: (if rest.org is Some {
                                                    rest.org
                                                } else {
                                                    Some(o)
                                                }),
                                                contact: rest.contact,
                                            },
                                            end,
                                        ),
                                    ),
                                },
                            }
                        } else {
                            Err(MetadataError::SyntaxError)
                        }
                    } else {
                        match parse_elem_close(s, p, name) {
                            Err(e) => Err(e),
                            Ok(after) => parse_children(s, after),
                        }
                    }
                },
            }
        }
    }
}

#[via_fn]
proof fn parse_children_decreases(s: Seq<char>, i: int) {
    lemma_skip_ws(s, i);
    let j = skip_ws(s, i);
    if j + 1 < s.len() && s[j] == '<' && s[j + 1] == '!' {
        if j + 4 <= s.len() && s[j + 2] == '-' && s[j + 3] == '-' {
            crate::parse::lemma_comment_end(s, j + 4);
        }
    } else if j + 1 < s.len() && s[j] == '<' && s[j + 1] != '/' {
        lemma_name_end(s, j + 1);
        let ne = name_end(s, j + 1);
        if ne != j + 1 {
            let name = s.subrange(j + 1, ne);
            lemma_parse_attrs_bounds(s, ne);
            match parse_attrs(s, ne) {
                Ok((atts, p)) => {
                    lemma_parse_elem_close_bounds(s, p, name);
                    if p < s.len() {
                        lemma_parse_org_content_bounds(s, p + 1);
                    }
                },
                Err(_) => {},
            }
        }
    }
}

/// Bounds of `parse_children`.
pub proof fn lemma_parse_children_bounds(s: Seq<char>, i: int)
    requires
        0 <= i <= s.len(),
    ensures
        (match parse_children(s, i) {
            Ok((_, end)) => i < end <= s.len(),
            Err(_) => true,
        }),
    decreases s.len() - i,
{
    lemma_skip_ws(s, i);
    let j = skip_ws(s, i);
    if j + 1 < s.len() && s[j] == '<' {
        if s[j + 1] == '/' {
            lemma_name_end(s, j + 2);
        } else if s[j + 1] == '!' {
            if j + 4 <= s.len() && s[j + 2] == '-' && s[j + 3] == '-' {
                crate::parse::lemma_comment_end(s, j + 4);
                let q = crate::parse::comment_end(s, j + 4);
                if q < s.len() {
                    lemma_parse_children_bounds(s, q + 3);
                }
            }
        } else {
            lemma_name_end(s, j + 1);
            let ne = name_end(s, j + 1);
            if ne != j + 1 {
                let name = s.subrange(j + 1, ne);
                lemma_parse_attrs_bounds(s, ne);
                match parse_attrs(s, ne) {
                    Ok((atts, p)) => {
                        lemma_parse_elem_close_bounds(s, p, name);
                        match parse_elem_close(s, p, name) {
                            Ok(after) => {
                                lemma_parse_children_bounds(s, after);
                            },
                            Err(_) => {},
                        }
                        if p < s.len() {
                            lemma_parse_org_content_bounds(s, p + 1);
                            if p + 1 < s.len() && s[p] == '/' && s[p + 1] == '>' {
                                lemma_parse_children_bounds(s, p + 2);
                            } else if s[p] == '>' {
                                match parse_org_content(s, p + 1) {
                                    Ok((o0, after2)) => {
                                        lemma_parse_children_bounds(s, after2);
                                    },
                                    Err(_) => {},
                                }
                            }
                        }
                    },
                    Err(_) => {},
                }
            }
        }
    }
}

/// Where an XML declaration (`<?xml ...?>`) opens the document, the
/// position after it and any following whitespace; elsewhere `j` unchanged.
/// An unterminated declaration is a syntax error.
pub open spec fn skip_decl(s: Seq<char>, j: int) -> Result<int, MetadataError> {
    if j + 1 < s.len() && s[j] == '<' && s[j + 1] == '?' {
        let q = find_char(s, j + 2, '>');
        if q < s.len() && s[q - 1] == '?' {
            Ok(skip_ws(s, q + 1))
        } else {
            Err(MetadataError::SyntaxError)
        }
    } else {
        Ok(j)
    }
}

/// What decoding an entity descriptor yields: an optional XML declaration,
/// then the root element with its recognized attributes, `validUntil` put
/// through the timestamp parser, and the child collections; unknown
/// attributes, unknown elements with their balanced subtrees, and comments
/// between children are ignored; only whitespace may otherwise surround the
/// root element.
pub open spec fn entity_parse(s: Seq<char>) -> Result<EntityDescriptorV, MetadataError> {
    match skip_decl(s, skip_ws(s, 0)) {
        Err(e) => Err(e),
        Ok(j) => entity_parse_root(s, j),
    }
}

/// What decoding the root element from position `j` yields.
pub open spec fn entity_parse_root(s: Seq<char>, j: int) -> Result<
    EntityDescriptorV,
    MetadataError,
> {
    if !(j + 1 < s.len() && s[j] == '<') {
        Err(MetadataError::SyntaxError)
    } else {
        let ne = name_end(s, j + 1);
        if ne == j + 1 {
            Err(MetadataError::SyntaxError)
        } else if s.subrange(j + 1, ne) != root_name() {
            Err(MetadataError::ValidationError)
        } else {
            match parse_attrs(s, ne) {
                Err(e) => Err(e),
                Ok((atts, p)) => {
                    let vu_raw = attr_lookup(atts, valid_until_key());
                    if vu_raw matches Some(rawv) && timestamp_parse(rawv) is None {
                        Err(MetadataError::TimestampError)
                    } else {
                        let vu = match vu_raw {
                            None => None,
                            Some(rawv) => timestamp_parse(rawv),
                        };
                        if p + 1 < s.len() && s[p] == '/' && s[p + 1] == '>' {
                            if skip_ws(s, p + 2) == s.len() {
                                Ok(entity_of(atts, vu, ChildrenV {
                                    sp: Seq::empty(),
                                    org: None,
                                    contact: None,
                                }))
                            } else {
                                Err(MetadataError::SyntaxError)
                            }
                        } else if p < s.len() && s[p] == '>' {
                            match parse_children(s, p + 1) {
                                Err(e) => Err(e),
                                Ok((ch, end)) => if skip_ws(s, end) == s.len() {
                                    Ok(entity_of(atts, vu, ch))
                                } else {
                                    Err(MetadataError::SyntaxError)
                                },
                            }
                        } else {
                            Err(MetadataError::SyntaxError)
                        }
                    }
                },
            }
        }
    }
}

/// The entity descriptor built from parsed attributes, the parsed validity
/// bound, and the child collections.
pub open spec fn entity_of(
    atts: Seq<(Seq<char>, Seq<char>)>,
    vu: Option<Timestamp>,
    ch: ChildrenV,
) -> EntityDescriptorV {
    EntityDescriptorV {
        entity_id: attr_lookup(atts, entity_id_key()),
        id: attr_lookup(atts, id_key()),
        valid_until: vu,
        cache_duration: attr_lookup(atts, cache_duration_key()),
        sp_sso_descriptors: (if ch.sp.len() == 0 {
            None
        } else {
            Some(ch.sp)
        }),
        organization: ch.org,
        contact_person: ch.contact,
    }
}


/// Skips balanced element content, returning exactly what `skip_content`
/// says of the end-tag name at `nlo..nhi`.
fn skip_content_x(v: &Vec<char>, i: usize, nlo: usize, nhi: usize) -> (r: Result<
    usize,
    MetadataError,
>)
    requires
        i <= v.len(),
        nlo <= nhi <= v.len(),
    ensures
        (match r {
            Ok(after) => skip_content(v@, i as int, v@.subrange(nlo as int, nhi as int))
                == Ok::<int, MetadataError>(after as int) && i < after <= v.len(),
            Err(e) => skip_content(v@, i as int, v@.subrange(nlo as int, nhi as int))
                == Err::<int, MetadataError>(e),
        }),
    decreases v.len() - i,
{
    proof {
        lemma_skip_content_bounds(v@, i as int, v@.subrange(nlo as int, nhi as int));
    }
    let t = find_char_x(v, i, '<');
    if !(v.len() - t > 1) {
        return Err(MetadataError::SyntaxError);
    }
    if v[t + 1] == '/' {
        let ne = name_end_x(v, t + 2);
        if crate::parse::ranges_eq(v, t + 2, ne, nlo, nhi) && ne < v.len() && v[ne] == '>' {
            Ok(ne + 1)
        } else {
            Err(MetadataError::SyntaxError)
        }
    } else if v[t + 1] == '!' {
        if v.len() - t >= 4 && v[t + 2] == '-' && v[t + 3] == '-' {
            let q = crate::parse::comment_end_x(v, t + 4);
            if q < v.len() {
                proof {
                    crate::parse::lemma_comment_end(v@, t + 4);
                }
                skip_content_x(v, q + 3, nlo, nhi)
            } else {
                Err(MetadataError::SyntaxError)
            }
        } else {
            Err(MetadataError::SyntaxError)
        }
    } else {
        let ne = name_end_x(v, t + 1);
        if ne == t + 1 {
            return Err(MetadataError::SyntaxError);
        }
        match parse_attrs_x(v, ne) {
            Err(e) => Err(e),
            Ok((atts, p)) => {
                proof {
                    lemma_parse_attrs_bounds(v@, ne as int);
                }
                if v.len() - p > 1 && v[p] == '/' && v[p + 1] == '>' {
                    skip_content_x(v, p + 2, nlo, nhi)
                } else if p < v.len() && v[p] == '>' {
                    match skip_content_x(v, p + 1, t + 1, ne) {
                        Err(e) => Err(e),
                        Ok(after) => skip_content_x(v, after, nlo, nhi),
                    }
                } else {
                    Err(MetadataError::SyntaxError)
                }
            },
        }
    }
}

/// Closes a childless element, returning exactly what `parse_elem_close`
/// says of the name at `nlo..nhi`.
fn parse_elem_close_x(v: &Vec<char>, p: usize, nlo: usize, nhi: usize) -> (r: Result<
    usize,
    MetadataError,
>)
    requires
        p <= v.len(),
        nlo <= nhi <= v.len(),
    ensures
        (match r {
            Ok(after) => parse_elem_close(v@, p as int, v@.subrange(nlo as int, nhi as int))
                == Ok::<int, MetadataError>(after as int) && p < after <= v.len(),
            Err(e) => parse_elem_close(v@, p as int, v@.subrange(nlo as int, nhi as int))
                == Err::<int, MetadataError>(e),
        }),
{
    if v.len() - p > 1 && v[p] == '/' && v[p + 1] == '>' {
        return Ok(p + 2);
    }
    if p < v.len() && v[p] == '>' {
        skip_content_x(v, p + 1, nlo, nhi)
    } else {
        Err(MetadataError::SyntaxError)
    }
}

/// Parses an organization's name child, returning exactly what
/// `parse_org_name_child` says.
fn parse_org_name_child_x(v: &Vec<char>, w: usize) -> (r: Result<
    (Option<String>, usize),
    MetadataError,
>)
    requires
        w < v.len(),
    ensures
        (match r {
            Ok((val, after)) => parse_org_name_child(v@, w as int) == Ok::<_, MetadataError>(
                (
                    (match val {
                        Some(t) => Some(t@),
                        None => None,
                    }),
                    after as int,
                ),
            ) && w < after <= v.len(),
            Err(e) => parse_org_name_child(v@, w as int) == Err::<
                (Option<Seq<char>>, int),
                MetadataError,
            >(e),
        }),
{
    proof {
        lemma_parse_org_name_child_bounds(v@, w as int);
        reveal_strlit("md:OrganizationName");
        assert("md:OrganizationName"@ =~= organization_name_child());
    }
    let ne = name_end_x(v, w + 1);
    if ne == w + 1 {
        return Err(MetadataError::SyntaxError);
    }
    if !range_eq(v, w + 1, ne, "md:OrganizationName") {
        return Err(MetadataError::ValidationError);
    }
    match parse_attrs_x(v, ne) {
        Err(e) => Err(e),
        Ok((atts, p)) => {
            if v.len() - p > 1 && v[p] == '/' && v[p + 1] == '>' {
                return Ok((None, p + 2));
            }
            if p < v.len() && v[p] == '>' {
                let t = find_char_x(v, p + 1, '<');
                if !(v.len() - t > 1 && v[t + 1] == '/') {
                    return Err(MetadataError::SyntaxError);
                }
                let ne2 = name_end_x(v, t + 2);
                if !(range_eq(v, t + 2, ne2, "md:OrganizationName") && ne2 < v.len() && v[ne2]
                    == '>') {
                    return Err(MetadataError::SyntaxError);
                }
                match unescape_range(v, p + 1, t) {
                    None => Err(MetadataError::SyntaxError),
                    Some(txt) => {
                        if txt.as_str().unicode_len() == 0 {
                            Ok((None, ne2 + 1))
                        } else {
                            Ok((Some(txt), ne2 + 1))
                        }
                    },
                }
            } else {
                Err(MetadataError::SyntaxError)
            }
        },
    }
}

/// Parses an organization's content after its start tag, returning exactly
/// what `parse_org_content` says.
fn parse_org_content_x(v: &Vec<char>, i: usize) -> (r: Result<
    (Option<String>, usize),
    MetadataError,
>)
    requires
        i <= v.len(),
    ensures
        (match r {
            Ok((val, after)) => parse_org_content(v@, i as int) == Ok::<_, MetadataError>(
                (
                    (match val {
                        Some(t) => Some(t@),
                        None => None,
                    }),
                    after as int,
                ),
            ) && i < after <= v.len(),
            Err(e) => parse_org_content(v@, i as int) == Err::<
                (Option<Seq<char>>, int),
                MetadataError,
            >(e),
        }),
{
    proof {
        lemma_parse_org_content_bounds(v@, i as int);
        reveal_strlit("md:Organization");
        assert("md:Organization"@ =~= organization_name_elem());
    }
    let w = skip_ws_x(v, i);
    if !(v.len() - w > 1 && v[w] == '<') {
        return Err(MetadataError::SyntaxError);
    }
    if v[w + 1] == '/' {
        let ne = name_end_x(v, w + 2);
        if range_eq(v, w + 2, ne, "md:Organization") && ne < v.len() && v[ne] == '>' {
            return Err(MetadataError::ValidationError);
        }
        return Err(MetadataError::SyntaxError);
    }
    match parse_org_name_child_x(v, w) {
        Err(e) => Err(e),
        Ok((val, after)) => {
            let w2 = skip_ws_x(v, after);
            if !(v.len() - w2 > 1 && v[w2] == '<' && v[w2 + 1] == '/') {
                return Err(MetadataError::SyntaxError);
            }
            let ne3 = name_end_x(v, w2 + 2);
            if range_eq(v, w2 + 2, ne3, "md:Organization") && ne3 < v.len() && v[ne3] == '>' {
                Ok((val, ne3 + 1))
            } else {
                Err(MetadataError::SyntaxError)
            }
        },
    }
}

/// Scans the root's children, returning exactly what `parse_children` says.
#[verifier::rlimit(100)]
#[verifier::spinoff_prover]
fn parse_children_x(v: &Vec<char>, i: usize) -> (r: Result<
    (Vec<SpSsoDescriptor>, Option<Organization>, Option<ContactPerson>, usize),
    MetadataError,
>)
    requires
        i <= v.len(),
    ensures
        (match r {
            Ok((sp, org, con, end)) => parse_children(v@, i as int) == Ok::<_, MetadataError>(
                (
                    ChildrenV {
                        sp: sp_list_view(sp@),
                        org: (match org {
                            Some(o) => Some(o@),
                            None => None,
                        }),
                        contact: (match con {
                            Some(c) => Some(c@),
                            None => None,
                        }),
                    },
                    end as int,
                ),
            ) && i < end <= v.len(),
            Err(e) => parse_children(v@, i as int) == Err::<(ChildrenV, int), MetadataError>(e),
        }),
    decreases v.len() - i, 1int,
{
    proof {
        lemma_parse_children_bounds(v@, i as int);
        reveal_strlit("md:EntityDescriptor");
        assert("md:EntityDescriptor"@ =~= root_name());
    }
    let j = skip_ws_x(v, i);
    if !(v.len() - j > 1 && v[j] == '<') {
        return Err(MetadataError::SyntaxError);
    }
    if v[j + 1] == '/' {
        let ne = name_end_x(v, j + 2);
        if range_eq(v, j + 2, ne, "md:EntityDescriptor") && ne < v.len() && v[ne] == '>' {
            let sp: Vec<SpSsoDescriptor> = Vec::new();
            proof {
                assert(sp_list_view(sp@) =~= Seq::<Option<Seq<char>>>::empty());
            }
            return Ok((sp, None, None, ne + 1));
        }
        return Err(MetadataError::SyntaxError);
    }
    if v[j + 1] == '!' {
        if v.len() - j >= 4 && v[j + 2] == '-' && v[j + 3] == '-' {
            let q = crate::parse::comment_end_x(v, j + 4);
            if q < v.len() {
                proof {
                    crate::parse::lemma_comment_end(v@, j + 4);
                }
                return parse_children_x(v, q + 3);
            }
            return Err(MetadataError::SyntaxError);
        }
        return Err(MetadataError::SyntaxError);
    }
    parse_child_elem_x(v, i, j)
}

/// Scans one child element at `j` and the children after it, returning what
/// `parse_children` says from `i`; `j` is the scan's position after leading
/// whitespace, at the `<` of a start tag.
#[verifier::rlimit(100)]
#[verifier::spinoff_prover]
fn parse_child_elem_x(v: &Vec<char>, i: usize, j: usize) -> (r: Result<
    (Vec<SpSsoDescriptor>, Option<Organization>, Option<ContactPerson>, usize),
    MetadataError,
>)
    requires
        i <= v.len(),
        j as int == crate::parse::skip_ws(v@, i as int),
        j + 1 < v.len(),
        v@[j as int] == '<',
        v@[j + 1] != '/',
        v@[j + 1] != '!',
    ensures
        (match r {
            Ok((sp, org, con, end)) => parse_children(v@, i as int) == Ok::<_, MetadataError>(
                (
                    ChildrenV {
                        sp: sp_list_view(sp@),
                        org: (match org {
                            Some(o) => Some(o@),
                            None => None,
                        }),
                        contact: (match con {
                            Some(c) => Some(c@),
                            None => None,
                        }),
                    },
                    end as int,
                ),
            ) && i < end <= v.len(),
            Err(e) => parse_children(v@, i as int) == Err::<(ChildrenV, int), MetadataError>(e),
        }),
    decreases v.len() - i, 0int,
{
    proof {
        lemma_parse_children_bounds(v@, i as int);
        lemma_skip_ws(v@, i as int);
        reveal_strlit("md:SPSSODescriptor");
        reveal_strlit("md:ContactPerson");
        reveal_strlit("md:Organization");
        reveal_strlit("protocolSupportEnumeration");
        reveal_strlit("contactType");
        assert("md:SPSSODescriptor"@ =~= sp_sso_name());
        assert("md:ContactPerson"@ =~= contact_person_name());
        assert("md:Organization"@ =~= organization_name_elem());
        assert("protocolSupportEnumeration"@ =~= protocol_support_key());
        assert("contactType"@ =~= contact_type_key());
    }
    let ne = name_end_x(v, j + 1);
    if ne == j + 1 {
        return Err(MetadataError::SyntaxError);
    }
    proof {
        lemma_name_end(v@, j + 1);
        lemma_parse_attrs_bounds(v@, ne as int);
    }
    match parse_attrs_x(v, ne) {
        Err(e) => Err(e),
        Ok((atts, p)) => {
            if range_eq(v, j + 1, ne, "md:SPSSODescriptor") {
                match parse_elem_close_x(v, p, j + 1, ne) {
                    Err(e) => Err(e),
                    Ok(after) => match parse_children_x(v, after) {
                        Err(e) => Err(e),
                        Ok((rsp, rorg, rcon, end)) => {
                            let ghost rspv = rsp@;
                            let pse = attr_lookup_x(&atts, "protocolSupportEnumeration");
                            let mut sp: Vec<SpSsoDescriptor> = Vec::new();
                            sp.push(SpSsoDescriptor { protocol_support_enumeration: pse });
                            let mut rsp = rsp;
                            sp.append(&mut rsp);
                            proof {
                                assert(sp_list_view(sp@) =~= seq![
                                    attr_lookup(attrs_view(atts@), protocol_support_key()),
                                ] + sp_list_view(rspv));
                            }
                            Ok((sp, rorg, rcon, end))
                        },
                    },
                }
            } else if range_eq(v, j + 1, ne, "md:ContactPerson") {
                match parse_elem_close_x(v, p, j + 1, ne) {
                    Err(e) => Err(e),
                    Ok(after) => match parse_children_x(v, after) {
                        Err(e) => Err(e),
                        Ok((rsp, rorg, rcon, end)) => {
                            let con = match rcon {
                                Some(c) => Some(c),
                                None => Some(
                                    ContactPerson {
                                        contact_type: attr_lookup_x(&atts, "contactType"),
                                    },
                                ),
                            };
                            Ok((rsp, rorg, con, end))
                        },
                    },
                }
            } else if range_eq(v, j + 1, ne, "md:Organization") {
                if v.len() - p > 1 && v[p] == '/' && v[p + 1] == '>' {
                    match parse_children_x(v, p + 2) {
                        Err(e) => Err(e),
                        Ok((rsp, rorg, rcon, end)) => {
                            let org = match rorg {
                                Some(o) => Some(o),
                                None => Some(Organization { organization_name: None }),
                            };
                            Ok((rsp, org, rcon, end))
                        },
                    }
                } else if p < v.len() && v[p] == '>' {
                    match parse_org_content_x(v, p + 1) {
                        Err(e) => Err(e),
                        Ok((o, after)) => match parse_children_x(v, after) {
                            Err(e) => Err(e),
                            Ok((rsp, rorg, rcon, end)) => {
                                let org = match rorg {
                                    Some(o2) => Some(o2),
                                    None => Some(Organization { organization_name: o }),
                                };
                                Ok((rsp, org, rcon, end))
                            },
                        },
                    }
                } else {
                    Err(MetadataError::SyntaxError)
                }
            } else {
                match parse_elem_close_x(v, p, j + 1, ne) {
                    Err(e) => Err(e),
                    Ok(after) => parse_children_x(v, after),
                }
            }
        },
    }
}

impl EntityDescriptor {
    /// Decodes an entity descriptor from XML document text, returning
    /// exactly what `entity_parse` says of it: recognized attributes are
    /// taken, `validUntil` goes through the timestamp parser and fails
    /// alone with a timestamp error, child collections are gathered
    /// independently, and an XML declaration, comments, and unknown
    /// attributes and elements — their balanced subtrees included — are
    /// ignored.
    pub fn from_xml(s: &str) -> (r: Result<EntityDescriptor, MetadataError>)
        ensures
            (match r {
                Ok(d) => entity_parse(s@) == Ok::<_, MetadataError>(d@),
                Err(e) => entity_parse(s@) == Err::<EntityDescriptorV, MetadataError>(e),
            }),
    {
        let v = to_chars(s);
        proof {
            reveal_strlit("md:EntityDescriptor");
            reveal_strlit("entityID");
            reveal_strlit("ID");
            reveal_strlit("validUntil");
            reveal_strlit("cacheDuration");
            assert("md:EntityDescriptor"@ =~= root_name());
            assert("entityID"@ =~= entity_id_key());
            assert("ID"@ =~= id_key());
            assert("validUntil"@ =~= valid_until_key());
            assert("cacheDuration"@ =~= cache_duration_key());
        }
        let j0 = skip_ws_x(&v, 0);
        let j = if v.len() - j0 > 1 && v[j0] == '<' && v[j0 + 1] == '?' {
            let q = find_char_x(&v, j0 + 2, '>');
            if q >= v.len() {
                return Err(MetadataError::SyntaxError);
            }
            if v[q - 1] != '?' {
                return Err(MetadataError::SyntaxError);
            }
            skip_ws_x(&v, q + 1)
        } else {
            j0
        };
        if !(v.len() - j > 1 && v[j] == '<') {
            return Err(MetadataError::SyntaxError);
        }
        let ne = name_end_x(&v, j + 1);
        if ne == j + 1 {
            return Err(MetadataError::SyntaxError);
        }
        if !range_eq(&v, j + 1, ne, "md:EntityDescriptor") {
            return Err(MetadataError::ValidationError);
        }
        proof {
            lemma_parse_attrs_bounds(v@, ne as int);
        }
        match parse_attrs_x(&v, ne) {
            Err(e) => Err(e),
            Ok((atts, p)) => {
                let vu: Option<Timestamp> = match attr_lookup_x(&atts, "validUntil") {
                    None => None,
                    Some(rawv) => {
                        let tv = to_chars(rawv.as_str());
                        match crate::timestamp::parse_timestamp(&tv) {
                            None => {
                                return Err(MetadataError::TimestampError);
                            },
                            Some(t) => Some(t),
                        }
                    },
                };
                if v.len() - p > 1 && v[p] == '/' && v[p + 1] == '>' {
                    let e2 = skip_ws_x(&v, p + 2);
                    if e2 != v.len() {
                        return Err(MetadataError::SyntaxError);
                    }
                    let sp: Vec<SpSsoDescriptor> = Vec::new();
                    proof {
                        assert(sp_list_view(sp@) =~= Seq::<Option<Seq<char>>>::empty());
                    }
                    Ok(build_entity(atts, vu, sp, None, None))
                } else if p < v.len() && v[p] == '>' {
                    match parse_children_x(&v, p + 1) {
                        Err(e) => Err(e),
                        Ok((csp, corg, ccon, end)) => {
                            let e2 = skip_ws_x(&v, end);
                            if e2 != v.len() {
                                return Err(MetadataError::SyntaxError);
                            }
                            Ok(build_entity(atts, vu, csp, corg, ccon))
                        },
                    }
                } else {
                    Err(MetadataError::SyntaxError)
                }
            },
        }
    }
}

/// Builds the decoded entity descriptor from the parsed pieces; its view is
/// exactly `entity_of` applied to theirs.
fn build_entity(
    atts: Vec<(String, String)>,
    vu: Option<Timestamp>,
    sp: Vec<SpSsoDescriptor>,
    org: Option<Organization>,
    con: Option<ContactPerson>,
) -> (d: EntityDescriptor)
    ensures
        d@ == entity_of(attrs_view(atts@), vu, ChildrenV {
            sp: sp_list_view(sp@),
            org: (match org {
                Some(o) => Some(o@),
                None => None,
            }),
            contact: (match con {
                Some(c) => Some(c@),
                None => None,
            }),
        }),
{
    proof {
        reveal_strlit("entityID");
        reveal_strlit("ID");
        reveal_strlit("cacheDuration");
        assert("entityID"@ =~= entity_id_key());
        assert("ID"@ =~= id_key());
        assert("cacheDuration"@ =~= cache_duration_key());
    }
    let eid = attr_lookup_x(&atts, "entityID");
    let idv = attr_lookup_x(&atts, "ID");
    let cd = attr_lookup_x(&atts, "cacheDuration");
    let sp_field: Option<Vec<SpSsoDescriptor>> = if sp.len() == 0 {
        proof {
            assert(sp_list_view(sp@) =~= Seq::<Option<Seq<char>>>::empty());
        }
        None
    } else {
        Some(sp)
    };
    EntityDescriptor {
        entity_id: eid,
        id: idv,
        valid_until: vu,
        cache_duration: cd,
        sp_sso_descriptors: sp_field,
        organization: org,
        contact_person: con,
    }
}


/// The all-absent entity descriptor.
pub open spec fn empty_entity() -> EntityDescriptorV {
    EntityDescriptorV {
        entity_id: None,
        id: None,
        valid_until: None,
        cache_duration: None,
        sp_sso_descriptors: None,
        organization: None,
        contact_person: None,
    }
}


/// The root element's name is made of name characters.
proof fn lemma_root_name_chars()
    ensures
        forall|j: int| 0 <= j < root_name().len() ==> is_name_char(#[trigger] root_name()[j]),
{
    assert forall|j: int| 0 <= j < root_name().len() implies is_name_char(
        #[trigger] root_name()[j],
    ) by {
        let c = root_name()[j];
    }
}

/// The attribute names the root carries are well formed, and the namespace
/// keys differ from every recognized entity-level key.
proof fn lemma_entity_attrs_names(d: EntityDescriptorV)
    ensures
        crate::parse::attr_names_ok(entity_attrs(d)),
        attr_lookup(ns_attrs(), entity_id_key()) is None,
        attr_lookup(ns_attrs(), id_key()) is None,
        attr_lookup(ns_attrs(), valid_until_key()) is None,
        attr_lookup(ns_attrs(), cache_duration_key()) is None,
{
    reveal_strlit("xmlns:md");
    reveal_strlit("xmlns:saml");
    reveal_strlit("xmlns:mdrpi");
    reveal_strlit("xmlns:mdattr");
    reveal_strlit("xmlns:mdui");
    reveal_strlit("xmlns:idpdisc");
    reveal_strlit("xmlns:ds");
    assert("xmlns:md"@.len() == 8 && "xmlns:md"@[0] == 'x');
    assert("xmlns:saml"@.len() == 10 && "xmlns:saml"@[0] == 'x');
    assert("xmlns:mdrpi"@.len() == 11 && "xmlns:mdrpi"@[0] == 'x');
    assert("xmlns:mdattr"@.len() == 12 && "xmlns:mdattr"@[0] == 'x');
    assert("xmlns:mdui"@.len() == 10 && "xmlns:mdui"@[0] == 'x');
    assert("xmlns:idpdisc"@.len() == 13 && "xmlns:idpdisc"@[0] == 'x');
    assert("xmlns:ds"@.len() == 8 && "xmlns:ds"@[0] == 'x');
    assert forall|m: int| 0 <= m < ns_attrs().len() implies ((#[trigger] ns_attrs()[m]).0.len()
        > 0 && (forall|j: int|
        0 <= j < ns_attrs()[m].0.len() ==> is_name_char(#[trigger] ns_attrs()[m].0[j]))) by {
        assert forall|j: int|
            0 <= j < ns_attrs()[m].0.len() implies is_name_char(
            #[trigger] ns_attrs()[m].0[j],
        ) by {
            let c = ns_attrs()[m].0[j];
        }
    }
    let a = entity_attrs(d);
    assert forall|k: int| 0 <= k < a.len() implies ((#[trigger] a[k]).0.len() > 0 && (forall|
        j: int,
    |
        0 <= j < a[k].0.len() ==> is_name_char(a[k].0[j]))) by {
        let x1 = (match d.entity_id {
            Some(e) => seq![(entity_id_key(), e)],
            None => Seq::<(Seq<char>, Seq<char>)>::empty(),
        });
        let x2 = (match d.valid_until {
            Some(t) => seq![(valid_until_key(), timestamp_text(t))],
            None => Seq::<(Seq<char>, Seq<char>)>::empty(),
        });
        assert(a == x1 + x2 + ns_attrs());
        if k < x1.len() + x2.len() {
            assert(a[k].0 == entity_id_key() || a[k].0 == valid_until_key());
            assert(forall|j: int|
                0 <= j < entity_id_key().len() ==> is_name_char(#[trigger] entity_id_key()[j]));
            assert(forall|j: int|
                0 <= j < valid_until_key().len() ==> is_name_char(
                    #[trigger] valid_until_key()[j],
                ));
        } else {
            assert(a[k] == ns_attrs()[k - x1.len() - x2.len()]);
        }
    }
    assert forall|m: int| 0 <= m < ns_attrs().len() implies (#[trigger] ns_attrs()[m]).0
        != entity_id_key() by {
        let nk = ns_attrs()[m].0;
        assert(nk[0] == 'x');
    }
    assert forall|m: int| 0 <= m < ns_attrs().len() implies (#[trigger] ns_attrs()[m]).0
        != id_key() by {
        let nk = ns_attrs()[m].0;
        assert(nk.len() >= 8);
    }
    assert forall|m: int| 0 <= m < ns_attrs().len() implies (#[trigger] ns_attrs()[m]).0
        != valid_until_key() by {
        let nk = ns_attrs()[m].0;
        assert(nk[0] == 'x');
    }
    assert forall|m: int| 0 <= m < ns_attrs().len() implies (#[trigger] ns_attrs()[m]).0
        != cache_duration_key() by {
        let nk = ns_attrs()[m].0;
        assert(nk[0] == 'x');
    }
    crate::parse::lemma_attr_lookup_absent(ns_attrs(), entity_id_key());
    crate::parse::lemma_attr_lookup_absent(ns_attrs(), id_key());
    crate::parse::lemma_attr_lookup_absent(ns_attrs(), valid_until_key());
    crate::parse::lemma_attr_lookup_absent(ns_attrs(), cache_duration_key());
}

/// What looking the recognized keys up in the root's rendered attribute
/// list yields: exactly the fields that were rendered.
proof fn lemma_entity_attr_lookups(d: EntityDescriptorV)
    ensures
        attr_lookup(entity_attrs(d), entity_id_key()) == d.entity_id,
        attr_lookup(entity_attrs(d), id_key()) is None,
        attr_lookup(entity_attrs(d), valid_until_key()) == (match d.valid_until {
            Some(t) => Some(timestamp_text(t)),
            None => None::<Seq<char>>,
        }),
        attr_lookup(entity_attrs(d), cache_duration_key()) is None,
{
    lemma_entity_attrs_names(d);
    let x1 = (match d.entity_id {
        Some(e) => seq![(entity_id_key(), e)],
        None => Seq::<(Seq<char>, Seq<char>)>::empty(),
    });
    let x2 = (match d.valid_until {
        Some(t) => seq![(valid_until_key(), timestamp_text(t))],
        None => Seq::<(Seq<char>, Seq<char>)>::empty(),
    });
    let a = entity_attrs(d);
    assert(a == x1 + x2 + ns_attrs());
    crate::parse::lemma_attr_lookup_concat(x1, x2, entity_id_key());
    crate::parse::lemma_attr_lookup_concat(x1 + x2, ns_attrs(), entity_id_key());
    crate::parse::lemma_attr_lookup_concat(x1, x2, id_key());
    crate::parse::lemma_attr_lookup_concat(x1 + x2, ns_attrs(), id_key());
    crate::parse::lemma_attr_lookup_concat(x1, x2, valid_until_key());
    crate::parse::lemma_attr_lookup_concat(x1 + x2, ns_attrs(), valid_until_key());
    crate::parse::lemma_attr_lookup_concat(x1, x2, cache_duration_key());
    crate::parse::lemma_attr_lookup_concat(x1 + x2, ns_attrs(), cache_duration_key());
    assert(entity_id_key() != valid_until_key());
    assert(id_key() != entity_id_key() && id_key() != valid_until_key());
    assert(cache_duration_key() != entity_id_key() && cache_duration_key()
        != valid_until_key());
    if x1.len() > 0 {
        assert(x1.skip(1) =~= Seq::<(Seq<char>, Seq<char>)>::empty());
    }
    if x2.len() > 0 {
        assert(x2.skip(1) =~= Seq::<(Seq<char>, Seq<char>)>::empty());
    }
}

/// Scanning the root's children at its end tag finds no children and stops
/// just after the tag.
proof fn lemma_parse_children_end(s: Seq<char>, i: int)
    requires
        0 <= i,
        i + 22 <= s.len(),
        s.subrange(i, i + 22) == end_tag(root_name()),
    ensures
        parse_children(s, i) == Ok::<_, MetadataError>(
            (ChildrenV { sp: Seq::empty(), org: None, contact: None }, i + 22),
        ),
{
    let c0 = seq!['<', '/'] + root_name() + seq!['>'];
    assert(end_tag(root_name()) == c0);
    assert forall|j: int| 0 <= j < 22 implies s[i + j] == #[trigger] c0[j] by {
        assert(s.subrange(i, i + 22)[j] == c0[j]);
    }
    assert(s[i] == '<') by {
        assert(c0[0] == '<');
    }
    assert(s[i + 1] == '/') by {
        assert(c0[1] == '/');
    }
    assert(skip_ws(s, i) == i);
    lemma_root_name_chars();
    assert forall|k2: int| i + 2 <= k2 < i + 21 implies is_name_char(s[k2]) by {
        let j = k2 - i;
        assert(s[i + j] == c0[j]);
        assert(c0[j] == root_name()[j - 2]);
    }
    assert(s[i + 21] == '>') by {
        assert(c0[21] == '>');
    }
    crate::parse::lemma_name_end_run(s, i + 2, 19);
    assert forall|m: int| 0 <= m < 19 implies s.subrange(i + 2, i + 21)[m] == root_name()[m] by {
        assert(c0[2 + m] == root_name()[m]);
        assert(s[i + (2 + m)] == c0[2 + m]);
    }
    assert(s.subrange(i + 2, i + 21) =~= root_name());
}


/// How the scan reads an encoded document's root start tag: no leading
/// whitespace or declaration, the root name, the rendered attribute list,
/// and the child sections exactly after the `>`.
#[verifier::rlimit(100)]
#[verifier::spinoff_prover]
proof fn lemma_entity_header(d: EntityDescriptorV)
    ensures
        ({
            let a = entity_attrs(d);
            let t = crate::xml::attrs_text(a);
            let s = entity_xml(d);
            let rest = sp_section(d) + org_section(d) + contact_section(d) + end_tag(root_name());
            let p = 20 + t.len() as int;
            &&& skip_ws(s, 0) == 0
            &&& s.len() == p + 1 + rest.len()
            &&& s[0] == '<'
            &&& s[1] == 'm'
            &&& name_end(s, 1) == 20
            &&& s.subrange(1, 20) == root_name()
            &&& parse_attrs(s, 20) == Ok::<_, MetadataError>((a, p))
            &&& s[p] == '>'
            &&& s.subrange(p + 1, p + 1 + rest.len() as int) == rest
        }),
{
    let a = entity_attrs(d);
    let t = crate::xml::attrs_text(a);
    let s = entity_xml(d);
    let rest = sp_section(d) + org_section(d) + contact_section(d) + end_tag(root_name());
    let c0 = seq!['<'] + root_name() + t + seq!['>'] + rest;
    let p = 20 + t.len() as int;
    assert(a.len() >= 7) by {
        assert(ns_attrs().len() == 7);
    }
    assert(s =~= c0);
    assert(s.len() == p + 1 + rest.len());
    assert(t == seq![' '] + a[0].0 + seq!['=', '"'] + crate::xml::attr_escape(a[0].1)
        + seq!['"'] + crate::xml::attrs_text(a.skip(1)));
    assert(t[0] == ' ');
    assert(s[0] == '<') by {
        assert(c0[0] == '<');
    }
    assert(s[1] == 'm') by {
        assert(c0[1] == root_name()[0]);
    }
    assert(skip_ws(s, 0) == 0);
    lemma_root_name_chars();
    lemma_entity_attrs_names(d);
    assert forall|k2: int| 1 <= k2 < 20 implies is_name_char(s[k2]) by {
        assert(c0[k2] == root_name()[k2 - 1]);
    }
    assert(s[20] == ' ') by {
        assert(c0[20] == t[0]);
    }
    crate::parse::lemma_name_end_run(s, 1, 19);
    assert forall|m: int| 0 <= m < 19 implies s.subrange(1, 20)[m] == root_name()[m] by {
        assert(c0[1 + m] == root_name()[m]);
    }
    assert(s.subrange(1, 20) =~= root_name());
    assert forall|m: int| 0 <= m < t.len() implies s.subrange(20, p)[m] == t[m] by {
        assert(c0[20 + m] == t[m]);
    }
    assert(s.subrange(20, p) =~= t);
    assert(s[p] == '>') by {
        assert(c0[20 + t.len() as int] == '>');
    }
    crate::parse::lemma_parse_attrs_inverse(s, 20, a);
    assert forall|m: int| 0 <= m < rest.len() implies s.subrange(p + 1, p + 1 + rest.len())[m]
        == rest[m] by {
        assert(c0[(20 + t.len() as int) + 1 + m] == rest[m]);
    }
    assert(s.subrange(p + 1, p + 1 + rest.len()) =~= rest);
}

/// Decoding inverts encoding: a well-formed entity descriptor's document
/// decodes back to the same value. The fields the encoder does not emit
/// (`ID`, `cacheDuration`) must be absent; an empty SP-SSO collection and an
/// absent one encode alike, so the collection, where present, is nonempty;
/// an empty organization name and an absent one encode alike, so a present
/// name is nonempty.
#[verifier::rlimit(100)]
#[verifier::spinoff_prover]
pub proof fn lemma_entity_round_trip(d: EntityDescriptorV)
    requires
        d.id is None,
        d.cache_duration is None,
        d.valid_until matches Some(t) ==> t.well_formed(),
        d.sp_sso_descriptors matches Some(l) ==> l.len() > 0,
        d.organization matches Some(o) ==> (o matches Some(nm) ==> nm.len() > 0),
    ensures
        entity_parse(entity_xml(d)) == Ok::<_, MetadataError>(d),
{
    let a = entity_attrs(d);
    let t = crate::xml::attrs_text(a);
    let s = entity_xml(d);
    let rest = sp_section(d) + org_section(d) + contact_section(d) + end_tag(root_name());
    let p = 20 + t.len() as int;
    lemma_entity_header(d);
    assert(skip_decl(s, 0) == Ok::<int, MetadataError>(0));
    lemma_entity_attr_lookups(d);
    match d.valid_until {
        Some(tt) => {
            crate::timestamp::lemma_timestamp_round_trip(tt);
        },
        None => {},
    }
    let sps: Seq<Option<Seq<char>>> = match d.sp_sso_descriptors {
        Some(l) => l,
        None => Seq::empty(),
    };
    assert(sp_section(d) == sp_list_xml(sps)) by {
        if d.sp_sso_descriptors is None {
            assert(sp_list_xml(Seq::<Option<Seq<char>>>::empty()) == Seq::<char>::empty());
        }
    }
    assert(org_sec_of(d.organization) == org_section(d));
    assert(con_sec_of(d.contact_person) == contact_section(d));
    lemma_parse_children_sections(s, p + 1, sps, d.organization, d.contact_person);
    assert(skip_ws(s, p + 1 + rest.len()) == s.len());
    assert(entity_parse_root(s, 0) == Ok::<_, MetadataError>(d));
}

/// The all-absent entity descriptor round-trips: it encodes to a root
/// element holding nothing but the namespace declarations, and that
/// document decodes back to the all-absent value.
pub proof fn lemma_empty_entity_round_trip(d: EntityDescriptorV)
    requires
        d == empty_entity(),
    ensures
        entity_parse(entity_xml(d)) == Ok::<_, MetadataError>(d),
{
    lemma_entity_round_trip(d);
}


/// How the scan reads a rendered self-closing element: the name, then its
/// attribute list, then the `/>`.
proof fn lemma_parse_simple_elem(
    s: Seq<char>,
    i: int,
    name: Seq<char>,
    attrs: Seq<(Seq<char>, Seq<char>)>,
)
    requires
        0 <= i,
        i + empty_tag(name, attrs).len() <= s.len(),
        s.subrange(i, i + empty_tag(name, attrs).len()) == empty_tag(name, attrs),
        name.len() > 0,
        forall|j: int| 0 <= j < name.len() ==> is_name_char(#[trigger] name[j]),
        crate::parse::attr_names_ok(attrs),
    ensures
        ({
            let frag = empty_tag(name, attrs);
            let ne = i + 1 + name.len() as int;
            let p = i + frag.len() - 2;
            &&& skip_ws(s, i) == i
            &&& s[i] == '<'
            &&& s[i + 1] != '/'
            &&& name_end(s, i + 1) == ne
            &&& s.subrange(i + 1, ne) == name
            &&& parse_attrs(s, ne) == Ok::<_, MetadataError>((attrs, p))
            &&& s[p] == '/' && s[p + 1] == '>'
            &&& parse_elem_close(s, p, name) == Ok::<int, MetadataError>(i + frag.len())
        }),
{
    let t = crate::xml::attrs_text(attrs);
    let frag = empty_tag(name, attrs);
    let c0 = seq!['<'] + name + t + seq!['/', '>'];
    let ne = i + 1 + name.len() as int;
    let p = i + frag.len() - 2;
    assert(frag == c0);
    assert forall|j: int| 0 <= j < frag.len() implies s[i + j] == #[trigger] c0[j] by {
        assert(s.subrange(i, i + frag.len() as int)[j] == frag[j]);
    }
    assert(s[i] == '<') by {
        assert(c0[0] == '<');
    }
    assert(s[i + 1] == name[0]) by {
        assert(c0[1] == name[0]);
    }
    assert(is_name_char(name[0]) && !crate::parse::is_ws('<'));
    assert(skip_ws(s, i) == i);
    if attrs.len() > 0 {
        assert(t == seq![' '] + attrs[0].0 + seq!['=', '"'] + crate::xml::attr_escape(
            attrs[0].1,
        ) + seq!['"'] + crate::xml::attrs_text(attrs.skip(1)));
        assert(t[0] == ' ');
    }
    assert(s[ne] == (if t.len() > 0 {
        ' '
    } else {
        '/'
    })) by {
        assert(c0[1 + name.len() as int] == (if t.len() > 0 {
            t[0]
        } else {
            '/'
        }));
    }
    assert forall|k2: int| i + 1 <= k2 < ne implies is_name_char(s[k2]) by {
        let j = k2 - i;
        assert(c0[j] == name[j - 1]);
    }
    crate::parse::lemma_name_end_run(s, i + 1, name.len() as int);
    assert forall|m: int| 0 <= m < name.len() implies s.subrange(i + 1, ne)[m] == name[m] by {
        assert(c0[1 + m] == name[m]);
        assert(s[i + (1 + m)] == c0[1 + m]);
    }
    assert(s.subrange(i + 1, ne) =~= name);
    assert forall|m: int| 0 <= m < t.len() implies s.subrange(ne, p)[m] == t[m] by {
        assert(c0[1 + name.len() + m] == t[m]);
        assert(s[i + (1 + name.len() + m)] == c0[1 + name.len() + m]);
    }
    assert(s.subrange(ne, p) =~= t);
    assert(s[p] == '/') by {
        assert(c0[1 + name.len() + t.len() as int] == '/');
    }
    assert(s[p + 1] == '>') by {
        assert(c0[2 + name.len() + t.len() as int] == '>');
    }
    crate::parse::lemma_parse_attrs_inverse(s, ne, attrs);
}


/// The descriptor element and attribute names are made of name characters.
proof fn lemma_descriptor_name_chars()
    ensures
        forall|j: int|
            0 <= j < sp_sso_name().len() ==> is_name_char(#[trigger] sp_sso_name()[j]),
        forall|j: int|
            0 <= j < contact_person_name().len() ==> is_name_char(
                #[trigger] contact_person_name()[j],
            ),
        forall|j: int|
            0 <= j < organization_name_elem().len() ==> is_name_char(
                #[trigger] organization_name_elem()[j],
            ),
        forall|j: int|
            0 <= j < organization_name_child().len() ==> is_name_char(
                #[trigger] organization_name_child()[j],
            ),
        forall|j: int|
            0 <= j < protocol_support_key().len() ==> is_name_char(
                #[trigger] protocol_support_key()[j],
            ),
        forall|j: int|
            0 <= j < contact_type_key().len() ==> is_name_char(#[trigger] contact_type_key()[j]),
{
}

/// How the scan reads a rendered organization fragment that carries a name:
/// its start tag with no attributes, then exactly one name child, then its
/// end tag.
#[verifier::rlimit(100)]
#[verifier::spinoff_prover]
proof fn lemma_parse_org_elem(s: Seq<char>, i: int, n: Seq<char>)
    requires
        0 <= i,
        n.len() > 0,
        i + organization_xml(Some(n)).len() <= s.len(),
        s.subrange(i, i + organization_xml(Some(n)).len() as int) == organization_xml(Some(n)),
    ensures
        ({
            let frag = organization_xml(Some(n));
            &&& skip_ws(s, i) == i
            &&& s[i] == '<'
            &&& s[i + 1] != '/'
            &&& name_end(s, i + 1) == i + 16
            &&& s.subrange(i + 1, i + 16) == organization_name_elem()
            &&& parse_attrs(s, i + 16) == Ok::<_, MetadataError>(
                (Seq::<(Seq<char>, Seq<char>)>::empty(), i + 16),
            )
            &&& s[i + 16] == '>'
            &&& parse_org_content(s, i + 17) == Ok::<_, MetadataError>(
                (Some(n), i + frag.len()),
            )
        }),
{
    let e = crate::xml::text_escape(n);
    let el = e.len() as int;
    let frag = organization_xml(Some(n));
    let c0 = seq!['<'] + organization_name_elem() + seq!['>'] + seq!['<']
        + organization_name_child() + seq!['>'] + e + seq!['<', '/'] + organization_name_child()
        + seq!['>'] + seq!['<', '/'] + organization_name_elem() + seq!['>'];
    assert(frag =~= c0);
    assert(frag.len() == 78 + el);
    assert forall|j: int| 0 <= j < frag.len() implies s[i + j] == #[trigger] c0[j] by {
        assert(s.subrange(i, i + frag.len() as int)[j] == frag[j]);
    }
    lemma_descriptor_name_chars();
    crate::parse::lemma_text_escape_clean(n);
    crate::parse::lemma_text_escape_unescape(n);
    assert(s[i] == '<') by {
        assert(c0[0] == '<');
    }
    assert(s[i + 1] == 'm') by {
        assert(c0[1] == 'm');
    }
    assert(skip_ws(s, i) == i);
    assert forall|k2: int| i + 1 <= k2 < i + 16 implies is_name_char(s[k2]) by {
        assert(c0[k2 - i] == organization_name_elem()[k2 - i - 1]);
    }
    assert(s[i + 16] == '>') by {
        assert(c0[16] == '>');
    }
    crate::parse::lemma_name_end_run(s, i + 1, 15);
    assert forall|m: int| 0 <= m < 15 implies s.subrange(i + 1, i + 16)[m]
        == organization_name_elem()[m] by {
        assert(c0[1 + m] == organization_name_elem()[m]);
        assert(s[i + (1 + m)] == c0[1 + m]);
    }
    assert(s.subrange(i + 1, i + 16) =~= organization_name_elem());
    assert(skip_ws(s, i + 16) == i + 16);
    assert(crate::xml::attrs_text(Seq::<(Seq<char>, Seq<char>)>::empty()) == Seq::<char>::empty());
    assert(s.subrange(i + 16, i + 16) =~= Seq::<char>::empty());
    crate::parse::lemma_parse_attrs_inverse(s, i + 16, Seq::empty());
    assert(s[i + 17] == '<') by {
        assert(c0[17] == '<');
    }
    assert(s[i + 18] == 'm') by {
        assert(c0[18] == 'm');
    }
    assert(skip_ws(s, i + 17) == i + 17);
    assert forall|k2: int| i + 18 <= k2 < i + 37 implies is_name_char(s[k2]) by {
        assert(c0[k2 - i] == organization_name_child()[k2 - i - 18]);
    }
    assert(s[i + 37] == '>') by {
        assert(c0[37] == '>');
    }
    crate::parse::lemma_name_end_run(s, i + 18, 19);
    assert forall|m: int| 0 <= m < 19 implies s.subrange(i + 18, i + 37)[m]
        == organization_name_child()[m] by {
        assert(c0[18 + m] == organization_name_child()[m]);
        assert(s[i + (18 + m)] == c0[18 + m]);
    }
    assert(s.subrange(i + 18, i + 37) =~= organization_name_child());
    assert(skip_ws(s, i + 37) == i + 37);
    assert(s.subrange(i + 37, i + 37) =~= Seq::<char>::empty());
    crate::parse::lemma_parse_attrs_inverse(s, i + 37, Seq::empty());
    assert forall|m: int| 0 <= m < el implies s[i + 38 + m] == e[m] && s[i + 38 + m] != '<' by {
        assert(c0[38 + m] == e[m]);
        assert(s[i + (38 + m)] == c0[38 + m]);
    }
    assert(s[i + 38 + el] == '<') by {
        assert(c0[38 + el] == '<');
    }
    assert forall|k2: int| i + 38 <= k2 < i + 38 + el implies s[k2] != '<' by {
        let m = k2 - (i + 38);
        assert(c0[38 + m] == e[m]);
        assert(e[m] != '<');
    }
    crate::parse::lemma_find_char_run(s, i + 38, el, '<');
    assert(s[i + 39 + el] == '/') by {
        assert(c0[39 + el] == '/');
    }
    assert forall|k2: int| i + 40 + el <= k2 < i + 59 + el implies is_name_char(s[k2]) by {
        assert(c0[k2 - i] == organization_name_child()[k2 - i - 40 - el]);
    }
    assert(s[i + 59 + el] == '>') by {
        assert(c0[59 + el] == '>');
    }
    crate::parse::lemma_name_end_run(s, i + 40 + el, 19);
    assert forall|m: int| 0 <= m < 19 implies s.subrange(i + 40 + el, i + 59 + el)[m]
        == organization_name_child()[m] by {
        assert(c0[40 + el + m] == organization_name_child()[m]);
        assert(s[i + (40 + el + m)] == c0[40 + el + m]);
    }
    assert(s.subrange(i + 40 + el, i + 59 + el) =~= organization_name_child());
    assert forall|m: int| 0 <= m < el implies s.subrange(i + 38, i + 38 + el)[m] == e[m] by {
        assert(s[i + 38 + m] == e[m]);
    }
    assert(s.subrange(i + 38, i + 38 + el) =~= e);
    assert(s[i + 60 + el] == '<') by {
        assert(c0[60 + el] == '<');
    }
    assert(skip_ws(s, i + 60 + el) == i + 60 + el);
    assert(s[i + 61 + el] == '/') by {
        assert(c0[61 + el] == '/');
    }
    assert forall|k2: int| i + 62 + el <= k2 < i + 77 + el implies is_name_char(s[k2]) by {
        assert(c0[k2 - i] == organization_name_elem()[k2 - i - 62 - el]);
    }
    assert(s[i + 77 + el] == '>') by {
        assert(c0[77 + el] == '>');
    }
    crate::parse::lemma_name_end_run(s, i + 62 + el, 15);
    assert forall|m: int| 0 <= m < 15 implies s.subrange(i + 62 + el, i + 77 + el)[m]
        == organization_name_elem()[m] by {
        assert(c0[62 + el + m] == organization_name_elem()[m]);
        assert(s[i + (62 + el + m)] == c0[62 + el + m]);
    }
    assert(s.subrange(i + 62 + el, i + 77 + el) =~= organization_name_elem());
    assert(parse_org_name_child(s, i + 17) == Ok::<_, MetadataError>((Some(n), i + 60 + el)));
    assert(parse_org_content(s, i + 17) == Ok::<_, MetadataError>((Some(n), i + 78 + el)));
}


/// The organization section rendered from a decoded organization slot.
pub open spec fn org_sec_of(org: Option<Option<Seq<char>>>) -> Seq<char> {
    match org {
        Some(o) => organization_xml(o),
        None => Seq::empty(),
    }
}

/// The contact section rendered from a decoded contact slot.
pub open spec fn con_sec_of(con: Option<Option<Seq<char>>>) -> Seq<char> {
    match con {
        Some(c) => contact_person_xml(c),
        None => Seq::empty(),
    }
}

/// One scan step over a rendered SP-SSO fragment: given how the scan reads
/// the rest, it prepends this descriptor.
#[verifier::rlimit(100)]
#[verifier::spinoff_prover]
proof fn lemma_children_step_sp(
    s: Seq<char>,
    i: int,
    sps: Seq<Option<Seq<char>>>,
    org: Option<Option<Seq<char>>>,
    con: Option<Option<Seq<char>>>,
    end: int,
)
    requires
        0 <= i,
        sps.len() > 0,
        i + sp_sso_xml(sps[0]).len() <= s.len(),
        s.subrange(i, i + sp_sso_xml(sps[0]).len() as int) == sp_sso_xml(sps[0]),
        parse_children(s, i + sp_sso_xml(sps[0]).len() as int) == Ok::<_, MetadataError>(
            (ChildrenV { sp: sps.skip(1), org, contact: con }, end),
        ),
    ensures
        parse_children(s, i) == Ok::<_, MetadataError>(
            (ChildrenV { sp: sps, org, contact: con }, end),
        ),
{
    lemma_descriptor_name_chars();
    let a0: Seq<(Seq<char>, Seq<char>)> = match sps[0] {
        Some(p) => seq![(protocol_support_key(), p)],
        None => Seq::empty(),
    };
    assert(sp_sso_xml(sps[0]) == empty_tag(sp_sso_name(), a0));
    assert(crate::parse::attr_names_ok(a0));
    lemma_parse_simple_elem(s, i, sp_sso_name(), a0);
    assert(attr_lookup(a0, protocol_support_key()) == sps[0]);
    assert(seq![sps[0]] + sps.skip(1) =~= sps);
    assert(sp_sso_name().len() == 18);
}

/// One scan step over a rendered contact-person fragment.
#[verifier::rlimit(100)]
#[verifier::spinoff_prover]
proof fn lemma_children_step_con(
    s: Seq<char>,
    i: int,
    sps: Seq<Option<Seq<char>>>,
    c: Option<Seq<char>>,
    end: int,
)
    requires
        0 <= i,
        i + contact_person_xml(c).len() <= s.len(),
        s.subrange(i, i + contact_person_xml(c).len() as int) == contact_person_xml(c),
        parse_children(s, i + contact_person_xml(c).len() as int) == Ok::<_, MetadataError>(
            (ChildrenV { sp: sps, org: None, contact: None }, end),
        ),
    ensures
        parse_children(s, i) == Ok::<_, MetadataError>(
            (ChildrenV { sp: sps, org: None, contact: Some(c) }, end),
        ),
{
    lemma_descriptor_name_chars();
    let a0: Seq<(Seq<char>, Seq<char>)> = match c {
        Some(t) => seq![(contact_type_key(), t)],
        None => Seq::empty(),
    };
    assert(contact_person_xml(c) == empty_tag(contact_person_name(), a0));
    assert(crate::parse::attr_names_ok(a0));
    lemma_parse_simple_elem(s, i, contact_person_name(), a0);
    assert(attr_lookup(a0, contact_type_key()) == c);
    assert(contact_person_name().len() == 16 && sp_sso_name().len() == 18);
}

/// One scan step over a rendered organization fragment.
#[verifier::rlimit(100)]
#[verifier::spinoff_prover]
proof fn lemma_children_step_org(
    s: Seq<char>,
    i: int,
    sps: Seq<Option<Seq<char>>>,
    o: Option<Seq<char>>,
    con: Option<Option<Seq<char>>>,
    end: int,
)
    requires
        0 <= i,
        o matches Some(nm) ==> nm.len() > 0,
        i + organization_xml(o).len() <= s.len(),
        s.subrange(i, i + organization_xml(o).len() as int) == organization_xml(o),
        parse_children(s, i + organization_xml(o).len() as int) == Ok::<_, MetadataError>(
            (ChildrenV { sp: sps, org: None, contact: con }, end),
        ),
    ensures
        parse_children(s, i) == Ok::<_, MetadataError>(
            (ChildrenV { sp: sps, org: Some(o), contact: con }, end),
        ),
{
    lemma_descriptor_name_chars();
    assert(organization_name_elem().len() == 15 && sp_sso_name().len() == 18
        && contact_person_name().len() == 16);
    match o {
        None => {
            assert(organization_xml(o) == empty_tag(organization_name_elem(), Seq::empty()));
            assert(crate::parse::attr_names_ok(Seq::<(Seq<char>, Seq<char>)>::empty()));
            lemma_parse_simple_elem(s, i, organization_name_elem(), Seq::empty());
        },
        Some(nm) => {
            lemma_parse_org_elem(s, i, nm);
        },
    }
}

/// Scanning the rendered child sections finds exactly the children that
/// were rendered, in order, and stops just after the root's end tag.
#[verifier::rlimit(100)]
#[verifier::spinoff_prover]
proof fn lemma_parse_children_sections(
    s: Seq<char>,
    i: int,
    sps: Seq<Option<Seq<char>>>,
    org: Option<Option<Seq<char>>>,
    con: Option<Option<Seq<char>>>,
)
    requires
        0 <= i,
        i + (sp_list_xml(sps) + org_sec_of(org) + con_sec_of(con) + end_tag(root_name())).len()
            <= s.len(),
        s.subrange(
            i,
            i + (sp_list_xml(sps) + org_sec_of(org) + con_sec_of(con) + end_tag(
                root_name(),
            )).len(),
        ) == sp_list_xml(sps) + org_sec_of(org) + con_sec_of(con) + end_tag(root_name()),
        org matches Some(o) ==> (o matches Some(nm) ==> nm.len() > 0),
    ensures
        parse_children(s, i) == Ok::<_, MetadataError>(
            (
                ChildrenV { sp: sps, org, contact: con },
                i + (sp_list_xml(sps) + org_sec_of(org) + con_sec_of(con) + end_tag(
                    root_name(),
                )).len(),
            ),
        ),
    decreases sps.len(), (if org is Some {
        1int
    } else {
        0int
    }), (if con is Some {
        1int
    } else {
        0int
    }),
{
    let total = sp_list_xml(sps) + org_sec_of(org) + con_sec_of(con) + end_tag(root_name());
    if sps.len() > 0 {
        let f = sp_sso_xml(sps[0]);
        assert(sp_list_xml(sps) == f + sp_list_xml(sps.skip(1)));
        let total2 = sp_list_xml(sps.skip(1)) + org_sec_of(org) + con_sec_of(con) + end_tag(
            root_name(),
        );
        let after = i + f.len() as int;
        assert(s.subrange(i, after) =~= f) by {
            assert forall|m: int| 0 <= m < f.len() implies s.subrange(i, after)[m] == f[m] by {
                assert(s.subrange(i, i + total.len() as int)[m] == total[m]);
            }
        }
        assert(s.subrange(after, after + total2.len() as int) =~= total2) by {
            assert forall|m: int| 0 <= m < total2.len() implies s.subrange(
                after,
                after + total2.len() as int,
            )[m] == total2[m] by {
                assert(s.subrange(i, i + total.len() as int)[f.len() + m] == total[f.len() + m]);
            }
        }
        lemma_parse_children_sections(s, after, sps.skip(1), org, con);
        lemma_children_step_sp(s, i, sps, org, con, i + total.len() as int);
    } else if org is Some {
        let o = org->Some_0;
        let f = organization_xml(o);
        let total2 = sp_list_xml(sps) + org_sec_of(None) + con_sec_of(con) + end_tag(root_name());
        let after = i + f.len() as int;
        assert(s.subrange(i, after) =~= f) by {
            assert forall|m: int| 0 <= m < f.len() implies s.subrange(i, after)[m] == f[m] by {
                assert(s.subrange(i, i + total.len() as int)[m] == total[m]);
            }
        }
        assert(s.subrange(after, after + total2.len() as int) =~= total2) by {
            assert forall|m: int| 0 <= m < total2.len() implies s.subrange(
                after,
                after + total2.len() as int,
            )[m] == total2[m] by {
                assert(s.subrange(i, i + total.len() as int)[f.len() + m] == total[f.len() + m]);
            }
        }
        lemma_parse_children_sections(s, after, sps, None, con);
        lemma_children_step_org(s, i, sps, o, con, i + total.len() as int);
    } else if con is Some {
        let c = con->Some_0;
        let f = contact_person_xml(c);
        let total2 = sp_list_xml(sps) + org_sec_of(org) + con_sec_of(None) + end_tag(root_name());
        let after = i + f.len() as int;
        assert(s.subrange(i, after) =~= f) by {
            assert forall|m: int| 0 <= m < f.len() implies s.subrange(i, after)[m] == f[m] by {
                assert(s.subrange(i, i + total.len() as int)[m] == total[m]);
            }
        }
        assert(s.subrange(after, after + total2.len() as int) =~= total2) by {
            assert forall|m: int| 0 <= m < total2.len() implies s.subrange(
                after,
                after + total2.len() as int,
            )[m] == total2[m] by {
                assert(s.subrange(i, i + total.len() as int)[f.len() + m] == total[f.len() + m]);
            }
        }
        lemma_parse_children_sections(s, after, sps, org, None);
        lemma_children_step_con(s, i, sps, c, i + total.len() as int);
    } else {
        assert(total =~= end_tag(root_name()));
        assert(s.subrange(i, i + 22) =~= end_tag(root_name()));
        lemma_parse_children_end(s, i);
        assert(sps =~= Seq::<Option<Seq<char>>>::empty());
    }
}

} // verus!
