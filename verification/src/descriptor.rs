//! The role and metadata descriptors an entity descriptor owns.
//!
//! Each descriptor owns a fixed set of optional fields and renders itself as
//! a complete XML fragment; the entity descriptor embeds those fragments in
//! its schema-mandated order.

use crate::xml::{
    attrs_view, empty_tag, end_tag, start_tag, text_escape, write_empty, write_end,
    write_start, write_text,
};
use vstd::prelude::*;

verus! {

/// The element name of an SP-SSO descriptor, as a character sequence.
pub open spec fn sp_sso_name() -> Seq<char> {
    seq!['m', 'd', ':', 'S', 'P', 'S', 'S', 'O', 'D', 'e', 's', 'c', 'r', 'i', 'p', 't', 'o', 'r']
}

/// The attribute naming the protocols an SP-SSO descriptor supports.
pub open spec fn protocol_support_key() -> Seq<char> {
    seq![
        'p',
        'r',
        'o',
        't',
        'o',
        'c',
        'o',
        'l',
        'S',
        'u',
        'p',
        'p',
        'o',
        'r',
        't',
        'E',
        'n',
        'u',
        'm',
        'e',
        'r',
        'a',
        't',
        'i',
        'o',
        'n',
    ]
}

/// The element name of an organization, as a character sequence.
pub open spec fn organization_name_elem() -> Seq<char> {
    seq!['m', 'd', ':', 'O', 'r', 'g', 'a', 'n', 'i', 'z', 'a', 't', 'i', 'o', 'n']
}

/// The element name of an organization's name child.
pub open spec fn organization_name_child() -> Seq<char> {
    seq![
        'm',
        'd',
        ':',
        'O',
        'r',
        'g',
        'a',
        'n',
        'i',
        'z',
        'a',
        't',
        'i',
        'o',
        'n',
        'N',
        'a',
        'm',
        'e',
    ]
}

/// The element name of a contact person, as a character sequence.
pub open spec fn contact_person_name() -> Seq<char> {
    seq!['m', 'd', ':', 'C', 'o', 'n', 't', 'a', 'c', 't', 'P', 'e', 'r', 's', 'o', 'n']
}

/// The attribute naming the kind of a contact person.
pub open spec fn contact_type_key() -> Seq<char> {
    seq!['c', 'o', 'n', 't', 'a', 'c', 't', 'T', 'y', 'p', 'e']
}

/// A service-provider SSO descriptor: the protocols it supports, if stated.
#[derive(Clone, Debug, PartialEq, Eq, Default)]
pub struct SpSsoDescriptor {
    pub protocol_support_enumeration: Option<String>,
}

/// An organization block: its display name, if stated.
#[derive(Clone, Debug, PartialEq, Eq, Default)]
pub struct Organization {
    pub organization_name: Option<String>,
}

/// A contact-person block: the kind of contact, if stated.
#[derive(Clone, Debug, PartialEq, Eq, Default)]
pub struct ContactPerson {
    pub contact_type: Option<String>,
}

impl View for SpSsoDescriptor {
    type V = Option<Seq<char>>;

    open spec fn view(&self) -> Option<Seq<char>> {
        match self.protocol_support_enumeration {
            Some(p) => Some(p@),
            None => None,
        }
    }
}

impl View for Organization {
    type V = Option<Seq<char>>;

    open spec fn view(&self) -> Option<Seq<char>> {
        match self.organization_name {
            Some(n) => Some(n@),
            None => None,
        }
    }
}

impl View for ContactPerson {
    type V = Option<Seq<char>>;

    open spec fn view(&self) -> Option<Seq<char>> {
        match self.contact_type {
            Some(t) => Some(t@),
            None => None,
        }
    }
}

/// The fragment an SP-SSO descriptor encodes to: a self-closing element
/// carrying its one attribute only where that is present.
pub open spec fn sp_sso_xml(v: Option<Seq<char>>) -> Seq<char> {
    match v {
        None => empty_tag(sp_sso_name(), Seq::empty()),
        Some(p) => empty_tag(sp_sso_name(), seq![(protocol_support_key(), p)]),
    }
}

/// The fragment an organization encodes to: self-closing without a name,
/// otherwise its name child with the name as escaped character data.
pub open spec fn organization_xml(v: Option<Seq<char>>) -> Seq<char> {
    match v {
        None => empty_tag(organization_name_elem(), Seq::empty()),
        Some(n) => start_tag(organization_name_elem(), Seq::empty()) + start_tag(
            organization_name_child(),
            Seq::empty(),
        ) + text_escape(n) + end_tag(organization_name_child()) + end_tag(
            organization_name_elem(),
        ),
    }
}

/// The fragment a contact person encodes to, as for the SP-SSO descriptor.
pub open spec fn contact_person_xml(v: Option<Seq<char>>) -> Seq<char> {
    match v {
        None => empty_tag(contact_person_name(), Seq::empty()),
        Some(t) => empty_tag(contact_person_name(), seq![(contact_type_key(), t)]),
    }
}

impl SpSsoDescriptor {
    /// Renders this descriptor as an XML fragment.
    pub fn to_xml(&self) -> (r: String)
        ensures
            r@ == sp_sso_xml(self@),
    {
        let name = "md:SPSSODescriptor";
        proof {
            reveal_strlit("md:SPSSODescriptor");
            reveal_strlit("protocolSupportEnumeration");
            assert(name@ =~= sp_sso_name());
            assert("protocolSupportEnumeration"@ =~= protocol_support_key());
        }
        let mut out = String::new();
        let mut attrs: Vec<(String, String)> = Vec::new();
        match &self.protocol_support_enumeration {
            Some(p) => {
                attrs.push((String::from_str("protocolSupportEnumeration"), p.clone()));
                proof {
                    assert(attrs_view(attrs@) =~= seq![(protocol_support_key(), p@)]);
                }
            },
            None => {
                proof {
                    assert(attrs_view(attrs@) =~= Seq::<(Seq<char>, Seq<char>)>::empty());
                }
            },
        }
        write_empty(&mut out, name, &attrs);
        assert(out@ =~= sp_sso_xml(self@));
        out
    }
}

impl Organization {
    /// Renders this organization as an XML fragment; the name text is
    /// escaped exactly once, here at the leaf.
    pub fn to_xml(&self) -> (r: String)
        ensures
            r@ == organization_xml(self@),
    {
        let name = "md:Organization";
        let child = "md:OrganizationName";
        proof {
            reveal_strlit("md:Organization");
            reveal_strlit("md:OrganizationName");
            assert(name@ =~= organization_name_elem());
            assert(child@ =~= organization_name_child());
        }
        let mut out = String::new();
        let attrs: Vec<(String, String)> = Vec::new();
        proof {
            assert(attrs_view(attrs@) =~= Seq::<(Seq<char>, Seq<char>)>::empty());
        }
        match &self.organization_name {
            None => {
                write_empty(&mut out, name, &attrs);
            },
            Some(n) => {
                write_start(&mut out, name, &attrs);
                write_start(&mut out, child, &attrs);
                write_text(&mut out, n.as_str());
                write_end(&mut out, child);
                write_end(&mut out, name);
            },
        }
        assert(out@ =~= organization_xml(self@));
        out
    }
}

impl ContactPerson {
    /// Renders this contact person as an XML fragment.
    pub fn to_xml(&self) -> (r: String)
        ensures
            r@ == contact_person_xml(self@),
    {
        let name = "md:ContactPerson";
        proof {
            reveal_strlit("md:ContactPerson");
            reveal_strlit("contactType");
            assert(name@ =~= contact_person_name());
            assert("contactType"@ =~= contact_type_key());
        }
        let mut out = String::new();
        let mut attrs: Vec<(String, String)> = Vec::new();
        match &self.contact_type {
            Some(t) => {
                attrs.push((String::from_str("contactType"), t.clone()));
                proof {
                    assert(attrs_view(attrs@) =~= seq![(contact_type_key(), t@)]);
                }
            },
            None => {
                proof {
                    assert(attrs_view(attrs@) =~= Seq::<(Seq<char>, Seq<char>)>::empty());
                }
            },
        }
        write_empty(&mut out, name, &attrs);
        assert(out@ =~= contact_person_xml(self@));
        out
    }
}

} // verus!
