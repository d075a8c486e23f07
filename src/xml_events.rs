//! XML documents as a list of events, read with the `xml-rs` crate.
use vstd::prelude::*;

use crate::text::chars_of;
use vstd::utf8::valid_utf8;
use xml::reader::XmlEvent;

verus! {

/// One event of an XML document: names are local names, without prefix.
pub enum XmlItem {
    Start { name: String, attributes: Vec<(String, String)> },
    End { name: String },
    Text(String),
    Other,
    Failure(String),
}

pub enum XmlItemView {
    Start { name: Seq<char>, attributes: Seq<(Seq<char>, Seq<char>)> },
    End { name: Seq<char> },
    Text(Seq<char>),
    Other,
    Failure(Seq<char>),
}

pub open spec fn attr_views(a: Seq<(String, String)>) -> Seq<(Seq<char>, Seq<char>)> {
    a.map_values(|p: (String, String)| (p.0@, p.1@))
}

impl View for XmlItem {
    type V = XmlItemView;

    open spec fn view(&self) -> XmlItemView {
        match self {
            XmlItem::Start { name, attributes } => XmlItemView::Start {
                name: name@,
                attributes: attr_views(attributes@),
            },
            XmlItem::End { name } => XmlItemView::End { name: name@ },
            XmlItem::Text(t) => XmlItemView::Text(t@),
            XmlItem::Other => XmlItemView::Other,
            XmlItem::Failure(m) => XmlItemView::Failure(m@),
        }
    }
}

pub open spec fn item_views(v: Seq<XmlItem>) -> Seq<XmlItemView> {
    v.map_values(|x: XmlItem| x@)
}

/// The events `xml::EventReader` reads from the bytes, up to the end of the
/// document or the first error.
pub uninterp spec fn xml_items(b: Seq<u8>) -> Seq<XmlItemView>;


/// Relies on `xml::EventReader`'s iterator: start and end tags with their
/// local names and attributes, character data, and an error as the last
/// event if there is one. Other events are kept as `Other`.
#[verifier::external_body]
pub(crate) fn read_xml(bytes: &[u8]) -> (r: Vec<XmlItem>)
    ensures
        item_views(r@) == xml_items(bytes@),
{
    xml::EventReader::new(bytes).into_iter().map(|e| match e {
        Ok(XmlEvent::StartElement { name, attributes, .. }) => XmlItem::Start {
            name: name.local_name,
            attributes: attributes.into_iter().map(|a| (a.name.local_name, a.value)).collect(),
        },
        Ok(XmlEvent::EndElement { name }) => XmlItem::End { name: name.local_name },
        Ok(XmlEvent::Characters(t)) => XmlItem::Text(t),
        Ok(_) => XmlItem::Other,
        Err(e) => XmlItem::Failure(e.to_string()),
    }).collect()
}

/// Relies on `std::str::from_utf8`: it accepts exactly the valid UTF-8
/// byte sequences.
#[verifier::external_body]
pub(crate) fn is_utf8(bytes: &[u8]) -> (r: bool)
    ensures
        r == valid_utf8(bytes@),
{
    std::str::from_utf8(bytes).is_ok()
}

/// Whether `s` reads `lit`.
pub fn text_is(s: &String, lit: &str) -> (r: bool)
    ensures
        r == (s@ == lit@),
{
    let a = chars_of(s.as_str());
    let b = chars_of(lit);
    if a.len() != b.len() {
        return false;
    }
    for k in 0..a.len()
        invariant
            a@ == s@,
            b@ == lit@,
            a.len() == b.len(),
            forall|q: int| 0 <= q < k ==> a@[q] == b@[q],
    {
        if a[k] != b[k] {
            return false;
        }
    }
    assert(a@ =~= b@);
    true
}

/// The value of the first attribute named `key`.
pub open spec fn first_attr(a: Seq<(Seq<char>, Seq<char>)>, key: Seq<char>) -> Option<Seq<char>>
    decreases a.len(),
{
    if a.len() == 0 {
        None
    } else if a[0].0 == key {
        Some(a[0].1)
    } else {
        first_attr(a.drop_first(), key)
    }
}

/// The value of the last attribute named `key`.
pub open spec fn last_attr(a: Seq<(Seq<char>, Seq<char>)>, key: Seq<char>) -> Option<Seq<char>>
    decreases a.len(),
{
    if a.len() == 0 {
        None
    } else if a.last().0 == key {
        Some(a.last().1)
    } else {
        last_attr(a.drop_last(), key)
    }
}

pub fn find_attr(a: &Vec<(String, String)>, key: &str) -> (r: Option<String>)
    ensures
        r matches Some(v) ==> first_attr(attr_views(a@), key@) == Some(v@),
        r is None ==> first_attr(attr_views(a@), key@) is None,
{
    let ghost av = attr_views(a@);
    assert(av.subrange(0, av.len() as int) =~= av);
    for k in 0..a.len()
        invariant
            av == attr_views(a@),
            first_attr(av, key@) == first_attr(av.subrange(k as int, av.len() as int), key@),
    {
        let ghost t = av.subrange(k as int, av.len() as int);
        assert(t.drop_first() =~= av.subrange(k + 1, av.len() as int));
        assert(t[0] == (a@[k as int].0@, a@[k as int].1@));
        if text_is(&a[k].0, key) {
            return Some(a[k].1.clone());
        }
    }
    assert(av.subrange(a.len() as int, av.len() as int) =~= Seq::<(Seq<char>, Seq<char>)>::empty());
    None
}

pub fn find_last_attr(a: &Vec<(String, String)>, key: &str) -> (r: Option<String>)
    ensures
        r matches Some(v) ==> last_attr(attr_views(a@), key@) == Some(v@),
        r is None ==> last_attr(attr_views(a@), key@) is None,
{
    let ghost av = attr_views(a@);
    let mut k = a.len();
    assert(av.subrange(0, k as int) =~= av);
    while k > 0
        invariant
            av == attr_views(a@),
            k <= a.len(),
            last_attr(av, key@) == last_attr(av.subrange(0, k as int), key@),
        decreases k,
    {
        let ghost t = av.subrange(0, k as int);
        assert(t.drop_last() =~= av.subrange(0, k - 1));
        assert(t.last() == (a@[k - 1].0@, a@[k - 1].1@));
        if text_is(&a[k - 1].0, key) {
            return Some(a[k - 1].1.clone());
        }
        k = k - 1;
    }
    None
}

} // verus!
