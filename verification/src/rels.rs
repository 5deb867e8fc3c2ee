//! The picture relationships of a Word document (`word/_rels/document.xml.rels`):
//! each `Relationship` element whose type ends in `/image` maps its id to its
//! target. The XML is read with quick-xml's event reader.
use vstd::prelude::*;
use quick_xml::events::attributes::Attributes;
use quick_xml::events::BytesStart;
use quick_xml::Reader;
use crate::chars::{chars_of, string_from_chars};
use crate::text::{str_eq, ends_with_seq};

verus! {

#[verifier::external_type_specification]
#[verifier::external_body]
#[verifier::reject_recursive_types(R)]
pub struct ExXmlReader<R>(Reader<R>);

#[verifier::external_type_specification]
#[verifier::external_body]
pub struct ExBytesStart<'a>(BytesStart<'a>);

#[verifier::external_type_specification]
#[verifier::external_body]
pub struct ExAttributes<'a>(Attributes<'a>);

#[verifier::external_type_specification]
#[verifier::external_body]
pub struct ExAttribute<'a>(quick_xml::events::attributes::Attribute<'a>);

#[verifier::external_type_specification]
#[verifier::external_body]
pub struct ExAttrError(quick_xml::events::attributes::AttrError);

/// What the reader hands the relationship scan next.
pub enum RelsEvent<'a> {
    /// A start or empty element.
    Element(BytesStart<'a>),
    /// The end of the input, or malformed XML.
    Done,
    /// Any other event.
    Other,
}

/// `Reader::from_str`: a reader over the text.
#[verifier::external_body]
fn xml_reader<'a>(xml: &'a str) -> Reader<&'a [u8]> {
    Reader::from_str(xml)
}

/// `Reader::read_event`, the start and empty elements passed on, the end of
/// input and a read error both ending the scan. Which event comes next
/// depends on the reader's position, which Verus does not see.
#[verifier::external_body]
fn next_rels_event<'a>(reader: &mut Reader<&'a [u8]>) -> RelsEvent<'a> {
    match reader.read_event() {
        Ok(quick_xml::events::Event::Start(e)) => RelsEvent::Element(e),
        Ok(quick_xml::events::Event::Empty(e)) => RelsEvent::Element(e),
        Ok(quick_xml::events::Event::Eof) => RelsEvent::Done,
        Err(_) => RelsEvent::Done,
        Ok(_) => RelsEvent::Other,
    }
}

/// `BytesStart::name`: the element's qualified name, as bytes.
#[verifier::external_body]
fn element_name(e: &BytesStart) -> Vec<u8> {
    e.name().as_ref().to_vec()
}

/// `BytesStart::attributes`: an iterator over the element's attributes.
#[verifier::external_body]
fn element_attributes<'a>(e: &'a BytesStart<'a>) -> Attributes<'a> {
    e.attributes()
}

/// `Attributes::next`: `None` at the end; a malformed attribute as
/// `Some(None)`; else its key bytes and its value, unescaped with the
/// reader's decoder (an empty value where that fails).
#[verifier::external_body]
fn next_attribute(attrs: &mut Attributes, reader: &Reader<&[u8]>) -> Option<Option<(Vec<u8>, String)>> {
    match attrs.next() {
        None => None,
        Some(Err(_)) => Some(None),
        Some(Ok(a)) => Some(
            Some((a.key.as_ref().to_vec(), a.decode_and_unescape_value(reader.decoder()).unwrap_or_default().into_owned())),
        ),
    }
}

pub open spec fn bytes_of_str(s: Seq<char>) -> Seq<u8> {
    s.map_values(|c: char| c as u8)
}

/// The value of the last attribute named `key`, if any.
pub open spec fn last_value(attrs: Seq<(Seq<u8>, Seq<char>)>, key: Seq<u8>) -> Option<Seq<char>>
    decreases attrs.len(),
{
    if attrs.len() == 0 {
        None
    } else if attrs.last().0 == key {
        Some(attrs.last().1)
    } else {
        last_value(attrs.drop_last(), key)
    }
}

pub open spec fn id_key() -> Seq<u8> {
    seq![0x49u8, 0x64u8]
}

pub open spec fn target_key() -> Seq<u8> {
    seq![0x54u8, 0x61u8, 0x72u8, 0x67u8, 0x65u8, 0x74u8]
}

pub open spec fn type_key() -> Seq<u8> {
    seq![0x54u8, 0x79u8, 0x70u8, 0x65u8]
}

/// The relationship an element's attributes describe: its id and target,
/// when its (last) type ends in `/image` and it has both.
pub open spec fn image_relationship(attrs: Seq<(Seq<u8>, Seq<char>)>) -> Option<(Seq<char>, Seq<char>)> {
    match (last_value(attrs, id_key()), last_value(attrs, target_key()), last_value(attrs, type_key())) {
        (Some(id), Some(target), Some(kind)) => if ends_with_seq(kind, "/image"@) {
            Some((id, target))
        } else {
            None
        },
        _ => None,
    }
}

pub open spec fn attrs_view(v: Seq<(Vec<u8>, String)>) -> Seq<(Seq<u8>, Seq<char>)> {
    v.map_values(|a: (Vec<u8>, String)| (a.0@, a.1@))
}

fn bytes_eq(a: &[u8], b: &[u8]) -> (r: bool)
    ensures
        r == (a@ == b@),
{
    if a.len() != b.len() {
        return false;
    }
    let mut i: usize = 0;
    while i < a.len()
        invariant
            a@.len() == b@.len(),
            i <= a@.len(),
            forall|k: int| 0 <= k < i ==> a@[k] == b@[k],
        decreases a@.len() - i,
    {
        if a[i] != b[i] {
            return false;
        }
        i += 1;
    }
    assert(a@ =~= b@);
    true
}

fn last_value_exec(attrs: &[(Vec<u8>, String)], key: &[u8]) -> (r: Option<String>)
    ensures
        match last_value(attrs_view(attrs@), key@) {
            Some(v) => r matches Some(x) && x@ == v,
            None => r is None,
        },
{
    let mut found: Option<String> = None;
    let mut i: usize = 0;
    while i < attrs.len()
        invariant
            i <= attrs@.len(),
            match last_value(attrs_view(attrs@.take(i as int)), key@) {
                Some(v) => found matches Some(x) && x@ == v,
                None => found is None,
            },
        decreases attrs@.len() - i,
    {
        proof {
            assert(attrs_view(attrs@.take(i + 1)).drop_last() =~= attrs_view(attrs@.take(i as int)));
            assert(attrs_view(attrs@.take(i + 1)).last() == (attrs@[i as int].0@, attrs@[i as int].1@));
        }
        if bytes_eq(attrs[i].0.as_slice(), key) {
            found = Some(string_from_chars(&chars_of(attrs[i].1.as_str())));
        }
        i += 1;
    }
    assert(attrs@.take(i as int) =~= attrs@);
    found
}

/// The picture relationship of one `Relationship` element, from its
/// attributes.
pub fn image_relationship_of(attrs: &[(Vec<u8>, String)]) -> (r: Option<(String, String)>)
    ensures
        match image_relationship(attrs_view(attrs@)) {
            Some((id, target)) => r matches Some(p) && p.0@ == id && p.1@ == target,
            None => r is None,
        },
{
    let id = last_value_exec(attrs, &[0x49u8, 0x64u8]);
    let target = last_value_exec(attrs, &[0x54u8, 0x61u8, 0x72u8, 0x67u8, 0x65u8, 0x74u8]);
    let kind = last_value_exec(attrs, &[0x54u8, 0x79u8, 0x70u8, 0x65u8]);
    proof {
        assert([0x49u8, 0x64u8]@ =~= id_key());
        assert([0x54u8, 0x61u8, 0x72u8, 0x67u8, 0x65u8, 0x74u8]@ =~= target_key());
        assert([0x54u8, 0x79u8, 0x70u8, 0x65u8]@ =~= type_key());
    }
    match (id, target, kind) {
        (Some(i), Some(t), Some(k)) => {
            let kc = chars_of(k.as_str());
            if crate::text::ends_with_str(kc.as_slice(), "/image") {
                Some((i, t))
            } else {
                None
            }
        },
        _ => None,
    }
}

/// Sets `id` to `target` in a list of relationships, replacing an earlier
/// entry for the same id in place.
pub fn set_relationship(rels: &mut Vec<(String, String)>, id: String, target: String)
    requires
        forall|a: int, b: int| 0 <= a < b < old(rels)@.len() ==> (#[trigger] old(rels)@[a]).0@ != (#[trigger] old(
            rels,
        )@[b]).0@,
    ensures
        forall|k: int|
            0 <= k < old(rels)@.len() && old(rels)@[k].0@ != id@ ==> #[trigger] final(rels)@[k] == old(rels)@[k],
        (exists|k: int| 0 <= k < old(rels)@.len() && old(rels)@[k].0@ == id@) ==> final(rels)@.len() == old(
            rels,
        )@.len(),
        !(exists|k: int| 0 <= k < old(rels)@.len() && old(rels)@[k].0@ == id@) ==> final(rels)@.len() == old(
            rels,
        )@.len() + 1 && final(rels)@.last().0@ == id@ && final(rels)@.last().1@ == target@,
        forall|k: int|
            0 <= k < final(rels)@.len() && final(rels)@[k].0@ == id@ ==> #[trigger] final(rels)@[k].1@ == target@,
        forall|k: int| 0 <= k < final(rels)@.len() ==> (#[trigger] final(rels)@[k]).0@ == id@ || (k < old(rels)@.len()
            && final(rels)@[k] == old(rels)@[k]),
{
    let mut i: usize = 0;
    while i < rels.len()
        invariant
            rels@ == old(rels)@,
            forall|a: int, b: int| 0 <= a < b < rels@.len() ==> (#[trigger] rels@[a]).0@ != (#[trigger] rels@[b]).0@,
            i <= rels@.len(),
            forall|k: int| 0 <= k < i ==> rels@[k].0@ != id@,
        decreases rels@.len() - i,
    {
        if str_eq(rels[i].0.as_str(), id.as_str()) {
            let ghost before = rels@;
            let old_entry = rels.remove(i);
            rels.insert(i, (old_entry.0, target));
            proof {
                assert(rels@ =~= before.update(i as int, (before[i as int].0, target)));
                assert forall|k: int| 0 <= k < rels@.len() && rels@[k].0@ == id@ implies #[trigger] rels@[k].1@ == target@ by {
                    if k != i {
                        if k < i {
                            assert(before[k].0@ != before[i as int].0@);
                        } else {
                            assert(before[i as int].0@ != before[k].0@);
                        }
                    }
                }
            }
            return;
        }
        i += 1;
    }
    rels.push((id, target));
}

/// The picture relationships of `document.xml.rels`: for each
/// `Relationship` element (start or empty) whose last `Type` attribute ends
/// in `/image` and that has an `Id` and a `Target` (their last values), the
/// id maps to the target, a later element for the same id replacing an
/// earlier one. The scan stops at the end of the input or at malformed XML;
/// malformed attributes are skipped.
pub fn parse_image_rels(xml: &str) -> (r: Vec<(String, String)>)
    ensures
        forall|a: int, b: int| 0 <= a < b < r@.len() ==> (#[trigger] r@[a]).0@ != (#[trigger] r@[b]).0@,
{
    let mut reader = xml_reader(xml);
    let mut rels: Vec<(String, String)> = Vec::new();
    let mut remaining: usize = xml.len();
    loop
        invariant
            forall|a: int, b: int| 0 <= a < b < rels@.len() ==> (#[trigger] rels@[a]).0@ != (#[trigger] rels@[b]).0@,
        decreases remaining,
    {
        let event = next_rels_event(&mut reader);
        match event {
            RelsEvent::Done => {
                break;
            },
            RelsEvent::Other => {},
            RelsEvent::Element(e) => {
                let name = element_name(&e);
                if bytes_eq(
                    name.as_slice(),
                    &[0x52u8, 0x65u8, 0x6Cu8, 0x61u8, 0x74u8, 0x69u8, 0x6Fu8, 0x6Eu8, 0x73u8, 0x68u8, 0x69u8, 0x70u8],
                ) {
                    let mut attrs: Vec<(Vec<u8>, String)> = Vec::new();
                    let mut iter = element_attributes(&e);
                    let mut left: usize = remaining;
                    loop
                        decreases left,
                    {
                        match next_attribute(&mut iter, &reader) {
                            None => {
                                break;
                            },
                            Some(None) => {},
                            Some(Some(a)) => {
                                attrs.push(a);
                            },
                        }
                        if left == 0 {
                            break;
                        }
                        left -= 1;
                    }
                    match image_relationship_of(attrs.as_slice()) {
                        Some((id, target)) => {
                            let ghost before = rels@;
                            set_relationship(&mut rels, id, target);
                            proof {
                                assert forall|a: int, b: int| 0 <= a < b < rels@.len() implies (#[trigger] rels@[a]).0@
                                    != (#[trigger] rels@[b]).0@ by {
                                    if a < before.len() && b < before.len() {
                                        if rels@[a].0@ == rels@[b].0@ {
                                            if rels@[a].0@ != id@ {
                                                assert(rels@[a] == before[a]);
                                                assert(rels@[b] == before[b]);
                                            } else {
                                                assert(before[a].0@ == id@ || rels@[a] == before[a]);
                                            }
                                        }
                                    }
                                }
                            }
                        },
                        None => {},
                    }
                }
            },
        }
        if remaining == 0 {
            break;
        }
        remaining -= 1;
    }
    rels
}

} // verus!
