use vstd::prelude::*;
use vstd::string::*;
use vstd::utf8::{decode_utf8, valid_utf8};
use crate::constants::IMAGE_NAMESPACE;
use crate::error::PptxError;
use crate::parse_xml::yields;
use crate::text::str_eq;
use crate::types::{ImageReference, ImageReferenceView};
use crate::xml::{
    attribute_value, element_named, matching, nodes_of, parse_document, utf8_failure, utf8_text,
    xml_document, Tag, XmlNode,
};

verus! {

/// The image that a relationship leads to: its `Id` and its `Target`, where
/// it has both and its `Type` is that of an image.
pub open spec fn relationship_image(relationship: XmlNode) -> Option<ImageReferenceView> {
    let attributes = relationship.attributes@;
    if attribute_value(attributes, None, "Type"@) == Some(IMAGE_NAMESPACE@) {
        match (
            attribute_value(attributes, None, "Id"@),
            attribute_value(attributes, None, "Target"@),
        ) {
            (Some(id), Some(target)) => Some(ImageReferenceView { id: id, target: target }),
            _ => None,
        }
    } else {
        None
    }
}

/// The images that the first `n` of the given relationships lead to.
pub open spec fn images_of_first(relationships: Seq<XmlNode>, n: int) -> Seq<ImageReferenceView>
    decreases n,
{
    if 0 < n <= relationships.len() {
        let before = images_of_first(relationships, n - 1);
        match relationship_image(relationships[n - 1]) {
            Some(image) => before.push(image),
            None => before,
        }
    } else {
        Seq::empty()
    }
}

/// The images of a relationships part whose root element is given: those
/// that its `Relationship` children lead to, in document order.
pub open spec fn relationship_images(root: XmlNode) -> Seq<ImageReferenceView> {
    let relationships = matching(root.children@, element_named("Relationship"@));
    images_of_first(relationships, relationships.len() as int)
}

/// The images of the relationships part that the bytes hold: they are UTF-8
/// text, and the text is an XML document.
pub open spec fn rels_xml_images(xml_data: Seq<u8>) -> Result<Seq<ImageReferenceView>, PptxError> {
    if valid_utf8(xml_data) {
        match xml_document(decode_utf8(xml_data)) {
            Ok(root) => Ok(relationship_images(root)),
            Err(error) => Err(PptxError::Xml(error)),
        }
    } else {
        Err(PptxError::Utf8(utf8_failure(xml_data)))
    }
}

/// The images of a relationships part whose root element is given.
pub fn parse_rels_tree(root: &XmlNode) -> (images: Vec<ImageReference>)
    ensures
        images.deep_view() == relationship_images(*root),
{
    let relationships = root.children_matching(&Tag::element_named("Relationship"));
    let ghost nodes = matching(root.children@, element_named("Relationship"@));
    let mut images: Vec<ImageReference> = Vec::new();
    let mut k: usize = 0;
    while k < relationships.len()
        invariant
            k <= relationships.len(),
            nodes == nodes_of(relationships@),
            nodes == matching(root.children@, element_named("Relationship"@)),
            images.deep_view() =~= images_of_first(nodes, k as int),
        decreases relationships.len() - k,
    {
        let relationship = relationships[k];
        assert(nodes[k as int] == *relationships@[k as int]);
        if let Some(kind) = relationship.attribute("Type") {
            if str_eq(kind, IMAGE_NAMESPACE) {
                if let Some(id) = relationship.attribute("Id") {
                    if let Some(target) = relationship.attribute("Target") {
                        let ghost before = images.deep_view();
                        let image = ImageReference { id: id.to_owned(), target: target.to_owned() };
                        images.push(image);
                        proof {
                            assert(images.deep_view() =~= before.push(image.deep_view()));
                        }
                    }
                }
            }
        }
        k += 1;
    }
    images
}

/// The images that the bytes of a relationships part name.
pub fn parse_slide_rels(xml_data: &[u8]) -> (images: Result<Vec<ImageReference>, PptxError>)
    ensures
        yields(images, rels_xml_images(xml_data@)),
{
    let text = match utf8_text(xml_data) {
        Ok(text) => text,
        Err(error) => {
            return Err(PptxError::Utf8(error));
        },
    };
    match parse_document(text) {
        Ok(root) => Ok(parse_rels_tree(&root)),
        Err(error) => Err(PptxError::Xml(error)),
    }
}

} // verus!
