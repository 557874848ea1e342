use vstd::prelude::*;

verus! {

/// The namespace of PresentationML: slides and their shape trees.
pub const P_NAMESPACE: &'static str = "http://schemas.openxmlformats.org/presentationml/2006/main";

/// The namespace of DrawingML: text bodies, tables, pictures and transforms.
pub const A_NAMESPACE: &'static str = "http://schemas.openxmlformats.org/drawingml/2006/main";

/// The namespace of the attributes that refer to a relationship.
pub const RELS_NAMESPACE: &'static str =
    "http://schemas.openxmlformats.org/officeDocument/2006/relationships";

/// The type of a relationship that leads to an image.
pub const IMAGE_NAMESPACE: &'static str =
    "http://schemas.openxmlformats.org/officeDocument/2006/relationships/image";

/// The content type of a graphic frame that holds a table.
pub const TABLE_URI: &'static str = "http://schemas.openxmlformats.org/drawingml/2006/table";

} // verus!
