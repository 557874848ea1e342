use vstd::prelude::*;

verus! {

/// `roxmltree::Error`, what the XML parser reports. The library hands it on
/// and never looks inside.
#[verifier::external_type_specification]
#[verifier::external_body]
pub struct ExXmlError(roxmltree::Error);

/// `zip::result::ZipError`, what reading the archive reports. The library
/// only has a place for it.
#[verifier::external_type_specification]
#[verifier::external_body]
pub struct ExZipError(zip::result::ZipError);

/// `std::str::Utf8Error`, what decoding bytes as UTF-8 reports. The library
/// hands it on and never looks inside.
#[verifier::external_type_specification]
#[verifier::external_body]
pub struct ExUtf8Error(std::str::Utf8Error);

/// `std::io::Error`, what the file system reports. The library only has a
/// place for it.
#[verifier::external_type_specification]
#[verifier::external_body]
pub struct ExIoError(std::io::Error);

/// Everything that can go wrong while a presentation is read and converted.
///
/// Parsing a part gives `Utf8` for bytes that are no UTF-8 text, `Xml` for a
/// text that is no well-formed XML, `Unknown` for a slide that lacks a
/// required element, and `ImageNotFound` for a picture that names no image.
/// The other failures come up where the archive is read.
#[derive(Debug)]
pub enum PptxError {
    /// The archive could not be opened or an entry could not be read.
    Zip(zip::result::ZipError),
    /// A part is not well-formed XML.
    Xml(roxmltree::Error),
    /// A part is not valid UTF-8.
    Utf8(std::str::Utf8Error),
    /// The requested slide is not in the archive.
    SlideNotFound,
    /// Reading from or writing to the file system failed.
    Io(std::io::Error),
    /// A part is well-formed XML but not a slide.
    ParseError(&'static str),
    /// A picture names no image.
    ImageNotFound,
    /// A relationship id has no target.
    RelationshipNotFound,
    /// The Markdown could not be produced.
    ConversionFailed,
    /// The Markdown could not be produced on some worker.
    MultiThreadedConversionFailed,
    /// The structure of a slide is malformed: it lacks the slide content, its
    /// shape tree, or the text body of a shape.
    Unknown,
}

} // verus!
