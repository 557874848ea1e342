//! Turns the slides of a presentation into Markdown.
//!
//! A slide part is XML. [`parse_xml::parse_slide_xml`] walks its shape tree
//! and gives the slide's elements: texts, lists, tables and pictures, each
//! with its position. [`parse_rels::parse_slide_rels`] reads the images that
//! the slide's relationships name, and [`Slide::link_images`] gives each
//! picture its target. [`Slide::convert_to_md`] renders the elements in
//! reading order.
//!
//! The library reads no file. [`PptxContainer`] says which entries of an
//! archive to read, and takes their bytes.

use vstd::prelude::*;

pub mod codec;
pub mod constants;
pub mod container;
pub mod error;
pub mod markdown;
pub mod order;
pub mod parse_rels;
pub mod parse_xml;
pub mod parser_config;
pub mod paths;
pub mod slide;
pub mod text;
pub mod types;
pub mod xml;

pub use container::{PptxContainer, SlideDraft};
pub use error::PptxError;
pub use parser_config::{ImageHandlingMode, ParserConfig, ParserConfigBuilder};
pub use slide::{ImageData, ImageLink, ManualImage, Presentation, SavedImage, Slide};
pub use types::{
    ElementPosition, Formatting, ImageReference, ListElement, ListItem, Run, SlideElement,
    TableCell, TableElement, TableRow, TextElement,
};
pub use xml::{XmlAttribute, XmlNode};
