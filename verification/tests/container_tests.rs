use pptx_to_md::parse_xml::{extract_position, parse_group, parse_slide_tree, parse_slide_xml, parse_sp};
use pptx_to_md::parse_xml::ParsedContent;
use pptx_to_md::xml::parse_xml_text;
use pptx_to_md::{
    ElementPosition, ImageHandlingMode, ParserConfig, PptxContainer, PptxError, SlideElement,
};

const SLIDE: &str = r#"<?xml version="1.0" encoding="UTF-8" standalone="yes"?>
<p:sld xmlns:a="http://schemas.openxmlformats.org/drawingml/2006/main" xmlns:r="http://schemas.openxmlformats.org/officeDocument/2006/relationships" xmlns:p="http://schemas.openxmlformats.org/presentationml/2006/main">
  <p:cSld>
    <p:spTree>
      <p:nvGrpSpPr><p:cNvPr id="1" name=""/></p:nvGrpSpPr>
      <p:grpSpPr><a:xfrm><a:off x="0" y="0"/></a:xfrm></p:grpSpPr>
      <p:sp>
        <p:spPr><a:xfrm><a:off x="100" y="200"/><a:ext cx="5" cy="6"/></a:xfrm></p:spPr>
        <p:txBody>
          <a:bodyPr/>
          <a:p><a:r><a:rPr lang="en-US" b="1" i="TRUE"/><a:t>Hello</a:t></a:r></a:p>
        </p:txBody>
      </p:sp>
      <p:grpSp>
        <p:grpSpPr><a:xfrm><a:off x="7" y="8"/></a:xfrm></p:grpSpPr>
        <p:pic>
          <p:blipFill><a:blip r:embed="rId2"/></p:blipFill>
          <p:spPr><a:xfrm><a:off x="-10" y="50"/></a:xfrm></p:spPr>
        </p:pic>
        <a:ignored/>
        <p:grpSp>
          <p:sp>
            <p:txBody>
              <a:p><a:pPr lvl="1"><a:buAutoNum type="arabicPeriod"/></a:pPr><a:r><a:t>one</a:t></a:r><a:r><a:t> more</a:t></a:r></a:p>
              <a:p><a:r><a:t>two</a:t></a:r></a:p>
            </p:txBody>
          </p:sp>
        </p:grpSp>
      </p:grpSp>
      <p:graphicFrame>
        <p:xfrm><a:off x="1" y="2"/></p:xfrm>
        <a:graphic><a:graphicData uri="http://schemas.openxmlformats.org/drawingml/2006/table">
          <a:tbl><a:tr><a:tc><a:txBody><a:p><a:r><a:t>x</a:t></a:r></a:p><a:p><a:r><a:t>y</a:t></a:r></a:p></a:txBody></a:tc><a:tc/></a:tr></a:tbl>
        </a:graphicData></a:graphic>
      </p:graphicFrame>
      <p:graphicFrame>
        <a:graphic><a:graphicData uri="http://schemas.openxmlformats.org/drawingml/2006/chart"/></a:graphic>
      </p:graphicFrame>
      <p:cxnSp/>
    </p:spTree>
  </p:cSld>
</p:sld>"#;

const RELS: &str = r#"<Relationships xmlns="http://schemas.openxmlformats.org/package/2006/relationships">
    <Relationship Id="rId1" Type="http://schemas.openxmlformats.org/officeDocument/2006/relationships/slideLayout" Target="../slideLayouts/slideLayout2.xml"/>
    <Relationship Id="rId2" Type="http://schemas.openxmlformats.org/officeDocument/2006/relationships/image" Target="../media/image1.png"/>
    <Relationship Id="rId3" Type="http://schemas.openxmlformats.org/officeDocument/2006/relationships/image" Target="pictures/image2.gif"/>
</Relationships>"#;

fn check_slide_elements(elements: &[SlideElement]) {
    assert_eq!(elements.len(), 8);
    assert!(matches!(elements[0], SlideElement::Unknown));
    assert!(matches!(elements[1], SlideElement::Unknown));
    assert!(matches!(elements[3], SlideElement::Unknown));
    match &elements[2] {
        SlideElement::Text(text, position) => {
            assert_eq!(*position, ElementPosition { x: 100, y: 200 });
            assert_eq!(text.runs.len(), 1);
            assert_eq!(text.runs[0].text, "Hello\n");
            assert!(text.runs[0].formatting.bold);
            assert!(text.runs[0].formatting.italic);
            assert!(!text.runs[0].formatting.underlined);
            assert_eq!(text.runs[0].formatting.lang, "en-US");
        }
        other => panic!("no text: {:?}", other),
    }
    match &elements[4] {
        SlideElement::Image(image, position) => {
            assert_eq!(*position, ElementPosition { x: -10, y: 50 });
            assert_eq!(image.id, "rId2");
        }
        other => panic!("no image: {:?}", other),
    }
    match &elements[5] {
        SlideElement::List(list, position) => {
            assert_eq!(*position, ElementPosition { x: 0, y: 0 });
            assert_eq!(list.items.len(), 2);
            assert_eq!(list.items[0].level, 1);
            assert!(list.items[0].is_ordered);
            assert_eq!(list.items[0].runs.len(), 2);
            assert_eq!(list.items[0].runs[0].text, "one");
            assert_eq!(list.items[0].runs[1].text, " more\n");
            assert_eq!(list.items[1].level, 0);
            assert!(!list.items[1].is_ordered);
            assert_eq!(list.items[1].runs[0].text, "two\n");
        }
        other => panic!("no list: {:?}", other),
    }
    match &elements[6] {
        SlideElement::Table(table, position) => {
            assert_eq!(*position, ElementPosition { x: 0, y: 0 });
            assert_eq!(table.rows.len(), 1);
            assert_eq!(table.rows[0].cells.len(), 2);
            assert_eq!(table.rows[0].cells[0].runs.len(), 2);
            assert_eq!(table.rows[0].cells[0].runs[0].text, "x");
            assert_eq!(table.rows[0].cells[0].runs[1].text, "y");
            assert_eq!(table.rows[0].cells[1].runs.len(), 0);
        }
        other => panic!("no table: {:?}", other),
    }
    assert!(matches!(elements[7], SlideElement::Unknown));
}

#[test]
fn slide_is_walked_in_document_order() {
    let elements = parse_slide_xml(SLIDE.as_bytes()).unwrap();
    check_slide_elements(&elements);
    let root = parse_xml_text(SLIDE).unwrap();
    check_slide_elements(&parse_slide_tree(&root).unwrap());
}

#[test]
fn slide_that_is_not_utf8_is_refused() {
    let mut bytes = SLIDE.as_bytes().to_vec();
    bytes[60] = 0xff;
    match parse_slide_xml(&bytes) {
        Err(PptxError::Utf8(error)) => assert_eq!(error.valid_up_to(), 60),
        other => panic!("no UTF-8 failure: {:?}", other.map(|elements| elements.len())),
    }
}

#[test]
fn slide_that_is_not_xml_is_refused() {
    assert!(matches!(parse_slide_xml(b"<p:sld>"), Err(PptxError::Xml(_))));
    assert!(matches!(parse_slide_xml(b""), Err(PptxError::Xml(_))));
    assert!(matches!(parse_xml_text("<a><b></a>"), Err(PptxError::Xml(_))));
}

#[test]
fn slide_without_shape_tree_is_refused() {
    let no_content = r#"<p:sld xmlns:p="http://schemas.openxmlformats.org/presentationml/2006/main"><p:clrMapOvr/></p:sld>"#;
    assert!(matches!(parse_slide_xml(no_content.as_bytes()), Err(PptxError::Unknown)));
    let no_tree = r#"<p:sld xmlns:p="http://schemas.openxmlformats.org/presentationml/2006/main"><p:cSld><p:bg/></p:cSld></p:sld>"#;
    assert!(matches!(parse_slide_xml(no_tree.as_bytes()), Err(PptxError::Unknown)));
    let other_namespace = r#"<p:sld xmlns:p="http://schemas.openxmlformats.org/presentationml/2006/main" xmlns:q="urn:other"><q:cSld><q:spTree/></q:cSld></p:sld>"#;
    assert!(matches!(parse_slide_xml(other_namespace.as_bytes()), Err(PptxError::Unknown)));
    let empty_tree = r#"<p:sld xmlns:p="http://schemas.openxmlformats.org/presentationml/2006/main"><p:cSld><p:spTree/></p:cSld></p:sld>"#;
    assert_eq!(parse_slide_xml(empty_tree.as_bytes()).unwrap().len(), 0);
}

#[test]
fn shape_without_text_body_fails_the_slide() {
    let xml = r#"<p:sld xmlns:p="http://schemas.openxmlformats.org/presentationml/2006/main" xmlns:a="http://schemas.openxmlformats.org/drawingml/2006/main"><p:cSld><p:spTree><p:grpSp><p:sp><a:txBody/></p:sp></p:grpSp><p:pic/></p:spTree></p:cSld></p:sld>"#;
    assert!(matches!(parse_slide_xml(xml.as_bytes()), Err(PptxError::Unknown)));
}

#[test]
fn picture_without_image_fails_the_slide() {
    let xml = r#"<p:sld xmlns:p="http://schemas.openxmlformats.org/presentationml/2006/main" xmlns:a="http://schemas.openxmlformats.org/drawingml/2006/main"><p:cSld><p:spTree><p:pic><a:blip embed="rId1"/></p:pic><p:sp/></p:spTree></p:cSld></p:sld>"#;
    assert!(matches!(parse_slide_xml(xml.as_bytes()), Err(PptxError::ImageNotFound)));
}

#[test]
fn shape_is_a_list_where_any_paragraph_looks_like_one() {
    let list = r#"<p:sp xmlns:p="http://schemas.openxmlformats.org/presentationml/2006/main" xmlns:a="http://schemas.openxmlformats.org/drawingml/2006/main"><p:txBody><a:p><a:r><a:t>plain</a:t></a:r></a:p><a:p><a:pPr><a:buChar char="-"/></a:pPr><a:r><a:t>item</a:t></a:r></a:p></p:txBody></p:sp>"#;
    match parse_sp(&parse_xml_text(list).unwrap()).unwrap() {
        ParsedContent::List(list) => {
            assert_eq!(list.items.len(), 2);
            assert!(!list.items[0].is_ordered);
            assert!(list.items[1].is_ordered);
        }
        ParsedContent::Text(_) => panic!("no list"),
    }
    let text = r#"<p:sp xmlns:p="http://schemas.openxmlformats.org/presentationml/2006/main" xmlns:a="http://schemas.openxmlformats.org/drawingml/2006/main"><p:txBody><a:p><a:pPr algn="ctr"/><a:r><a:t>a</a:t></a:r></a:p><a:p><a:r><a:t>b</a:t></a:r></a:p></p:txBody></p:sp>"#;
    match parse_sp(&parse_xml_text(text).unwrap()).unwrap() {
        ParsedContent::Text(text) => {
            assert_eq!(text.runs.len(), 2);
            assert_eq!(text.runs[0].text, "a\n");
            assert_eq!(text.runs[1].text, "b\n");
        }
        ParsedContent::List(_) => panic!("no text"),
    }
    let level_only = r#"<p:sp xmlns:p="http://schemas.openxmlformats.org/presentationml/2006/main" xmlns:a="http://schemas.openxmlformats.org/drawingml/2006/main"><p:txBody><a:p><a:pPr lvl="x"/><a:r><a:t>a</a:t></a:r></a:p></p:txBody></p:sp>"#;
    match parse_sp(&parse_xml_text(level_only).unwrap()).unwrap() {
        ParsedContent::List(list) => {
            assert_eq!(list.items[0].level, 0);
            assert!(!list.items[0].is_ordered);
        }
        ParsedContent::Text(_) => panic!("no list"),
    }
}

#[test]
fn position_falls_back_to_the_origin() {
    let position = |xml: &str| extract_position(&parse_xml_text(xml).unwrap());
    let ns = r#"xmlns:a="http://schemas.openxmlformats.org/drawingml/2006/main""#;
    assert_eq!(position(&format!(r#"<a:x {}><a:xfrm><a:off x="12" y="-34"/></a:xfrm></a:x>"#, ns)), ElementPosition { x: 12, y: -34 });
    assert_eq!(position(&format!(r#"<a:x {}><a:xfrm><a:off x="12" y="3.4"/></a:xfrm></a:x>"#, ns)), ElementPosition { x: 0, y: 0 });
    assert_eq!(position(&format!(r#"<a:x {}><a:xfrm><a:off x="12"/></a:xfrm></a:x>"#, ns)), ElementPosition { x: 0, y: 0 });
    assert_eq!(position(&format!(r#"<a:x {}><a:xfrm/><a:xfrm><a:off x="1" y="2"/></a:xfrm></a:x>"#, ns)), ElementPosition { x: 0, y: 0 });
    assert_eq!(position(&format!(r#"<a:x {}><a:off x="1" y="2"/></a:x>"#, ns)), ElementPosition { x: 0, y: 0 });
    assert_eq!(position(&format!(r#"<a:xfrm {}><a:ext/><a:off x="1" y="2"/><a:off x="3" y="4"/></a:xfrm>"#, ns)), ElementPosition { x: 1, y: 2 });
}

#[test]
fn nodes_outside_the_presentation_contribute_nothing() {
    let node = parse_xml_text(r#"<a:sp xmlns:a="http://schemas.openxmlformats.org/drawingml/2006/main"/>"#).unwrap();
    assert_eq!(parse_group(&node).unwrap().len(), 0);
    let node = parse_xml_text("<sp/>").unwrap();
    assert_eq!(parse_group(&node).unwrap().len(), 0);
}

fn names(list: &[&str]) -> Vec<String> {
    list.iter().map(|name| name.to_string()).collect()
}

#[test]
fn container_lists_the_slides_sorted() {
    let entries = names(&[
        "[Content_Types].xml",
        "ppt/slides/slide2.xml",
        "ppt/slides/_rels/slide2.xml.rels",
        "ppt/slides/slide10.xml",
        "ppt/media/image1.png",
        "ppt/slides/slide1.xml",
        "ppt/slides/slide1.xml",
        "ppt/slides/slide.xml",
        "ppt/slides/slideé.xml",
        "ppt/slides/slideZ.xml",
    ]);
    let container = PptxContainer::from_entry_names(&entries, ParserConfig::default());
    let mut expected = names(&[
        "ppt/slides/slide2.xml",
        "ppt/slides/slide10.xml",
        "ppt/slides/slide1.xml",
        "ppt/slides/slide1.xml",
        "ppt/slides/slide.xml",
        "ppt/slides/slideé.xml",
        "ppt/slides/slideZ.xml",
    ]);
    expected.sort();
    assert_eq!(container.slide_paths, expected);
    assert_eq!(container.slide_paths[0], "ppt/slides/slide.xml");
    assert_eq!(container.slide_paths[1], "ppt/slides/slide1.xml");
    assert_eq!(container.slide_paths[3], "ppt/slides/slide10.xml");
    assert_eq!(container.slide_count, 7);
    assert_eq!(container.get_slide_rels_path("ppt/slides/slide2.xml"), "ppt/slides/_rels/slide2.xml.rels");
    assert_eq!(PptxContainer::get_full_image_path("ppt/slides/slide2.xml", "../media/image1.png"), "ppt/media/image1.png");
}

#[test]
fn slide_is_drafted_and_finished() {
    let container = PptxContainer::from_entry_names(&names(&["ppt/slides/slide3.xml"]), ParserConfig::default());
    let draft = container.draft_slide("ppt/slides/slide3.xml", SLIDE.as_bytes(), Some(RELS.as_bytes())).unwrap();
    assert_eq!(draft.rel_path, "ppt/slides/slide3.xml");
    assert_eq!(draft.slide_number, 3);
    assert_eq!(draft.elements.len(), 8);
    assert_eq!(draft.images.len(), 2);
    assert_eq!(draft.image_paths, names(&["ppt/media/image1.png", "ppt/slides/pictures/image2.gif"]));

    let slide = container.finish_slide(draft, &vec![Some(b"png bytes".to_vec()), None]);
    assert_eq!(slide.slide_number, 3);
    assert_eq!(slide.rel_path, "ppt/slides/slide3.xml");
    assert_eq!(slide.image_data.get("rId2"), Some(&b"png bytes".to_vec()));
    assert_eq!(slide.image_data.get("rId3"), None);
    assert!(slide.image_data.contains("rId2"));
    match &slide.elements[4] {
        SlideElement::Image(image, _) => assert_eq!(image.target, "../media/image1.png"),
        other => panic!("no image: {:?}", other),
    }
    assert!(slide.config.extract_images);
}

#[test]
fn slide_without_number_in_its_path_is_slide_zero() {
    let container = PptxContainer::from_entry_names(&names(&[]), ParserConfig::default());
    let draft = container.draft_slide("ppt/slides/cover.xml", SLIDE.as_bytes(), None).unwrap();
    assert_eq!(draft.slide_number, 0);
    assert_eq!(draft.images.len(), 0);
    let draft = container.draft_slide("ppt/slides/slide99999999999.xml", SLIDE.as_bytes(), None).unwrap();
    assert_eq!(draft.slide_number, 0);
}

#[test]
fn images_are_not_read_unless_asked_for() {
    let config = ParserConfig::builder().extract_images(false).build();
    let container = PptxContainer::from_entry_names(&names(&[]), config);
    let draft = container.draft_slide("ppt/slides/slide1.xml", SLIDE.as_bytes(), Some(b"no xml at all")).unwrap();
    assert_eq!(draft.images.len(), 0);
    assert_eq!(draft.image_paths.len(), 0);
    let slide = container.finish_slide(draft, &vec![]);
    assert!(!slide.config.extract_images);
    match &slide.elements[4] {
        SlideElement::Image(image, _) => assert_eq!(image.target, ""),
        other => panic!("no image: {:?}", other),
    }
}

#[test]
fn draft_fails_with_the_slide_before_the_relationships() {
    let container = PptxContainer::from_entry_names(&names(&[]), ParserConfig::default());
    let bad_rels: [u8; 2] = [0xff, 0xff];
    assert!(matches!(container.draft_slide("s", b"<a>", Some(&bad_rels)), Err(PptxError::Xml(_))));
    assert!(matches!(container.draft_slide("s", SLIDE.as_bytes(), Some(&bad_rels)), Err(PptxError::Utf8(_))));
    assert!(matches!(container.draft_slide("s", SLIDE.as_bytes(), Some(b"<a>")), Err(PptxError::Xml(_))));
}

#[test]
fn settings_default_and_chosen() {
    let config = ParserConfig::default();
    assert!(config.extract_images);
    assert!(config.compress_images);
    assert_eq!(config.quality, 80);
    assert_eq!(config.image_handling_mode, ImageHandlingMode::InMarkdown);
    assert!(config.image_output_path.is_none());
    assert!(config.include_slide_comment);

    let config = ParserConfig::builder().build();
    assert!(config.extract_images && config.compress_images && config.include_slide_comment);
    assert_eq!(config.quality, 80);
    assert_eq!(config.image_handling_mode, ImageHandlingMode::InMarkdown);

    let config = ParserConfig::builder()
        .extract_images(false)
        .compress_images(false)
        .quality(75)
        .image_handling_mode(ImageHandlingMode::Save)
        .image_output_path(std::path::PathBuf::from("/path/to/output/dir/"))
        .include_slide_comment(false)
        .build();
    assert!(!config.extract_images);
    assert!(!config.compress_images);
    assert_eq!(config.quality, 75);
    assert_eq!(config.image_handling_mode, ImageHandlingMode::Save);
    assert_eq!(config.image_output_path, Some(std::path::PathBuf::from("/path/to/output/dir/")));
    assert!(!config.include_slide_comment);
    let copy = config.clone();
    assert_eq!(copy.image_output_path, config.image_output_path);
    assert_eq!(copy.quality, 75);
}

#[test]
fn slides_are_ordered_by_number() {
    let entries = names(&[
        "ppt/slides/slide10.xml",
        "ppt/slides/slide2.xml",
        "ppt/slides/slide1.xml",
        "ppt/slides/slideshow.xml",
        "ppt/slides/slide02.xml",
        "ppt/slides/slide100.xml",
        "ppt/slides/slide9.xml",
        "ppt/slides/slide.xml",
        "ppt/slides/slide0.xml",
    ]);
    let container = PptxContainer::from_entry_names(&entries, ParserConfig::default());
    assert_eq!(
        container.slide_paths,
        names(&[
            "ppt/slides/slide.xml",
            "ppt/slides/slide0.xml",
            "ppt/slides/slide02.xml",
            "ppt/slides/slide1.xml",
            "ppt/slides/slide10.xml",
            "ppt/slides/slide100.xml",
            "ppt/slides/slide2.xml",
            "ppt/slides/slide9.xml",
            "ppt/slides/slideshow.xml",
        ])
    );
    assert_eq!(
        container.slide_paths_by_number(),
        names(&[
            "ppt/slides/slide.xml",
            "ppt/slides/slide0.xml",
            "ppt/slides/slideshow.xml",
            "ppt/slides/slide1.xml",
            "ppt/slides/slide02.xml",
            "ppt/slides/slide2.xml",
            "ppt/slides/slide9.xml",
            "ppt/slides/slide10.xml",
            "ppt/slides/slide100.xml",
        ])
    );
    assert_eq!(
        pptx_to_md::container::order_by_slide_number(&names(&["b/slide3.xml", "a/slide3.xml", "slide3.xml", "z", "a/slide3.xml"])),
        names(&["z", "a/slide3.xml", "a/slide3.xml", "b/slide3.xml", "slide3.xml"])
    );
    assert_eq!(pptx_to_md::container::order_by_slide_number(&names(&[])).len(), 0);
}
