use pptx_to_md::{
    ElementPosition, ImageData, ImageReference, ParserConfig, Slide, SlideElement,
};

fn mock_slide() -> Slide {
    Slide {
        rel_path: "ppt/slides/slide1.xml".to_string(),
        slide_number: 1,
        elements: vec![],
        images: vec![],
        image_data: ImageData::new(),
        config: ParserConfig::default(),
    }
}

#[test]
fn test_extract_slide_number() {
    let input = "ppt/slides/slide5.xml";

    let actual = Slide::extract_slide_number(input).unwrap();
    let expected: u32 = 5;

    assert_eq!(actual, expected);
}

#[test]
fn test_get_image_extension() {
    let slide = mock_slide();
    let input = "../media/image1.png";

    let actual = slide.get_image_extension(input);
    let expected = "png";

    assert_eq!(actual, expected);
}

#[test]
fn test_link_images() {
    let mut slide = mock_slide();
    let _position = ElementPosition::default();

    slide.images.push(ImageReference {
        id: "rId2".to_string(),
        target: "../media/image1.png".to_string(),
    });
    slide.elements.push(SlideElement::Image(
        ImageReference { id: "rId2".to_string(), target: "".to_string() },
        _position,
    ));

    slide.link_images();

    if let SlideElement::Image(img_ref, _postion) = &slide.elements[0] {
        assert_eq!(img_ref.target, "../media/image1.png");
    } else {
        panic!("the element is no image");
    }
}
