use pptx_to_md::{
    ElementPosition, Formatting, ImageData, ImageHandlingMode, ImageLink, ImageReference,
    ListElement, ListItem, ParserConfig, Run, Slide, SlideElement, TableCell, TableElement,
    TableRow, TextElement,
};

fn normalize_test_string(input: &str) -> String {
    input
        .trim_start_matches('\u{feff}')
        .replace("\r\n", "\n")
        .replace("    ", "\t")
        .trim()
        .to_string()
}

fn plain(text: &str) -> Run {
    Run { text: text.into(), formatting: Formatting::default() }
}

fn styled(text: &str, bold: bool, italic: bool, underlined: bool) -> Run {
    Run {
        text: text.into(),
        formatting: Formatting { bold, italic, underlined, lang: "en-US".into() },
    }
}

fn cell(text: &str) -> TableCell {
    TableCell { runs: vec![plain(text)] }
}

fn at(x: i64, y: i64) -> ElementPosition {
    ElementPosition { x, y }
}

fn slide_with(number: u32, elements: Vec<SlideElement>, config: ParserConfig) -> Slide {
    Slide {
        rel_path: format!("ppt/slides/slide{}.xml", number),
        slide_number: number,
        elements,
        images: vec![],
        image_data: ImageData::new(),
        config,
    }
}

fn bare() -> ParserConfig {
    ParserConfig::builder().include_slide_comment(false).build()
}

#[test]
fn test_markdown_table_conversion() {
    let slide = Slide {
        rel_path: "ppt/slides/slide1.xml".to_string(),
        slide_number: 1,
        elements: vec![SlideElement::Table(
            TableElement {
                rows: vec![
                    TableRow {
                        cells: vec![
                            TableCell { runs: vec![Run { text: "First name".into(), formatting: Formatting::default() }] },
                            TableCell { runs: vec![Run { text: "Last name".into(), formatting: Formatting::default() }] },
                            TableCell { runs: vec![Run { text: "Age".into(), formatting: Formatting::default() }] },
                        ],
                    },
                    TableRow {
                        cells: vec![
                            TableCell { runs: vec![Run { text: "John".into(), formatting: Formatting::default() }] },
                            TableCell { runs: vec![Run { text: "Doe".into(), formatting: Formatting::default() }] },
                            TableCell { runs: vec![Run { text: "21".into(), formatting: Formatting::default() }] },
                        ],
                    },
                ],
            },
            ElementPosition::default(),
        )],
        images: vec![],
        image_data: ImageData::new(),
        config: ParserConfig::default(),
    };
    let md_result = slide.convert_to_md().unwrap();

    let expected_md = "<!-- Slide 1 -->\n\n| First name | Last name | Age |\n| --- | --- | --- |\n| John | Doe | 21 |\n";

    assert_eq!(normalize_test_string(&md_result), normalize_test_string(expected_md));
}

#[test]
fn test_markdown_list_conversion() {
    let slide = Slide {
        rel_path: "ppt/slides/slide2.xml".to_string(),
        slide_number: 2,
        elements: vec![SlideElement::List(
            ListElement {
                items: vec![
                    ListItem { level: 0, is_ordered: false, runs: vec![Run { text: "Layer 1 Element 1".into(), formatting: Formatting::default() }] },
                    ListItem { level: 1, is_ordered: false, runs: vec![Run { text: "Layer 2 Element 1".into(), formatting: Formatting::default() }] },
                    ListItem { level: 1, is_ordered: false, runs: vec![Run { text: "Layer 2 Element 2".into(), formatting: Formatting::default() }] },
                    ListItem { level: 0, is_ordered: false, runs: vec![Run { text: "Layer 1 Element 2".into(), formatting: Formatting::default() }] },
                ],
            },
            ElementPosition::default(),
        )],
        images: vec![],
        image_data: ImageData::new(),
        config: ParserConfig::default(),
    };

    let md_result = slide.convert_to_md().unwrap();
    let expected_md = "<!-- Slide 2 -->\n\n- Layer 1 Element 1\n    - Layer 2 Element 1\n    - Layer 2 Element 2\n- Layer 1 Element 2\n";

    assert_eq!(normalize_test_string(&md_result), normalize_test_string(expected_md));
}

#[test]
fn test_formatting_conversion() {
    let slide = Slide {
        rel_path: "ppt/slides/slide1.xml".to_string(),
        slide_number: 1,
        elements: vec![
            SlideElement::Text(TextElement { runs: vec![Run { text: "bold\n".into(), formatting: Formatting { bold: true, italic: false, underlined: false, lang: "en-US".into() } }] }, ElementPosition::default()),
            SlideElement::Text(TextElement { runs: vec![Run { text: "cursive\n".into(), formatting: Formatting { bold: false, italic: true, underlined: false, lang: "en-US".into() } }] }, ElementPosition::default()),
            SlideElement::Text(TextElement { runs: vec![Run { text: "underlined\n".into(), formatting: Formatting { bold: false, italic: false, underlined: true, lang: "en-US".into() } }] }, ElementPosition::default()),
            SlideElement::Text(TextElement { runs: vec![Run { text: "bold and cursive\n".into(), formatting: Formatting { bold: true, italic: true, underlined: false, lang: "en-US".into() } }] }, ElementPosition::default()),
            SlideElement::Text(TextElement { runs: vec![Run { text: "bold, cursive and underlined\n".into(), formatting: Formatting { bold: true, italic: true, underlined: true, lang: "en-US".into() } }] }, ElementPosition::default()),
        ],
        images: vec![],
        image_data: ImageData::new(),
        config: ParserConfig::default(),
    };

    let md_result = slide.convert_to_md().unwrap();
    let expected_md = "<!-- Slide 1 -->\n\n**bold**\n\n_cursive_\n\n<u>underlined</u>\n\n***bold and cursive***\n\n<u>***bold, cursive and underlined***</u>\n\n";

    assert_eq!(md_result, expected_md);
}

#[test]
fn run_markdown_by_styling() {
    assert_eq!(styled("text", true, true, false).render_as_md(), "***text***");
    assert_eq!(styled("text", true, false, false).render_as_md(), "**text**");
    assert_eq!(styled("text", false, true, false).render_as_md(), "_text_");
    assert_eq!(styled("text", false, false, false).render_as_md(), "text");
    assert_eq!(styled("text", false, false, true).render_as_md(), "<u>text</u>");
    assert_eq!(styled("text", true, false, true).render_as_md(), "<u>**text**</u>");
    assert_eq!(styled("text", false, true, true).render_as_md(), "<u>_text_</u>");
    assert_eq!(styled("text", true, true, true).render_as_md(), "<u>***text***</u>");
}

#[test]
fn run_markdown_keeps_line_break_last() {
    assert_eq!(styled("text\n", true, true, true).render_as_md(), "<u>***text***</u>\n");
    assert_eq!(styled("text\n", false, false, false).render_as_md(), "text\n");
    assert_eq!(styled("\n", true, false, false).render_as_md(), "****\n");
    assert_eq!(styled("", true, false, false).render_as_md(), "****");
}

#[test]
fn run_markdown_strips_one_line_break_only() {
    assert_eq!(styled("a\nb\n", true, false, false).render_as_md(), "**a\nb**\n");
    assert_eq!(styled("a\n\n", false, true, false).render_as_md(), "_a\n_\n");
}

#[test]
fn run_extract_gives_text_as_it_stands() {
    assert_eq!(styled("a *b*\n", true, true, true).extract(), "a *b*\n");
}

#[test]
fn ordered_list_numbers_restart_below_and_go_on_above() {
    let item = |level: u32, text: &str| ListItem { level, is_ordered: true, runs: vec![plain(text)] };
    let list = ListElement { items: vec![item(0, "a"), item(1, "b"), item(1, "c"), item(0, "d")] };
    let slide = slide_with(1, vec![SlideElement::List(list, at(0, 0))], bare());
    assert_eq!(slide.convert_to_md().unwrap(), "1. a\n\t1. b\n\t2. c\n2. d\n");
}

#[test]
fn list_counters_of_deeper_levels_are_dropped_on_the_way_up() {
    let item = |level: u32| ListItem { level, is_ordered: true, runs: vec![plain("x")] };
    let levels: Vec<u32> = vec![0, 2, 1, 2, 2, 0, 1, 3, 3, 1];
    let list = ListElement { items: levels.iter().map(|l| item(*l)).collect() };
    let slide = slide_with(1, vec![SlideElement::List(list, at(0, 0))], bare());
    let expected = "1. x\n\t\t1. x\n\t1. x\n\t\t1. x\n\t\t2. x\n2. x\n\t1. x\n\t\t\t1. x\n\t\t\t2. x\n\t2. x\n";
    assert_eq!(slide.convert_to_md().unwrap(), expected);
}

#[test]
fn list_that_starts_below_the_top_counts_from_one() {
    let item = |level: u32, ordered: bool| ListItem { level, is_ordered: ordered, runs: vec![plain("x")] };
    let list = ListElement { items: vec![item(1, true), item(1, false), item(1, true), item(0, true)] };
    let slide = slide_with(1, vec![SlideElement::List(list, at(0, 0))], bare());
    assert_eq!(slide.convert_to_md().unwrap(), "\t1. x\n\t- x\n\t3. x\n1. x\n");
}

#[test]
fn list_numbers_go_beyond_one_digit() {
    let items: Vec<ListItem> = (0..12).map(|_| ListItem { level: 0, is_ordered: true, runs: vec![] }).collect();
    let slide = slide_with(1, vec![SlideElement::List(ListElement { items }, at(0, 0))], bare());
    let md = slide.convert_to_md().unwrap();
    assert!(md.ends_with("9. \n10. \n11. \n12. \n"));
}

#[test]
fn list_item_text_is_not_marked_up() {
    let list = ListElement {
        items: vec![ListItem { level: 0, is_ordered: false, runs: vec![styled("a", true, true, true), plain("b")] }],
    };
    let slide = slide_with(1, vec![SlideElement::List(list, at(0, 0))], bare());
    assert_eq!(slide.convert_to_md().unwrap(), "- ab\n");
}

#[test]
fn table_has_a_line_per_row_and_a_separator() {
    let rows = 4;
    let columns = 3;
    let table = TableElement {
        rows: (0..rows)
            .map(|r| TableRow { cells: (0..columns).map(|c| cell(&format!("r{}c{}", r, c))).collect() })
            .collect(),
    };
    let slide = slide_with(1, vec![SlideElement::Table(table, at(0, 0))], bare());
    let md = slide.convert_to_md().unwrap();
    let lines: Vec<&str> = md.trim_end().split('\n').collect();
    assert_eq!(lines.len(), rows + 1);
    for line in &lines {
        assert_eq!(line.matches('|').count(), columns + 1);
    }
    assert_eq!(lines[0], "| r0c0 | r0c1 | r0c2 |");
    assert_eq!(lines[1], "| --- | --- | --- |");
    assert_eq!(lines[4], "| r3c0 | r3c1 | r3c2 |");
    assert!(md.ends_with("|\n\n"));
}

#[test]
fn table_cell_text_joins_runs_without_markup() {
    let table = TableElement {
        rows: vec![TableRow {
            cells: vec![TableCell { runs: vec![styled("a", true, false, false), plain("b")] }, TableCell { runs: vec![] }],
        }],
    };
    let slide = slide_with(1, vec![SlideElement::Table(table, at(0, 0))], bare());
    assert_eq!(slide.convert_to_md().unwrap(), "| ab |  |\n| --- | --- |\n\n");
}

#[test]
fn table_without_rows_is_an_empty_line() {
    let slide = slide_with(1, vec![SlideElement::Table(TableElement { rows: vec![] }, at(0, 0))], bare());
    assert_eq!(slide.convert_to_md().unwrap(), "\n");
}

#[test]
fn elements_are_rendered_top_down_then_left_to_right() {
    let text = |t: &str, x: i64, y: i64| SlideElement::Text(TextElement { runs: vec![plain(t)] }, at(x, y));
    let slide = slide_with(
        1,
        vec![text("d", 5, 10), text("b", 9, 1), text("c", -3, 10), text("a", 2, 1), text("e", 5, 10), text("z", 0, -7)],
        bare(),
    );
    assert_eq!(slide.convert_to_md().unwrap(), "z\na\nb\nc\nd\ne\n");
}

#[test]
fn elements_of_one_position_keep_their_order() {
    let text = |t: &str| SlideElement::Text(TextElement { runs: vec![plain(t)] }, at(1, 1));
    let slide = slide_with(1, vec![text("1"), text("2"), SlideElement::Unknown, text("3")], bare());
    assert_eq!(slide.convert_to_md().unwrap(), "1\n2\n3\n");
}

#[test]
fn unknown_elements_sit_at_the_origin_and_show_nothing() {
    let text = |t: &str, x: i64, y: i64| SlideElement::Text(TextElement { runs: vec![plain(t)] }, at(x, y));
    let slide = slide_with(9, vec![SlideElement::Unknown, text("a", 0, 1), SlideElement::Unknown], ParserConfig::default());
    assert_eq!(slide.convert_to_md().unwrap(), "<!-- Slide 9 -->\n\na\n");
    assert_eq!(SlideElement::Unknown.position(), ElementPosition { x: 0, y: 0 });
    assert_eq!(text("a", 4, -2).position(), ElementPosition { x: 4, y: -2 });
}

#[test]
fn slide_comment_holds_the_number() {
    let slide = slide_with(4294967295, vec![], ParserConfig::default());
    assert_eq!(slide.convert_to_md().unwrap(), "<!-- Slide 4294967295 -->\n\n");
    let slide = slide_with(0, vec![], ParserConfig::default());
    assert_eq!(slide.convert_to_md().unwrap(), "<!-- Slide 0 -->\n\n");
    let slide = slide_with(7, vec![], bare());
    assert_eq!(slide.convert_to_md().unwrap(), "");
}

#[test]
fn slide_with_text_table_and_list() {
    let config = ParserConfig::builder().include_slide_comment(true).build();
    let list = ListElement {
        items: vec![
            ListItem { level: 0, is_ordered: false, runs: vec![plain("one")] },
            ListItem { level: 0, is_ordered: false, runs: vec![plain("two")] },
        ],
    };
    let table = TableElement {
        rows: vec![TableRow { cells: vec![cell("a"), cell("b")] }, TableRow { cells: vec![cell("c"), cell("d")] }],
    };
    let text = TextElement { runs: vec![styled("Hello", true, true, false)] };
    let slide = slide_with(
        3,
        vec![
            SlideElement::List(list, at(0, 300)),
            SlideElement::Table(table, at(0, 200)),
            SlideElement::Text(text, at(0, 100)),
        ],
        config,
    );
    let expected = "<!-- Slide 3 -->\n\n***Hello***\n| a | b |\n| --- | --- |\n| c | d |\n\n- one\n- two\n";
    assert_eq!(slide.convert_to_md().unwrap(), expected);
}

fn image(id: &str, target: &str, x: i64, y: i64) -> SlideElement {
    SlideElement::Image(ImageReference { id: id.into(), target: target.into() }, at(x, y))
}

#[test]
fn image_is_embedded_as_base64() {
    let config = ParserConfig::builder().compress_images(false).include_slide_comment(false).build();
    let mut slide = slide_with(1, vec![image("rId2", "../media/image1.png", 0, 0)], config);
    slide.image_data.insert("rId2".to_string(), b"hello".to_vec());
    assert_eq!(slide.convert_to_md().unwrap(), "![image1.png](data:image/png;base64,aGVsbG8=)\n");
}

#[test]
fn image_without_data_leaves_only_its_line_break() {
    let config = ParserConfig::builder().compress_images(false).include_slide_comment(false).build();
    let text = SlideElement::Text(TextElement { runs: vec![plain("after")] }, at(0, 5));
    let mut slide = slide_with(1, vec![image("rId9", "../media/x.png", 0, 0), text, image("rId2", "y.gif", 0, 9)], config);
    slide.image_data.insert("rId2".to_string(), vec![0u8, 255u8]);
    assert_eq!(slide.convert_to_md().unwrap(), "\nafter\n![y.gif](data:image/gif;base64,AP8=)\n");
}

#[test]
fn image_that_cannot_be_encoded_is_left_out() {
    let config = ParserConfig::builder().compress_images(true).include_slide_comment(false).build();
    let text = SlideElement::Text(TextElement { runs: vec![plain("after")] }, at(0, 5));
    let mut slide = slide_with(1, vec![image("rId2", "../media/x.png", 0, 0), text], config);
    slide.image_data.insert("rId2".to_string(), b"this is no picture".to_vec());
    assert_eq!(slide.convert_to_md().unwrap(), "\nafter\n");
    assert!(slide.load_images_manually().is_none());
    assert!(slide.compress_image(b"this is no picture").is_none());
}

#[test]
fn image_handled_by_the_caller_shows_nothing() {
    let config = ParserConfig::builder()
        .compress_images(false)
        .image_handling_mode(ImageHandlingMode::Manually)
        .include_slide_comment(false)
        .build();
    let mut slide = slide_with(1, vec![image("rId2", "../media/x.png", 0, 0), image("rId3", "", 1, 0), image("rId4", "z.bmp", 2, 0)], config);
    slide.image_data.insert("rId2".to_string(), b"hello".to_vec());
    slide.image_data.insert("rId4".to_string(), b"hi".to_vec());
    assert_eq!(slide.convert_to_md().unwrap(), "");
    let images = slide.load_images_manually().unwrap();
    assert_eq!(images.len(), 2);
    assert_eq!(images[0].base64_content, "aGVsbG8=");
    assert_eq!(images[0].img_ref.id, "rId2");
    assert_eq!(images[0].img_ref.target, "../media/x.png");
    assert_eq!(images[1].base64_content, "aGk=");
    assert_eq!(images[1].img_ref.id, "rId4");
}

#[test]
fn saved_images_are_named_and_linked() {
    let config = ParserConfig::builder()
        .compress_images(false)
        .image_handling_mode(ImageHandlingMode::Save)
        .image_output_path("out")
        .include_slide_comment(false)
        .build();
    let mut slide = slide_with(
        12,
        vec![image("rId3", "../media/b", 0, 20), image("rId2", "../media/a.png", 0, 10), image("rId5", "c.gif", 0, 15)],
        config,
    );
    slide.image_data.insert("rId2".to_string(), b"first".to_vec());
    slide.image_data.insert("rId3".to_string(), b"second".to_vec());
    let files = slide.images_to_save();
    assert_eq!(files.len(), 2);
    assert_eq!(files[0].file_name, "slide12_image1_rId2.png");
    assert_eq!(files[0].data, b"first".to_vec());
    assert_eq!(files[1].file_name, "slide12_image2_rId3.bin");
    assert_eq!(files[1].data, b"second".to_vec());

    assert_eq!(slide.convert_to_md().unwrap(), "\n\n\n");
    let links = vec![
        ImageLink { file_name: "slide12_image2_rId3.bin".into(), url: "file:///tmp/out/slide12_image2_rId3.bin".into() },
        ImageLink { file_name: "slide12_image1_rId2.png".into(), url: "file:///tmp/o\"ut/slide12_image1_rId2.png".into() },
        ImageLink { file_name: "slide12_image1_rId2.png".into(), url: "file:///later".into() },
    ];
    let md = slide.convert_to_md_with_links(&links);
    let expected = "<a href=\"file:///tmp/o\\\"ut/slide12_image1_rId2.png\">slide12_image1_rId2.png</a>\n\n\n<a href=\"file:///tmp/out/slide12_image2_rId3.bin\">slide12_image2_rId3.bin</a>\n\n";
    assert_eq!(md, expected);
}

#[test]
fn nothing_is_saved_unless_images_are_saved() {
    let config = ParserConfig::builder().compress_images(false).build();
    let mut slide = slide_with(1, vec![image("rId2", "a.png", 0, 0)], config);
    slide.image_data.insert("rId2".to_string(), b"first".to_vec());
    assert_eq!(slide.images_to_save().len(), 0);
}

#[test]
fn linking_fills_empty_targets_only() {
    let mut slide = slide_with(
        1,
        vec![
            image("rId2", "", 0, 0),
            image("rId7", "", 0, 0),
            image("rId3", "kept.png", 0, 0),
            SlideElement::Unknown,
            image("rId3", "", 0, 0),
        ],
        bare(),
    );
    slide.images = vec![
        ImageReference { id: "rId2".into(), target: "../media/image1.png".into() },
        ImageReference { id: "rId3".into(), target: "../media/early.png".into() },
        ImageReference { id: "rId3".into(), target: "../media/late.png".into() },
    ];
    slide.link_images();
    let targets = |slide: &Slide| -> Vec<String> {
        slide
            .elements
            .iter()
            .map(|e| match e {
                SlideElement::Image(image, _) => image.target.clone(),
                _ => "-".to_string(),
            })
            .collect()
    };
    let once = targets(&slide);
    assert_eq!(once, vec!["../media/image1.png", "", "kept.png", "-", "../media/late.png"]);
    slide.link_images();
    assert_eq!(targets(&slide), once);
    assert_eq!(slide.images.len(), 3);
    assert_eq!(slide.elements.len(), 5);
}

#[test]
fn image_handled_by_the_caller_leaves_the_rest_as_it_is() {
    let config = ParserConfig::builder()
        .image_handling_mode(ImageHandlingMode::Manually)
        .include_slide_comment(false)
        .build();
    let mut slide = slide_with(1, vec![image("rId2", "../media/image1.png", 0, 0)], config);
    slide.image_data.insert("rId2".to_string(), vec![1u8]);
    assert_eq!(slide.convert_to_md(), Some("".to_string()));

    let config = ParserConfig::builder().image_handling_mode(ImageHandlingMode::Manually).build();
    let text = |t: &str, y: i64| SlideElement::Text(TextElement { runs: vec![plain(t)] }, at(0, y));
    let slide = slide_with(5, vec![text("a", 1), image("rId2", "x.png", 0, 2), text("b", 3)], config);
    assert_eq!(slide.convert_to_md().unwrap(), "<!-- Slide 5 -->\n\na\nb\n");
}
