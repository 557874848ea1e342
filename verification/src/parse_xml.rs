use vstd::prelude::*;
use vstd::string::*;
use vstd::utf8::{decode_utf8, valid_utf8};
use crate::constants::{A_NAMESPACE, P_NAMESPACE, RELS_NAMESPACE, TABLE_URI};
use crate::error::PptxError;
use crate::text::{chars_of, parse_i64, parse_u32, parsed_i64, parsed_u32, str_eq};
use crate::types::{
    ElementPosition, Formatting, FormattingView, ImageReference, ImageReferenceView, ListElement,
    ListItem, ListItemView, Run, RunView, SlideElement, SlideElementView, TableCell, TableElement,
    TableRow, TextElement,
};
use crate::xml::{
    attribute_value, descendants, element_in, element_named, first_matching, matching, node_in,
    nodes_of, parse_document, utf8_failure, utf8_text, xml_document, Tag, XmlNode,
};

verus! {

/// Whether an attribute's value switches a flag on: `1`, or `true` in
/// whatever case.
pub open spec fn is_on(value: Seq<char>) -> bool {
    value == seq!['1'] || {
        &&& value.len() == 4
        &&& (value[0] == 't' || value[0] == 'T')
        &&& (value[1] == 'r' || value[1] == 'R')
        &&& (value[2] == 'u' || value[2] == 'U')
        &&& (value[3] == 'e' || value[3] == 'E')
    }
}

/// The styling that the properties of a run ask for: `b` and `i` switch bold
/// and italic on, any `u` but `none` underlines, and `lang` is the language.
pub open spec fn formatting_of(properties: XmlNode) -> FormattingView {
    let attributes = properties.attributes@;
    FormattingView {
        bold: match attribute_value(attributes, None, "b"@) {
            Some(value) => is_on(value),
            None => false,
        },
        italic: match attribute_value(attributes, None, "i"@) {
            Some(value) => is_on(value),
            None => false,
        },
        underlined: match attribute_value(attributes, None, "u"@) {
            Some(value) => value != "none"@,
            None => false,
        },
        lang: match attribute_value(attributes, None, "lang"@) {
            Some(value) => value,
            None => Seq::empty(),
        },
    }
}

/// The run that a run node stands for: the text of its first `t` child,
/// styled as its first `rPr` child asks. Without the one it has no text,
/// without the other no styling.
pub open spec fn run_of(node: XmlNode) -> RunView {
    RunView {
        text: match first_matching(node.children@, element_in(A_NAMESPACE@, "t"@)) {
            Some(holder) => holder.text_view(),
            None => Seq::empty(),
        },
        formatting: match first_matching(node.children@, element_in(A_NAMESPACE@, "rPr"@)) {
            Some(properties) => formatting_of(properties),
            None => FormattingView::plain(),
        },
    }
}

/// A run with a line break behind its text.
pub open spec fn with_line_break(run: RunView) -> RunView {
    RunView { text: run.text + "\n"@, formatting: run.formatting }
}

/// The runs of a paragraph: one for each `r` child. Where a line break is
/// asked for, the last of them gets it.
pub open spec fn paragraph_runs(paragraph: XmlNode, add_new_line: bool) -> Seq<RunView> {
    let nodes = matching(paragraph.children@, element_in(A_NAMESPACE@, "r"@));
    Seq::new(
        nodes.len(),
        |k: int|
            if add_new_line && k == nodes.len() - 1 {
                with_line_break(run_of(nodes[k]))
            } else {
                run_of(nodes[k])
            },
    )
}

/// The runs of the first `n` of the given paragraphs, one paragraph behind
/// the other.
pub open spec fn runs_of_first(paragraphs: Seq<XmlNode>, n: int, add_new_line: bool) -> Seq<
    RunView,
>
    decreases n,
{
    if 0 < n <= paragraphs.len() {
        runs_of_first(paragraphs, n - 1, add_new_line) + paragraph_runs(
            paragraphs[n - 1],
            add_new_line,
        )
    } else {
        Seq::empty()
    }
}

/// The paragraphs of a text body: its `p` children.
pub open spec fn paragraphs_of(body: XmlNode) -> Seq<XmlNode> {
    matching(body.children@, element_in(A_NAMESPACE@, "p"@))
}

/// The runs of a text body: those of all its paragraphs.
pub open spec fn body_runs(body: XmlNode, add_new_line: bool) -> Seq<RunView> {
    runs_of_first(paragraphs_of(body), paragraphs_of(body).len() as int, add_new_line)
}

/// The indent of a paragraph in a list: the `lvl` of its properties where
/// that is a number, else 0.
pub open spec fn list_level(paragraph: XmlNode) -> u32 {
    match first_matching(paragraph.children@, element_in(A_NAMESPACE@, "pPr"@)) {
        Some(properties) => match attribute_value(properties.attributes@, None, "lvl"@) {
            Some(value) => match parsed_u32(value) {
                Some(level) => level,
                None => 0,
            },
            None => 0,
        },
        None => 0,
    }
}

/// Whether a paragraph in a list is numbered: its properties hold a
/// `buAutoNum` or a `buChar`.
pub open spec fn list_is_ordered(paragraph: XmlNode) -> bool {
    match first_matching(paragraph.children@, element_in(A_NAMESPACE@, "pPr"@)) {
        Some(properties) => matching(
            properties.children@,
            element_in(A_NAMESPACE@, "buAutoNum"@),
        ).len() > 0 || matching(properties.children@, element_in(A_NAMESPACE@, "buChar"@)).len()
            > 0,
        None => false,
    }
}

/// The items of a list: one for each paragraph of the text body.
pub open spec fn list_items(body: XmlNode) -> Seq<ListItemView> {
    let paragraphs = paragraphs_of(body);
    Seq::new(
        paragraphs.len(),
        |k: int|
            ListItemView {
                level: list_level(paragraphs[k]),
                is_ordered: list_is_ordered(paragraphs[k]),
                runs: paragraph_runs(paragraphs[k], true),
            },
    )
}

/// Whether the properties of a paragraph speak of a list: they name a level,
/// or hold a `buAutoNum` or a `buChar`.
pub open spec fn marks_list(properties: XmlNode) -> bool {
    ||| attribute_value(properties.attributes@, None, "lvl"@) is Some
    ||| matching(properties.children@, element_named("buAutoNum"@)).len() > 0
    ||| matching(properties.children@, element_named("buChar"@)).len() > 0
}

/// Whether a text body is a list: the properties of any paragraph in it
/// speak of one.
pub open spec fn is_list_body(body: XmlNode) -> bool {
    let all = matching(descendants(body), element_in(A_NAMESPACE@, "pPr"@));
    exists|k: int| 0 <= k < all.len() && marks_list(#[trigger] all[k])
}

/// What a shape holds, as a mathematical value.
pub enum ParsedContentView {
    Text(Seq<RunView>),
    List(Seq<ListItemView>),
}

/// What a shape holds: plain text or a list.
#[derive(Debug)]
pub enum ParsedContent {
    Text(TextElement),
    List(ListElement),
}

impl DeepView for ParsedContent {
    type V = ParsedContentView;

    open spec fn deep_view(&self) -> ParsedContentView {
        match self {
            ParsedContent::Text(text) => ParsedContentView::Text(text.deep_view()),
            ParsedContent::List(list) => ParsedContentView::List(list.deep_view()),
        }
    }
}

/// What a shape holds: the list or the text of its `txBody` child. A shape
/// without one is malformed.
pub open spec fn shape_content(shape: XmlNode) -> Result<ParsedContentView, PptxError> {
    match first_matching(shape.children@, node_in(Some(P_NAMESPACE@), "txBody"@)) {
        Some(body) => if is_list_body(body) {
            Ok(ParsedContentView::List(list_items(body)))
        } else {
            Ok(ParsedContentView::Text(body_runs(body, true)))
        },
        None => Err(PptxError::Unknown),
    }
}

/// The runs of a table cell: those of its first `txBody` child, and none
/// without one. No line break parts the paragraphs.
pub open spec fn cell_runs(cell: XmlNode) -> Seq<RunView> {
    match first_matching(cell.children@, element_in(A_NAMESPACE@, "txBody"@)) {
        Some(body) => body_runs(body, false),
        None => Seq::empty(),
    }
}

/// The cells of a table row: one for each `tc` child.
pub open spec fn row_cells(row: XmlNode) -> Seq<Seq<RunView>> {
    let cells = matching(row.children@, element_in(A_NAMESPACE@, "tc"@));
    Seq::new(cells.len(), |k: int| cell_runs(cells[k]))
}

/// The rows of a table: one for each `tr` child.
pub open spec fn table_rows(table: XmlNode) -> Seq<Seq<Seq<RunView>>> {
    let rows = matching(table.children@, element_in(A_NAMESPACE@, "tr"@));
    Seq::new(rows.len(), |k: int| row_cells(rows[k]))
}

/// Whether a `graphicData` node says that it holds a table.
pub open spec fn announces_table(data: XmlNode) -> bool {
    attribute_value(data.attributes@, None, "uri"@) == Some(TABLE_URI@)
}

/// The first of the nodes that says that it holds a table.
pub open spec fn first_table_data(nodes: Seq<XmlNode>) -> Option<XmlNode>
    decreases nodes.len(),
{
    if nodes.len() == 0 {
        None
    } else if announces_table(nodes[0]) {
        Some(nodes[0])
    } else {
        first_table_data(nodes.skip(1))
    }
}

/// The table of a graphic frame: the first `tbl` child of the first
/// `graphicData` in it that says that it holds a table. A frame with
/// anything else holds none.
pub open spec fn frame_table(frame: XmlNode) -> Option<Seq<Seq<Seq<RunView>>>> {
    match first_table_data(
        matching(descendants(frame), element_in(A_NAMESPACE@, "graphicData"@)),
    ) {
        Some(data) => match first_matching(data.children@, element_in(A_NAMESPACE@, "tbl"@)) {
            Some(table) => Some(table_rows(table)),
            None => None,
        },
        None => None,
    }
}

/// The relationship id that a `blip` embeds: its `embed` attribute in the
/// relationships namespace, else one written `r:embed` without a namespace.
pub open spec fn embedded_id(blip: XmlNode) -> Option<Seq<char>> {
    match attribute_value(blip.attributes@, Some(RELS_NAMESPACE@), "embed"@) {
        Some(id) => Some(id),
        None => attribute_value(blip.attributes@, None, "r:embed"@),
    }
}

/// The image that a picture refers to: the id that the first `blip` in it
/// embeds, with no target yet. A picture without a `blip`, or whose `blip`
/// embeds nothing, names no image.
pub open spec fn picture_reference(picture: XmlNode) -> Result<ImageReferenceView, PptxError> {
    match first_matching(descendants(picture), element_in(A_NAMESPACE@, "blip"@)) {
        Some(blip) => match embedded_id(blip) {
            Some(id) => Ok(ImageReferenceView { id: id, target: Seq::empty() }),
            None => Err(PptxError::ImageNotFound),
        },
        None => Err(PptxError::ImageNotFound),
    }
}

/// The number that an attribute of an offset holds.
pub open spec fn coordinate(offset: XmlNode, name: Seq<char>) -> Option<i64> {
    match attribute_value(offset.attributes@, None, name) {
        Some(value) => parsed_i64(value),
        None => None,
    }
}

/// Where a shape sits: the `x` and `y` of the first `off` of the first `xfrm`
/// in it, and the origin where one of the two is missing or no number.
pub open spec fn position_of(node: XmlNode) -> ElementPosition {
    match first_matching(descendants(node), node_in(Some(A_NAMESPACE@), "xfrm"@)) {
        Some(transform) => match first_matching(
            transform.children@,
            node_in(Some(A_NAMESPACE@), "off"@),
        ) {
            Some(offset) => match (coordinate(offset, "x"@), coordinate(offset, "y"@)) {
                (Some(x), Some(y)) => ElementPosition { x: x, y: y },
                _ => ElementPosition::origin(),
            },
            None => ElementPosition::origin(),
        },
        None => ElementPosition::origin(),
    }
}

/// What a node of the shape tree contributes: nothing outside the
/// presentation namespace; the text or list of a shape, the table of a
/// graphic frame where it holds one, the image of a picture, each at its
/// position; for a group what its element children contribute, one behind
/// the other; `Unknown` for anything else. A malformed shape or picture in
/// it makes the whole fail.
pub open spec fn group_elements(node: XmlNode) -> Result<Seq<SlideElementView>, PptxError>
    decreases node,
{
    if node.namespace_view() != Some(P_NAMESPACE@) {
        Ok(Seq::empty())
    } else if node.name@ == "sp"@ {
        match shape_content(node) {
            Ok(ParsedContentView::Text(runs)) => Ok(
                seq![SlideElementView::Text(runs, position_of(node))],
            ),
            Ok(ParsedContentView::List(items)) => Ok(
                seq![SlideElementView::List(items, position_of(node))],
            ),
            Err(error) => Err(error),
        }
    } else if node.name@ == "graphicFrame"@ {
        match frame_table(node) {
            Some(rows) => Ok(seq![SlideElementView::Table(rows, position_of(node))]),
            None => Ok(Seq::empty()),
        }
    } else if node.name@ == "pic"@ {
        match picture_reference(node) {
            Ok(image) => Ok(seq![SlideElementView::Image(image, position_of(node))]),
            Err(error) => Err(error),
        }
    } else if node.name@ == "grpSp"@ {
        elements_of_first(node.children@, node.children@.len() as int)
    } else {
        Ok(seq![SlideElementView::Unknown])
    }
}

/// What the elements among the first `n` of the given nodes contribute, one
/// behind the other; the failure of the first that fails.
pub open spec fn elements_of_first(nodes: Seq<XmlNode>, n: int) -> Result<
    Seq<SlideElementView>,
    PptxError,
>
    decreases nodes, n,
{
    if 0 < n <= nodes.len() {
        match elements_of_first(nodes, n - 1) {
            Ok(before) => if nodes[n - 1].is_element {
                match group_elements(nodes[n - 1]) {
                    Ok(more) => Ok(before + more),
                    Err(error) => Err(error),
                }
            } else {
                Ok(before)
            },
            Err(error) => Err(error),
        }
    } else {
        Ok(Seq::empty())
    }
}

/// The elements of a slide whose root element is given: what the children of
/// its shape tree contribute. The shape tree is the first `spTree` child of
/// the first `cSld` in the document, both in the namespace of the root; a
/// document without them is no slide.
pub open spec fn slide_elements(root: XmlNode) -> Result<Seq<SlideElementView>, PptxError> {
    match first_matching(descendants(root), node_in(root.namespace_view(), "cSld"@)) {
        Some(content) => match first_matching(
            content.children@,
            node_in(root.namespace_view(), "spTree"@),
        ) {
            Some(tree) => elements_of_first(tree.children@, tree.children@.len() as int),
            None => Err(PptxError::Unknown),
        },
        None => Err(PptxError::Unknown),
    }
}

/// The elements of the slide that the bytes hold: they are UTF-8 text, the
/// text is an XML document, and the document is a slide.
pub open spec fn slide_xml_elements(xml_data: Seq<u8>) -> Result<Seq<SlideElementView>, PptxError> {
    if valid_utf8(xml_data) {
        match xml_document(decode_utf8(xml_data)) {
            Ok(root) => slide_elements(root),
            Err(error) => Err(PptxError::Xml(error)),
        }
    } else {
        Err(PptxError::Utf8(utf8_failure(xml_data)))
    }
}

/// Whether a result is the expected one: the same failure, or a value with
/// the expected view.
pub open spec fn yields<T: DeepView>(
    result: Result<T, PptxError>,
    expected: Result<T::V, PptxError>,
) -> bool {
    match result {
        Ok(value) => expected == Ok::<T::V, PptxError>(value.deep_view()),
        Err(error) => expected == Err::<T::V, PptxError>(error),
    }
}

fn flag_is_on(value: &str) -> (on: bool)
    ensures
        on == is_on(value@),
{
    let chars = chars_of(value);
    if chars.len() == 1 {
        proof {
            if chars@[0] == '1' {
                assert(chars@ =~= seq!['1']);
            }
        }
        chars[0] == '1'
    } else if chars.len() == 4 {
        (chars[0] == 't' || chars[0] == 'T') && (chars[1] == 'r' || chars[1] == 'R') && (chars[2]
            == 'u' || chars[2] == 'U') && (chars[3] == 'e' || chars[3] == 'E')
    } else {
        false
    }
}

/// The run that a run node stands for.
pub fn parse_run(r_node: &XmlNode) -> (run: Result<Run, PptxError>)
    ensures
        run matches Ok(parsed) && parsed.deep_view() == run_of(*r_node),
{
    let mut text = String::new();
    let mut formatting = Formatting::default();
    if let Some(properties) = r_node.first_child_matching(&Tag::element_in(A_NAMESPACE, "rPr")) {
        if let Some(value) = properties.attribute("b") {
            formatting.bold = flag_is_on(value);
        }
        if let Some(value) = properties.attribute("i") {
            formatting.italic = flag_is_on(value);
        }
        if let Some(value) = properties.attribute("u") {
            formatting.underlined = !str_eq(value, "none");
        }
        if let Some(value) = properties.attribute("lang") {
            formatting.lang = value.to_owned();
        }
    }
    if let Some(holder) = r_node.first_child_matching(&Tag::element_in(A_NAMESPACE, "t")) {
        if let Some(held) = &holder.text {
            text.append(held.as_str());
        }
    }
    let run = Run { text, formatting };
    proof {
        assert(run.deep_view().text =~= run_of(*r_node).text);
        assert(run.deep_view().formatting.lang =~= run_of(*r_node).formatting.lang);
    }
    Ok(run)
}

/// The runs of a paragraph.
pub fn parse_paragraph(p_node: &XmlNode, add_new_line: bool) -> (runs: Result<
    Vec<Run>,
    PptxError,
>)
    ensures
        runs matches Ok(parsed) && parsed.deep_view() == paragraph_runs(*p_node, add_new_line),
{
    let run_nodes = p_node.children_matching(&Tag::element_in(A_NAMESPACE, "r"));
    let count = run_nodes.len();
    let ghost nodes = matching(p_node.children@, element_in(A_NAMESPACE@, "r"@));
    let ghost expected = paragraph_runs(*p_node, add_new_line);
    let mut runs: Vec<Run> = Vec::new();
    let mut idx: usize = 0;
    while idx < count
        invariant
            idx <= count,
            count == run_nodes@.len(),
            nodes == nodes_of(run_nodes@),
            nodes == matching(p_node.children@, element_in(A_NAMESPACE@, "r"@)),
            expected == paragraph_runs(*p_node, add_new_line),
            runs.deep_view() =~= expected.take(idx as int),
        decreases count - idx,
    {
        assert(nodes[idx as int] == *run_nodes@[idx as int]);
        let mut run = match parse_run(run_nodes[idx]) {
            Ok(run) => run,
            Err(error) => {
                return Err(error);
            },
        };
        if add_new_line && idx == count - 1 {
            run.text.append("\n");
        }
        let ghost before = runs.deep_view();
        runs.push(run);
        proof {
            assert(runs.deep_view() =~= before.push(run.deep_view()));
            assert(run.deep_view() == expected[idx as int]);
            assert(runs.deep_view() =~= expected.take(idx + 1));
        }
        idx += 1;
    }
    proof {
        assert(expected.take(count as int) =~= expected);
    }
    Ok(runs)
}

/// The runs of all paragraphs of a text body, one paragraph behind the other.
fn parse_body_runs(body: &XmlNode, add_new_line: bool) -> (runs: Result<Vec<Run>, PptxError>)
    ensures
        runs matches Ok(parsed) && parsed.deep_view() == body_runs(*body, add_new_line),
{
    let paragraphs = body.children_matching(&Tag::element_in(A_NAMESPACE, "p"));
    let ghost nodes = paragraphs_of(*body);
    let mut runs: Vec<Run> = Vec::new();
    let mut k: usize = 0;
    while k < paragraphs.len()
        invariant
            k <= paragraphs.len(),
            nodes == nodes_of(paragraphs@),
            nodes == paragraphs_of(*body),
            runs.deep_view() =~= runs_of_first(nodes, k as int, add_new_line),
        decreases paragraphs.len() - k,
    {
        assert(nodes[k as int] == *paragraphs@[k as int]);
        let mut more = match parse_paragraph(paragraphs[k], add_new_line) {
            Ok(more) => more,
            Err(error) => {
                return Err(error);
            },
        };
        let ghost before = runs.deep_view();
        let ghost added = more.deep_view();
        runs.append(&mut more);
        proof {
            assert(runs.deep_view() =~= before + added);
        }
        k += 1;
    }
    Ok(runs)
}

/// The text of a text body: the runs of all its paragraphs, each paragraph
/// with a line break behind its last run.
pub fn parse_text(tx_body_node: &XmlNode) -> (text: Result<TextElement, PptxError>)
    ensures
        text matches Ok(parsed) && parsed.deep_view() == body_runs(*tx_body_node, true),
{
    match parse_body_runs(tx_body_node, true) {
        Ok(runs) => Ok(TextElement { runs }),
        Err(error) => Err(error),
    }
}

/// The indent of a paragraph in a list, and whether it is numbered.
pub fn parse_list_properties(p_node: &XmlNode) -> (properties: Result<(u32, bool), PptxError>)
    ensures
        properties matches Ok(parsed) && parsed.0 == list_level(*p_node) && parsed.1
            == list_is_ordered(*p_node),
{
    let mut level: u32 = 0;
    let mut is_ordered = false;
    if let Some(properties) = p_node.first_child_matching(&Tag::element_in(A_NAMESPACE, "pPr")) {
        if let Some(value) = properties.attribute("lvl") {
            level = match parse_u32(value) {
                Some(level) => level,
                None => 0,
            };
        }
        is_ordered = properties.children_matching(
            &Tag::element_in(A_NAMESPACE, "buAutoNum"),
        ).len() > 0;
        if !is_ordered {
            is_ordered = properties.children_matching(
                &Tag::element_in(A_NAMESPACE, "buChar"),
            ).len() > 0;
        }
    }
    Ok((level, is_ordered))
}

/// The list of a text body: one item for each paragraph.
pub fn parse_list(tx_body_node: &XmlNode) -> (list: Result<ListElement, PptxError>)
    ensures
        list matches Ok(parsed) && parsed.deep_view() == list_items(*tx_body_node),
{
    let paragraphs = tx_body_node.children_matching(&Tag::element_in(A_NAMESPACE, "p"));
    let ghost nodes = paragraphs_of(*tx_body_node);
    let ghost expected = list_items(*tx_body_node);
    let mut items: Vec<ListItem> = Vec::new();
    let mut k: usize = 0;
    while k < paragraphs.len()
        invariant
            k <= paragraphs.len(),
            nodes == nodes_of(paragraphs@),
            nodes == paragraphs_of(*tx_body_node),
            expected == list_items(*tx_body_node),
            items.deep_view() =~= expected.take(k as int),
        decreases paragraphs.len() - k,
    {
        assert(nodes[k as int] == *paragraphs@[k as int]);
        let (level, is_ordered) = match parse_list_properties(paragraphs[k]) {
            Ok(properties) => properties,
            Err(error) => {
                return Err(error);
            },
        };
        let runs = match parse_paragraph(paragraphs[k], true) {
            Ok(runs) => runs,
            Err(error) => {
                return Err(error);
            },
        };
        let ghost before = items.deep_view();
        let item = ListItem { level, is_ordered, runs };
        items.push(item);
        proof {
            assert(items.deep_view() =~= before.push(item.deep_view()));
            assert(items.deep_view() =~= expected.take(k + 1));
        }
        k += 1;
    }
    proof {
        assert(expected.take(paragraphs.len() as int) =~= expected);
    }
    Ok(ListElement { items })
}

fn properties_mark_list(properties: &XmlNode) -> (yes: bool)
    ensures
        yes == marks_list(*properties),
{
    properties.attribute("lvl").is_some() || properties.children_matching(
        &Tag::element_named("buAutoNum"),
    ).len() > 0 || properties.children_matching(&Tag::element_named("buChar")).len() > 0
}

fn body_is_list(body: &XmlNode) -> (yes: bool)
    ensures
        yes == is_list_body(*body),
{
    let all = body.descendants_matching(&Tag::element_in(A_NAMESPACE, "pPr"));
    let ghost nodes = matching(descendants(*body), element_in(A_NAMESPACE@, "pPr"@));
    let mut k: usize = 0;
    while k < all.len()
        invariant
            k <= all.len(),
            nodes == nodes_of(all@),
            nodes == matching(descendants(*body), element_in(A_NAMESPACE@, "pPr"@)),
            forall|j: int| 0 <= j < k ==> !marks_list(#[trigger] nodes[j]),
        decreases all.len() - k,
    {
        assert(nodes[k as int] == *all@[k as int]);
        if properties_mark_list(all[k]) {
            return true;
        }
        k += 1;
    }
    false
}

/// What a shape holds: the list or the text of its text body.
pub fn parse_sp(sp_node: &XmlNode) -> (content: Result<ParsedContent, PptxError>)
    ensures
        yields(content, shape_content(*sp_node)),
{
    let body = match sp_node.first_child_matching(&Tag::node_in(Some(P_NAMESPACE), "txBody")) {
        Some(body) => body,
        None => {
            return Err(PptxError::Unknown);
        },
    };
    if body_is_list(body) {
        match parse_list(body) {
            Ok(list) => Ok(ParsedContent::List(list)),
            Err(error) => Err(error),
        }
    } else {
        match parse_text(body) {
            Ok(text) => Ok(ParsedContent::Text(text)),
            Err(error) => Err(error),
        }
    }
}

/// The cell that a `tc` node stands for.
pub fn parse_table_cell(tc_node: &XmlNode) -> (cell: Result<TableCell, PptxError>)
    ensures
        cell matches Ok(parsed) && parsed.deep_view() == cell_runs(*tc_node),
{
    match tc_node.first_child_matching(&Tag::element_in(A_NAMESPACE, "txBody")) {
        Some(body) => match parse_body_runs(body, false) {
            Ok(runs) => Ok(TableCell { runs }),
            Err(error) => Err(error),
        },
        None => {
            let cell = TableCell { runs: Vec::new() };
            proof {
                assert(cell.deep_view() =~= Seq::<RunView>::empty());
            }
            Ok(cell)
        },
    }
}

/// The row that a `tr` node stands for.
pub fn parse_table_row(tr_node: &XmlNode) -> (row: Result<TableRow, PptxError>)
    ensures
        row matches Ok(parsed) && parsed.deep_view() == row_cells(*tr_node),
{
    let cell_nodes = tr_node.children_matching(&Tag::element_in(A_NAMESPACE, "tc"));
    let ghost nodes = matching(tr_node.children@, element_in(A_NAMESPACE@, "tc"@));
    let ghost expected = row_cells(*tr_node);
    let mut cells: Vec<TableCell> = Vec::new();
    let mut k: usize = 0;
    while k < cell_nodes.len()
        invariant
            k <= cell_nodes.len(),
            nodes == nodes_of(cell_nodes@),
            nodes == matching(tr_node.children@, element_in(A_NAMESPACE@, "tc"@)),
            expected == row_cells(*tr_node),
            cells.deep_view() =~= expected.take(k as int),
        decreases cell_nodes.len() - k,
    {
        assert(nodes[k as int] == *cell_nodes@[k as int]);
        let cell = match parse_table_cell(cell_nodes[k]) {
            Ok(cell) => cell,
            Err(error) => {
                return Err(error);
            },
        };
        let ghost before = cells.deep_view();
        cells.push(cell);
        proof {
            assert(cells.deep_view() =~= before.push(cell.deep_view()));
            assert(cells.deep_view() =~= expected.take(k + 1));
        }
        k += 1;
    }
    proof {
        assert(expected.take(cell_nodes.len() as int) =~= expected);
    }
    Ok(TableRow { cells })
}

/// The table that a `tbl` node stands for.
pub fn parse_table(tbl_node: &XmlNode) -> (table: Result<TableElement, PptxError>)
    ensures
        table matches Ok(parsed) && parsed.deep_view() == table_rows(*tbl_node),
{
    let row_nodes = tbl_node.children_matching(&Tag::element_in(A_NAMESPACE, "tr"));
    let ghost nodes = matching(tbl_node.children@, element_in(A_NAMESPACE@, "tr"@));
    let ghost expected = table_rows(*tbl_node);
    let mut rows: Vec<TableRow> = Vec::new();
    let mut k: usize = 0;
    while k < row_nodes.len()
        invariant
            k <= row_nodes.len(),
            nodes == nodes_of(row_nodes@),
            nodes == matching(tbl_node.children@, element_in(A_NAMESPACE@, "tr"@)),
            expected == table_rows(*tbl_node),
            rows.deep_view() =~= expected.take(k as int),
        decreases row_nodes.len() - k,
    {
        assert(nodes[k as int] == *row_nodes@[k as int]);
        let row = match parse_table_row(row_nodes[k]) {
            Ok(row) => row,
            Err(error) => {
                return Err(error);
            },
        };
        let ghost before = rows.deep_view();
        rows.push(row);
        proof {
            assert(rows.deep_view() =~= before.push(row.deep_view()));
            assert(rows.deep_view() =~= expected.take(k + 1));
        }
        k += 1;
    }
    proof {
        assert(expected.take(row_nodes.len() as int) =~= expected);
    }
    Ok(TableElement { rows })
}

/// The table of a graphic frame, where it holds one.
pub fn parse_graphic_frame(node: &XmlNode) -> (table: Result<Option<TableElement>, PptxError>)
    ensures
        table matches Ok(parsed) && match parsed {
            Some(found) => frame_table(*node) == Some(found.deep_view()),
            None => frame_table(*node) is None,
        },
{
    let candidates = node.descendants_matching(&Tag::element_in(A_NAMESPACE, "graphicData"));
    let ghost nodes = matching(descendants(*node), element_in(A_NAMESPACE@, "graphicData"@));
    let mut k: usize = 0;
    proof {
        assert(nodes.skip(0) =~= nodes);
    }
    while k < candidates.len()
        invariant
            k <= candidates.len(),
            nodes == nodes_of(candidates@),
            nodes == matching(descendants(*node), element_in(A_NAMESPACE@, "graphicData"@)),
            first_table_data(nodes) == first_table_data(nodes.skip(k as int)),
        decreases candidates.len() - k,
    {
        assert(nodes[k as int] == *candidates@[k as int]);
        proof {
            assert(nodes.skip(k as int).skip(1) =~= nodes.skip(k + 1));
        }
        let announces = match candidates[k].attribute("uri") {
            Some(uri) => str_eq(uri, TABLE_URI),
            None => false,
        };
        if announces {
            return match candidates[k].first_child_matching(
                &Tag::element_in(A_NAMESPACE, "tbl"),
            ) {
                Some(table_node) => match parse_table(table_node) {
                    Ok(table) => Ok(Some(table)),
                    Err(error) => Err(error),
                },
                None => Ok(None),
            };
        }
        k += 1;
    }
    Ok(None)
}

/// The image that a picture refers to, with no target yet.
pub fn parse_pic(pic_node: &XmlNode) -> (image: Result<ImageReference, PptxError>)
    ensures
        yields(image, picture_reference(*pic_node)),
{
    let blip = match pic_node.first_descendant_matching(&Tag::element_in(A_NAMESPACE, "blip")) {
        Some(blip) => blip,
        None => {
            return Err(PptxError::ImageNotFound);
        },
    };
    let id = match blip.attribute_in(RELS_NAMESPACE, "embed") {
        Some(id) => id,
        None => match blip.attribute("r:embed") {
            Some(id) => id,
            None => {
                return Err(PptxError::ImageNotFound);
            },
        },
    };
    Ok(ImageReference { id: id.to_owned(), target: String::new() })
}

fn read_coordinate(offset: &XmlNode, name: &str) -> (value: Option<i64>)
    ensures
        value == coordinate(*offset, name@),
{
    match offset.attribute(name) {
        Some(text) => parse_i64(text),
        None => None,
    }
}

/// Where a shape sits on the slide.
pub fn extract_position(node: &XmlNode) -> (position: ElementPosition)
    ensures
        position == position_of(*node),
{
    let transform = match node.first_descendant_matching(
        &Tag::node_in(Some(A_NAMESPACE), "xfrm"),
    ) {
        Some(transform) => transform,
        None => {
            return ElementPosition::default();
        },
    };
    let offset = match transform.first_child_matching(&Tag::node_in(Some(A_NAMESPACE), "off")) {
        Some(offset) => offset,
        None => {
            return ElementPosition::default();
        },
    };
    match read_coordinate(offset, "x") {
        Some(x) => match read_coordinate(offset, "y") {
            Some(y) => ElementPosition { x, y },
            None => ElementPosition::default(),
        },
        None => ElementPosition::default(),
    }
}

/// What a node of the shape tree contributes to the slide.
pub fn parse_group(node: &XmlNode) -> (elements: Result<Vec<SlideElement>, PptxError>)
    ensures
        yields(elements, group_elements(*node)),
    decreases node,
{
    let mut elements: Vec<SlideElement> = Vec::new();
    let in_presentation = match &node.namespace {
        Some(uri) => str_eq(uri.as_str(), P_NAMESPACE),
        None => false,
    };
    if !in_presentation {
        proof {
            assert(elements.deep_view() =~= Seq::<SlideElementView>::empty());
        }
        return Ok(elements);
    }
    let name = node.name.as_str();
    if str_eq(name, "sp") {
        let position = extract_position(node);
        match parse_sp(node) {
            Ok(ParsedContent::Text(text)) => {
                let element = SlideElement::Text(text, position);
                elements.push(element);
                proof {
                    assert(elements.deep_view() =~= seq![element.deep_view()]);
                }
            },
            Ok(ParsedContent::List(list)) => {
                let element = SlideElement::List(list, position);
                elements.push(element);
                proof {
                    assert(elements.deep_view() =~= seq![element.deep_view()]);
                }
            },
            Err(error) => {
                return Err(error);
            },
        }
    } else if str_eq(name, "graphicFrame") {
        match parse_graphic_frame(node) {
            Ok(Some(table)) => {
                let element = SlideElement::Table(table, extract_position(node));
                elements.push(element);
                proof {
                    assert(elements.deep_view() =~= seq![element.deep_view()]);
                }
            },
            Ok(None) => {
                proof {
                    assert(elements.deep_view() =~= Seq::<SlideElementView>::empty());
                }
            },
            Err(error) => {
                return Err(error);
            },
        }
    } else if str_eq(name, "pic") {
        match parse_pic(node) {
            Ok(image) => {
                let element = SlideElement::Image(image, extract_position(node));
                elements.push(element);
                proof {
                    assert(elements.deep_view() =~= seq![element.deep_view()]);
                }
            },
            Err(error) => {
                return Err(error);
            },
        }
    } else if str_eq(name, "grpSp") {
        return parse_element_children(node);
    } else {
        elements.push(SlideElement::Unknown);
        proof {
            assert(elements.deep_view() =~= seq![SlideElementView::Unknown]);
        }
    }
    Ok(elements)
}

/// What the element children of a node contribute to the slide, one behind
/// the other.
fn parse_element_children(node: &XmlNode) -> (elements: Result<Vec<SlideElement>, PptxError>)
    ensures
        yields(elements, elements_of_first(node.children@, node.children@.len() as int)),
    decreases node, 0nat,
{
    let mut elements: Vec<SlideElement> = Vec::new();
    let mut k: usize = 0;
    proof {
        assert(elements.deep_view() =~= Seq::<SlideElementView>::empty());
    }
    while k < node.children.len()
        invariant
            k <= node.children.len(),
            elements_of_first(node.children@, k as int) == Ok::<Seq<SlideElementView>, PptxError>(
                elements.deep_view(),
            ),
        decreases node.children.len() - k,
    {
        let child = &node.children[k];
        if child.is_element {
            let mut more = match parse_group(child) {
                Ok(more) => more,
                Err(error) => {
                    proof {
                        lemma_first_failure(node.children@, k + 1, node.children@.len() as int);
                    }
                    return Err(error);
                },
            };
            let ghost before = elements.deep_view();
            let ghost added = more.deep_view();
            elements.append(&mut more);
            proof {
                assert(elements.deep_view() =~= before + added);
            }
        }
        k += 1;
    }
    Ok(elements)
}

proof fn lemma_first_failure(nodes: Seq<XmlNode>, n: int, m: int)
    requires
        0 <= n <= m <= nodes.len(),
        elements_of_first(nodes, n) is Err,
    ensures
        elements_of_first(nodes, m) == elements_of_first(nodes, n),
    decreases m - n,
{
    if n < m {
        lemma_first_failure(nodes, n, m - 1);
    }
}

/// The elements of a slide whose root element is given.
pub fn parse_slide_tree(root: &XmlNode) -> (elements: Result<Vec<SlideElement>, PptxError>)
    ensures
        yields(elements, slide_elements(*root)),
{
    let namespace = match &root.namespace {
        Some(uri) => Some(uri.as_str()),
        None => None,
    };
    let content = match root.first_descendant_matching(&Tag::node_in(namespace, "cSld")) {
        Some(content) => content,
        None => {
            return Err(PptxError::Unknown);
        },
    };
    let tree = match content.first_child_matching(&Tag::node_in(namespace, "spTree")) {
        Some(tree) => tree,
        None => {
            return Err(PptxError::Unknown);
        },
    };
    parse_element_children(tree)
}

/// The elements of the slide that the bytes of a slide part hold.
pub fn parse_slide_xml(xml_data: &[u8]) -> (elements: Result<Vec<SlideElement>, PptxError>)
    ensures
        yields(elements, slide_xml_elements(xml_data@)),
{
    let text = match utf8_text(xml_data) {
        Ok(text) => text,
        Err(error) => {
            return Err(PptxError::Utf8(error));
        },
    };
    match parse_document(text) {
        Ok(root) => parse_slide_tree(&root),
        Err(error) => Err(PptxError::Xml(error)),
    }
}

} // verus!
