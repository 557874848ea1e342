use vstd::prelude::*;
use vstd::string::*;

verus! {

/// Where a shape sits on its slide, in the units of the document.
#[derive(Debug, Clone, Copy, PartialEq, Eq, Structural)]
pub struct ElementPosition {
    pub x: i64,
    pub y: i64,
}

impl Default for ElementPosition {
    fn default() -> (position: Self)
        ensures
            position == ElementPosition::origin(),
    {
        ElementPosition { x: 0, y: 0 }
    }
}

impl ElementPosition {
    /// The position of a shape that names none.
    pub open spec fn origin() -> ElementPosition {
        ElementPosition { x: 0, y: 0 }
    }

    /// Reading order: from top to bottom, and from left to right within one height.
    pub open spec fn precedes(self, other: ElementPosition) -> bool {
        self.y < other.y || (self.y == other.y && self.x < other.x)
    }

    /// Whether `self` comes before `other` in reading order.
    pub fn is_before(&self, other: &ElementPosition) -> (before: bool)
        ensures
            before == self.precedes(*other),
    {
        self.y < other.y || (self.y == other.y && self.x < other.x)
    }
}

/// The styling of a run, as a mathematical value.
pub struct FormattingView {
    pub bold: bool,
    pub italic: bool,
    pub underlined: bool,
    pub lang: Seq<char>,
}

/// How a run of text is styled.
#[derive(Debug, Clone)]
pub struct Formatting {
    pub bold: bool,
    pub italic: bool,
    pub underlined: bool,
    pub lang: String,
}

impl DeepView for Formatting {
    type V = FormattingView;

    open spec fn deep_view(&self) -> FormattingView {
        FormattingView {
            bold: self.bold,
            italic: self.italic,
            underlined: self.underlined,
            lang: self.lang@,
        }
    }
}

impl FormattingView {
    /// No styling and no language.
    pub open spec fn plain() -> FormattingView {
        FormattingView { bold: false, italic: false, underlined: false, lang: Seq::empty() }
    }
}

impl Default for Formatting {
    fn default() -> (formatting: Self)
        ensures
            formatting.deep_view() == FormattingView::plain(),
    {
        Formatting { bold: false, italic: false, underlined: false, lang: String::new() }
    }
}

/// A run, as a mathematical value.
pub struct RunView {
    pub text: Seq<char>,
    pub formatting: FormattingView,
}

/// The smallest span of text with one styling.
#[derive(Debug, Clone)]
pub struct Run {
    pub text: String,
    pub formatting: Formatting,
}

impl DeepView for Run {
    type V = RunView;

    open spec fn deep_view(&self) -> RunView {
        RunView { text: self.text@, formatting: self.formatting.deep_view() }
    }
}

/// The text `body` between the Markdown emphasis marks that `formatting` asks for:
/// three asterisks for bold and italic together, two for bold, one underscore for italic.
pub open spec fn emphasized(body: Seq<char>, formatting: FormattingView) -> Seq<char> {
    if formatting.bold && formatting.italic {
        "***"@ + body + "***"@
    } else if formatting.bold {
        "**"@ + body + "**"@
    } else if formatting.italic {
        "_"@ + body + "_"@
    } else {
        body
    }
}

/// Whether a text ends with a line break.
pub open spec fn ends_with_newline(text: Seq<char>) -> bool {
    text.len() > 0 && text.last() == '\n'
}

/// The Markdown of a run: its text without a final line break, between the
/// emphasis marks, that inside an underline tag where the run is underlined,
/// and the line break put back behind all of it.
pub open spec fn run_markdown(run: RunView) -> Seq<char> {
    let body = if ends_with_newline(run.text) {
        run.text.drop_last()
    } else {
        run.text
    };
    let marked = emphasized(body, run.formatting);
    let tagged = if run.formatting.underlined {
        "<u>"@ + marked + "</u>"@
    } else {
        marked
    };
    if ends_with_newline(run.text) {
        tagged + "\n"@
    } else {
        tagged
    }
}

/// A run that is bold and italic and not underlined, with a text that ends
/// in no line break, shows the text between three asterisks on each side.
pub proof fn lemma_bold_italic_run(text: Seq<char>, lang: Seq<char>)
    requires
        !ends_with_newline(text),
    ensures
        run_markdown(
            RunView {
                text: text,
                formatting: FormattingView {
                    bold: true,
                    italic: true,
                    underlined: false,
                    lang: lang,
                },
            },
        ) == "***"@ + text + "***"@,
{
}

/// A run that is only bold, with a text that ends in no line break, shows the
/// text between two asterisks on each side.
pub proof fn lemma_bold_run(text: Seq<char>, lang: Seq<char>)
    requires
        !ends_with_newline(text),
    ensures
        run_markdown(
            RunView {
                text: text,
                formatting: FormattingView {
                    bold: true,
                    italic: false,
                    underlined: false,
                    lang: lang,
                },
            },
        ) == "**"@ + text + "**"@,
{
}

/// An underlined run whose text ends in no line break shows, inside an
/// underline tag, what it would show without the underline.
pub proof fn lemma_underlined_run(run: RunView)
    requires
        run.formatting.underlined,
        !ends_with_newline(run.text),
    ensures
        run_markdown(run) == "<u>"@ + run_markdown(
            RunView {
                text: run.text,
                formatting: FormattingView {
                    bold: run.formatting.bold,
                    italic: run.formatting.italic,
                    underlined: false,
                    lang: run.formatting.lang,
                },
            },
        ) + "</u>"@,
{
}

/// The Markdown of a run ends in a line break only where its text does.
pub proof fn lemma_line_break_stays_last(run: RunView)
    ensures
        ends_with_newline(run_markdown(run)) == ends_with_newline(run.text),
{
    reveal_strlit("\n");
    reveal_strlit("***");
    reveal_strlit("**");
    reveal_strlit("_");
    reveal_strlit("</u>");
    let body = if ends_with_newline(run.text) {
        run.text.drop_last()
    } else {
        run.text
    };
    let marked = emphasized(body, run.formatting);
    let tagged = if run.formatting.underlined {
        "<u>"@ + marked + "</u>"@
    } else {
        marked
    };
    if ends_with_newline(run.text) {
        assert((tagged + "\n"@).last() == '\n');
    } else {
        if run.formatting.underlined {
            assert(tagged.last() == '>');
        } else if run.formatting.bold || run.formatting.italic {
            assert(marked.last() == '*' || marked.last() == '_');
        }
    }
}

/// A line break behind a run's text is put back behind all marks and tags:
/// with it the run shows what it shows without it, and the line break.
pub proof fn lemma_line_break_is_put_back(text: Seq<char>, formatting: FormattingView)
    requires
        !ends_with_newline(text),
    ensures
        run_markdown(RunView { text: text + "\n"@, formatting: formatting }) == run_markdown(
            RunView { text: text, formatting: formatting },
        ) + "\n"@,
{
    reveal_strlit("\n");
    assert((text + "\n"@).drop_last() =~= text);
}

impl Run {
    /// The text of the run as it stands.
    pub fn extract(&self) -> (text: String)
        ensures
            text@ == self.text@,
    {
        self.text.clone()
    }

    /// The run as Markdown.
    pub fn render_as_md(&self) -> (markdown: String)
        ensures
            markdown@ == run_markdown(self.deep_view()),
    {
        let text = self.text.as_str();
        let len = text.unicode_len();
        let has_new_line = len > 0 && text.get_char(len - 1) == '\n';
        let body = if has_new_line {
            text.substring_char(0, len - 1)
        } else {
            text
        };
        proof {
            assert(text@.subrange(0, text@.len() as int) == text@);
        }
        let bold = self.formatting.bold;
        let italic = self.formatting.italic;
        let mark = if bold && italic {
            "***"
        } else if bold {
            "**"
        } else if italic {
            "_"
        } else {
            ""
        };
        let mut markdown = String::new();
        if self.formatting.underlined {
            markdown.append("<u>");
        }
        markdown.append(mark);
        markdown.append(body);
        markdown.append(mark);
        if self.formatting.underlined {
            markdown.append("</u>");
        }
        if has_new_line {
            markdown.append("\n");
        }
        proof {
            reveal_strlit("");
            assert(""@ == Seq::<char>::empty());
            assert(markdown@ =~= run_markdown(self.deep_view()));
        }
        markdown
    }
}

/// A shape of plain text: the runs of all its paragraphs.
#[derive(Debug, Clone)]
pub struct TextElement {
    pub runs: Vec<Run>,
}

impl DeepView for TextElement {
    type V = Seq<RunView>;

    open spec fn deep_view(&self) -> Seq<RunView> {
        self.runs.deep_view()
    }
}

/// One cell of a table.
#[derive(Debug, Clone)]
pub struct TableCell {
    pub runs: Vec<Run>,
}

impl DeepView for TableCell {
    type V = Seq<RunView>;

    open spec fn deep_view(&self) -> Seq<RunView> {
        self.runs.deep_view()
    }
}

/// One row of a table.
#[derive(Debug, Clone)]
pub struct TableRow {
    pub cells: Vec<TableCell>,
}

impl DeepView for TableRow {
    type V = Seq<Seq<RunView>>;

    open spec fn deep_view(&self) -> Seq<Seq<RunView>> {
        self.cells.deep_view()
    }
}

/// A table: rows of cells of runs.
#[derive(Debug, Clone)]
pub struct TableElement {
    pub rows: Vec<TableRow>,
}

impl DeepView for TableElement {
    type V = Seq<Seq<Seq<RunView>>>;

    open spec fn deep_view(&self) -> Seq<Seq<Seq<RunView>>> {
        self.rows.deep_view()
    }
}

/// A list item, as a mathematical value.
pub struct ListItemView {
    pub level: u32,
    pub is_ordered: bool,
    pub runs: Seq<RunView>,
}

/// One paragraph of a list: how deep it is indented, whether it is numbered,
/// and its runs.
#[derive(Debug, Clone)]
pub struct ListItem {
    pub level: u32,
    pub is_ordered: bool,
    pub runs: Vec<Run>,
}

impl DeepView for ListItem {
    type V = ListItemView;

    open spec fn deep_view(&self) -> ListItemView {
        ListItemView {
            level: self.level,
            is_ordered: self.is_ordered,
            runs: self.runs.deep_view(),
        }
    }
}

/// A shape whose paragraphs form a list.
#[derive(Debug, Clone)]
pub struct ListElement {
    pub items: Vec<ListItem>,
}

impl DeepView for ListElement {
    type V = Seq<ListItemView>;

    open spec fn deep_view(&self) -> Seq<ListItemView> {
        self.items.deep_view()
    }
}

/// An image reference, as a mathematical value.
pub struct ImageReferenceView {
    pub id: Seq<char>,
    pub target: Seq<char>,
}

/// A relationship id and the archive path it stands for. A picture is parsed
/// with an empty `target`, which linking fills in.
#[derive(Debug, Clone)]
pub struct ImageReference {
    pub id: String,
    pub target: String,
}

impl DeepView for ImageReference {
    type V = ImageReferenceView;

    open spec fn deep_view(&self) -> ImageReferenceView {
        ImageReferenceView { id: self.id@, target: self.target@ }
    }
}

impl ImageReference {
    /// A reference with the same id and target.
    pub fn duplicate(&self) -> (copy: ImageReference)
        ensures
            copy.deep_view() == self.deep_view(),
    {
        ImageReference { id: self.id.clone(), target: self.target.clone() }
    }
}

/// A slide element, as a mathematical value.
pub enum SlideElementView {
    Text(Seq<RunView>, ElementPosition),
    Table(Seq<Seq<Seq<RunView>>>, ElementPosition),
    Image(ImageReferenceView, ElementPosition),
    List(Seq<ListItemView>, ElementPosition),
    Unknown,
}

impl SlideElementView {
    /// The position the element carries; the origin for `Unknown`.
    pub open spec fn position(self) -> ElementPosition {
        match self {
            SlideElementView::Text(_, position) => position,
            SlideElementView::Table(_, position) => position,
            SlideElementView::Image(_, position) => position,
            SlideElementView::List(_, position) => position,
            SlideElementView::Unknown => ElementPosition::origin(),
        }
    }
}

/// What one shape of a slide contributes to its content.
#[derive(Debug, Clone)]
pub enum SlideElement {
    Text(TextElement, ElementPosition),
    Table(TableElement, ElementPosition),
    Image(ImageReference, ElementPosition),
    List(ListElement, ElementPosition),
    Unknown,
}

impl DeepView for SlideElement {
    type V = SlideElementView;

    open spec fn deep_view(&self) -> SlideElementView {
        match self {
            SlideElement::Text(text, position) => SlideElementView::Text(
                text.deep_view(),
                *position,
            ),
            SlideElement::Table(table, position) => SlideElementView::Table(
                table.deep_view(),
                *position,
            ),
            SlideElement::Image(image, position) => SlideElementView::Image(
                image.deep_view(),
                *position,
            ),
            SlideElement::List(list, position) => SlideElementView::List(
                list.deep_view(),
                *position,
            ),
            SlideElement::Unknown => SlideElementView::Unknown,
        }
    }
}

impl SlideElement {
    /// The position the element carries; the origin for `Unknown`.
    pub fn position(&self) -> (position: ElementPosition)
        ensures
            position == self.deep_view().position(),
    {
        match self {
            SlideElement::Text(_, position) => *position,
            SlideElement::Image(_, position) => *position,
            SlideElement::List(_, position) => *position,
            SlideElement::Table(_, position) => *position,
            SlideElement::Unknown => ElementPosition::default(),
        }
    }
}

} // verus!
