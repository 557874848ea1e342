use vstd::prelude::*;
use vstd::hash_map::StringHashMap;
use vstd::string::*;
use crate::codec::{
    base64_text, debug_quoted, encode_base64, jpeg_recoded, quote_debug, recode_as_jpeg,
};
use crate::markdown::{
    append_list, append_table, append_text, items_markdown, table_markdown, text_markdown,
};
use crate::order::{in_reading_order, positions_of, reading_order, sorted_indices};
use crate::parser_config::{ImageHandlingMode, ParserConfig};
use crate::paths::{extract_slide_number, image_extension, image_extension_of, slide_number_in};
use crate::text::{decimal_string, decimal_text, last_segment, last_segment_of, str_eq};
use crate::types::{
    ImageReference, ImageReferenceView, SlideElement, SlideElementView,
};

verus! {

/// The bytes of the images of a slide, each under its relationship id.
pub struct ImageData {
    map: StringHashMap<Vec<u8>>,
}

impl View for ImageData {
    type V = Map<Seq<char>, Seq<u8>>;

    closed spec fn view(&self) -> Map<Seq<char>, Seq<u8>> {
        self.map@.map_values(|bytes: Vec<u8>| bytes@)
    }
}

impl ImageData {
    /// No image at all.
    pub fn new() -> (data: Self)
        ensures
            data@ == Map::<Seq<char>, Seq<u8>>::empty(),
    {
        let data = ImageData { map: StringHashMap::new() };
        proof {
            assert(data@ =~= Map::<Seq<char>, Seq<u8>>::empty());
        }
        data
    }

    /// Puts the bytes of an image under its id, in place of what was there.
    pub fn insert(&mut self, id: String, bytes: Vec<u8>)
        ensures
            final(self)@ == old(self)@.insert(id@, bytes@),
    {
        self.map.insert(id, bytes);
        proof {
            assert(self@ =~= old(self)@.insert(id@, bytes@));
        }
    }

    /// The bytes under an id.
    pub fn get(&self, id: &str) -> (found: Option<&Vec<u8>>)
        ensures
            match found {
                Some(bytes) => self@.contains_key(id@) && bytes@ == self@[id@],
                None => !self@.contains_key(id@),
            },
    {
        self.map.get(id)
    }

    /// Whether there are bytes under an id.
    pub fn contains(&self, id: &str) -> (yes: bool)
        ensures
            yes == self@.contains_key(id@),
    {
        self.map.contains_key(id)
    }
}

/// A saved image's link, as a mathematical value.
pub struct ImageLinkView {
    pub file_name: Seq<char>,
    pub url: Seq<char>,
}

/// Where a file that was written for an image can be found.
#[derive(Debug, Clone)]
pub struct ImageLink {
    pub file_name: String,
    pub url: String,
}

impl DeepView for ImageLink {
    type V = ImageLinkView;

    open spec fn deep_view(&self) -> ImageLinkView {
        ImageLinkView { file_name: self.file_name@, url: self.url@ }
    }
}

/// A slide, as a mathematical value.
pub struct SlideView {
    pub rel_path: Seq<char>,
    pub slide_number: u32,
    pub elements: Seq<SlideElementView>,
    pub images: Seq<ImageReferenceView>,
    pub image_data: Map<Seq<char>, Seq<u8>>,
    pub config: ParserConfig,
}

/// One slide of a presentation: what its shapes hold, the images its
/// relationships name, the bytes of those images, and the settings it is
/// rendered with.
///
/// Rendering writes no file. Where images are to be saved,
/// [`Slide::images_to_save`] names the files and holds their bytes, the
/// caller writes them, and [`Slide::convert_to_md_with_links`] links to
/// those that were written.
pub struct Slide {
    pub rel_path: String,
    pub slide_number: u32,
    pub elements: Vec<SlideElement>,
    pub images: Vec<ImageReference>,
    pub image_data: ImageData,
    pub config: ParserConfig,
}

impl DeepView for Slide {
    type V = SlideView;

    open spec fn deep_view(&self) -> SlideView {
        SlideView {
            rel_path: self.rel_path@,
            slide_number: self.slide_number,
            elements: self.elements.deep_view(),
            images: self.images.deep_view(),
            image_data: self.image_data@,
            config: self.config,
        }
    }
}

/// The slides of a presentation, in their order.
pub struct Presentation {
    pub slides: Vec<Slide>,
}

/// The comment that a slide's Markdown starts with: the slide's number, and
/// an empty line behind it.
pub open spec fn slide_comment(slide_number: u32) -> Seq<char> {
    "<!-- Slide "@ + decimal_text(slide_number as nat) + " -->\n\n"@
}

/// The bytes that stand for an image outside the slide: its JPEG encoding
/// where images are compressed, the bytes as they are where not. There are
/// none where the encoding fails.
pub open spec fn image_payload(raw: Seq<u8>, config: ParserConfig) -> Option<Seq<u8>> {
    if config.compress_images {
        jpeg_recoded(raw, config.quality)
    } else {
        Some(raw)
    }
}

/// The name of an embedded image: the last segment of its target.
pub open spec fn inline_image_name(image: ImageReferenceView) -> Seq<char> {
    last_segment(image.target, '/')
}

/// The image type that an embedded image is announced as: `jpg` where images
/// are compressed, else what follows the last full stop of its name.
pub open spec fn inline_image_type(image: ImageReferenceView, config: ParserConfig) -> Seq<char> {
    if config.compress_images {
        "jpg"@
    } else {
        last_segment(inline_image_name(image), '.')
    }
}

/// A Markdown image with the payload as a base64 data URL.
pub open spec fn inline_image(
    image: ImageReferenceView,
    payload: Seq<u8>,
    config: ParserConfig,
) -> Seq<char> {
    "!["@ + inline_image_name(image) + "](data:image/"@ + inline_image_type(image, config)
        + ";base64,"@ + base64_text(payload) + ")"@
}

/// The name of the file that an image is saved to: the slide's number, the
/// image's ordinal among the images of the slide that have data, its id, and
/// `jpg` where images are compressed, else the extension of its target.
pub open spec fn saved_image_name(
    slide_number: u32,
    ordinal: nat,
    image: ImageReferenceView,
    config: ParserConfig,
) -> Seq<char> {
    let extension = if config.compress_images {
        "jpg"@
    } else {
        image_extension_of(image.target)
    };
    "slide"@ + decimal_text(slide_number as nat) + "_image"@ + decimal_text(ordinal) + "_"@
        + image.id + "."@ + extension
}

/// The URL of the first link for the given file name.
pub open spec fn link_for(links: Seq<ImageLinkView>, file_name: Seq<char>) -> Option<Seq<char>>
    decreases links.len(),
{
    if links.len() == 0 {
        None
    } else if links[0].file_name == file_name {
        Some(links[0].url)
    } else {
        link_for(links.skip(1), file_name)
    }
}

/// An HTML anchor that shows the file's name and leads to its URL, on a line
/// of its own.
pub open spec fn saved_image_link(file_name: Seq<char>, url: Seq<char>) -> Seq<char> {
    "<a href="@ + debug_quoted(url) + ">"@ + file_name + "</a>"@ + "\n"@
}

/// The Markdown of a picture. `ordinal` counts the pictures with data up to
/// and including this one.
///
/// Embedded, it is the image as a data URL; saved, the link to its file;
/// each with a line break behind it. A picture without data, one whose
/// encoding fails and one whose file has no link leave only that line break.
/// A picture that the caller handles leaves nothing at all.
pub open spec fn image_markdown(
    slide: SlideView,
    image: ImageReferenceView,
    ordinal: nat,
    links: Seq<ImageLinkView>,
) -> Seq<char> {
    match slide.config.image_handling_mode {
        ImageHandlingMode::InMarkdown => {
            let shown = if slide.image_data.contains_key(image.id) {
                match image_payload(slide.image_data[image.id], slide.config) {
                    Some(payload) => inline_image(image, payload, slide.config),
                    None => Seq::empty(),
                }
            } else {
                Seq::empty()
            };
            shown + "\n"@
        },
        ImageHandlingMode::Save => {
            let file_name = saved_image_name(slide.slide_number, ordinal, image, slide.config);
            let shown = if slide.image_data.contains_key(image.id) {
                match link_for(links, file_name) {
                    Some(url) => saved_image_link(file_name, url),
                    None => Seq::empty(),
                }
            } else {
                Seq::empty()
            };
            shown + "\n"@
        },
        ImageHandlingMode::Manually => Seq::empty(),
    }
}

/// A picture whose id the slide has no bytes for shows no image: where
/// pictures are embedded or saved it leaves only the line break that ends
/// them, and nothing where the caller handles them.
pub proof fn lemma_image_without_data(
    slide: SlideView,
    image: ImageReferenceView,
    ordinal: nat,
    links: Seq<ImageLinkView>,
)
    requires
        !slide.image_data.contains_key(image.id),
    ensures
        image_markdown(slide, image, ordinal, links) == if slide.config.image_handling_mode
            == ImageHandlingMode::Manually {
            Seq::<char>::empty()
        } else {
            "\n"@
        },
{
    assert(Seq::<char>::empty() + "\n"@ =~= "\n"@);
}

/// A picture that the caller handles leaves nothing in the Markdown, with
/// its bytes or without.
pub proof fn lemma_image_handled_by_the_caller(
    slide: SlideView,
    image: ImageReferenceView,
    ordinal: nat,
    links: Seq<ImageLinkView>,
)
    requires
        slide.config.image_handling_mode == ImageHandlingMode::Manually,
    ensures
        image_markdown(slide, image, ordinal, links) == Seq::<char>::empty(),
{
}

/// Whether the element is a picture that the slide has the bytes of.
pub open spec fn is_image_with_data(slide: SlideView, element: SlideElementView) -> bool {
    match element {
        SlideElementView::Image(image, _) => slide.image_data.contains_key(image.id),
        _ => false,
    }
}

/// How many of the elements are pictures that the slide has the bytes of.
pub open spec fn images_among(slide: SlideView, elements: Seq<SlideElementView>) -> nat
    decreases elements.len(),
{
    if elements.len() == 0 {
        0
    } else {
        images_among(slide, elements.drop_last()) + if is_image_with_data(slide, elements.last()) {
            1nat
        } else {
            0nat
        }
    }
}

/// The Markdown of one element; an unknown one has none.
pub open spec fn element_markdown(
    slide: SlideView,
    element: SlideElementView,
    ordinal: nat,
    links: Seq<ImageLinkView>,
) -> Seq<char> {
    match element {
        SlideElementView::Text(runs, _) => text_markdown(runs),
        SlideElementView::Table(rows, _) => table_markdown(rows),
        SlideElementView::List(items, _) => items_markdown(items),
        SlideElementView::Image(image, _) => image_markdown(slide, image, ordinal, links),
        SlideElementView::Unknown => Seq::empty(),
    }
}

/// The Markdown of the given elements, one behind the other.
pub open spec fn elements_markdown(
    slide: SlideView,
    elements: Seq<SlideElementView>,
    links: Seq<ImageLinkView>,
) -> Seq<char>
    decreases elements.len(),
{
    if elements.len() == 0 {
        Seq::empty()
    } else {
        let before = elements.drop_last();
        elements_markdown(slide, before, links) + element_markdown(
            slide,
            elements.last(),
            images_among(slide, before) + 1,
            links,
        )
    }
}

/// The Markdown of a slide: the comment with its number where that is asked
/// for, then its elements in reading order.
pub open spec fn slide_markdown(slide: SlideView, links: Seq<ImageLinkView>) -> Seq<char> {
    let comment = if slide.config.include_slide_comment {
        slide_comment(slide.slide_number)
    } else {
        Seq::empty()
    };
    comment + elements_markdown(slide, in_reading_order(slide.elements), links)
}

impl Slide {
    pub fn new(
        rel_path: String,
        slide_number: u32,
        elements: Vec<SlideElement>,
        images: Vec<ImageReference>,
        image_data: ImageData,
        config: ParserConfig,
    ) -> (slide: Self)
        ensures
            slide.rel_path == rel_path,
            slide.slide_number == slide_number,
            slide.elements == elements,
            slide.images == images,
            slide.image_data == image_data,
            slide.config == config,
    {
        Slide { rel_path, slide_number, elements, images, image_data, config }
    }

    /// The number in the name of a slide part, as in `ppt/slides/slide5.xml`.
    pub fn extract_slide_number(path: &str) -> (number: Option<u32>)
        ensures
            number == slide_number_in(path@),
    {
        extract_slide_number(path)
    }

    /// The extension of the file that a path names, and `bin` where it has none.
    pub fn get_image_extension(&self, path: &str) -> (extension: String)
        ensures
            extension@ == image_extension_of(path@),
    {
        image_extension(path)
    }

    /// The JPEG encoding of an image at the quality that the slide's settings name.
    pub fn compress_image(&self, image_data: &[u8]) -> (jpeg: Option<Vec<u8>>)
        ensures
            match jpeg {
                Some(bytes) => jpeg_recoded(image_data@, self.config.quality) == Some(bytes@),
                None => jpeg_recoded(image_data@, self.config.quality) is None,
            },
    {
        recode_as_jpeg(image_data, self.config.quality)
    }

    /// The bytes that stand for an image outside the slide.
    fn payload_of(&self, raw: &Vec<u8>) -> (payload: Option<Vec<u8>>)
        ensures
            match payload {
                Some(bytes) => image_payload(raw@, self.config) == Some(bytes@),
                None => image_payload(raw@, self.config) is None,
            },
    {
        if self.config.compress_images {
            self.compress_image(raw.as_slice())
        } else {
            Some(raw.clone())
        }
    }

    /// The name of the file that the picture with the given ordinal is saved to.
    fn saved_name(&self, ordinal: usize, image: &ImageReference) -> (name: String)
        ensures
            name@ == saved_image_name(
                self.slide_number,
                ordinal as nat,
                image.deep_view(),
                self.config,
            ),
    {
        let mut name = String::from_str("slide");
        name.append(decimal_string(self.slide_number as u64).as_str());
        name.append("_image");
        name.append(decimal_string(ordinal as u64).as_str());
        name.append("_");
        name.append(image.id.as_str());
        name.append(".");
        if self.config.compress_images {
            name.append("jpg");
        } else {
            name.append(image_extension(image.target.as_str()).as_str());
        }
        proof {
            assert(name@ =~= saved_image_name(
                self.slide_number,
                ordinal as nat,
                image.deep_view(),
                self.config,
            ));
        }
        name
    }

    /// Appends the Markdown of a picture.
    fn append_image(
        &self,
        out: &mut String,
        image: &ImageReference,
        ordinal: usize,
        links: &Vec<ImageLink>,
    )
        ensures
            final(out)@ == old(out)@ + image_markdown(
                self.deep_view(),
                image.deep_view(),
                ordinal as nat,
                links.deep_view(),
            ),
    {
        let ghost start = out@;
        match self.config.image_handling_mode {
            ImageHandlingMode::InMarkdown => {
                if let Some(raw) = self.image_data.get(image.id.as_str()) {
                    if let Some(payload) = self.payload_of(raw) {
                        let name = last_segment_of(image.target.as_str(), '/');
                        out.append("![");
                        out.append(name);
                        out.append("](data:image/");
                        if self.config.compress_images {
                            out.append("jpg");
                        } else {
                            out.append(last_segment_of(name, '.'));
                        }
                        out.append(";base64,");
                        out.append(encode_base64(payload.as_slice()).as_str());
                        out.append(")");
                    }
                }
                out.append("\n");
            },
            ImageHandlingMode::Save => {
                if self.image_data.contains(image.id.as_str()) {
                    let file_name = self.saved_name(ordinal, image);
                    if let Some(url) = find_link(links, file_name.as_str()) {
                        out.append("<a href=");
                        out.append(quote_debug(url).as_str());
                        out.append(">");
                        out.append(file_name.as_str());
                        out.append("</a>");
                        out.append("\n");
                    }
                }
                out.append("\n");
            },
            ImageHandlingMode::Manually => {},
        }
        proof {
            assert(out@ =~= start + image_markdown(
                self.deep_view(),
                image.deep_view(),
                ordinal as nat,
                links.deep_view(),
            ));
        }
    }

    /// The slide as Markdown, with a link for each picture that was saved to
    /// a file and has an entry in `links` under that file's name.
    pub fn convert_to_md_with_links(&self, links: &Vec<ImageLink>) -> (markdown: String)
        ensures
            markdown@ == slide_markdown(self.deep_view(), links.deep_view()),
    {
        let ghost slide = self.deep_view();
        let ghost ordered = in_reading_order(slide.elements);
        let mut out = String::new();
        if self.config.include_slide_comment {
            out.append("<!-- Slide ");
            out.append(decimal_string(self.slide_number as u64).as_str());
            out.append(" -->\n\n");
        }
        let ghost comment = out@;
        let order = sorted_indices(&self.elements);
        let mut seen: usize = 0;
        let mut a: usize = 0;
        proof {
            assert(ordered.take(0) =~= Seq::<SlideElementView>::empty());
            assert(comment + Seq::<char>::empty() =~= comment);
        }
        while a < order.len()
            invariant
                a <= order.len(),
                slide == self.deep_view(),
                ordered == in_reading_order(slide.elements),
                order@.len() == self.elements@.len(),
                order@.map_values(|k: usize| k as int) == reading_order(
                    positions_of(self.elements.deep_view()),
                ),
                forall|b: int| 0 <= b < order@.len() ==> #[trigger] order@[b] < self.elements@.len(),
                out@ == comment + elements_markdown(slide, ordered.take(a as int), links.deep_view()),
                seen == images_among(slide, ordered.take(a as int)),
                seen <= a,
            decreases order.len() - a,
        {
            let element = &self.elements[order[a]];
            let ghost upto = ordered.take(a + 1);
            proof {
                assert(upto.drop_last() =~= ordered.take(a as int));
                assert(order@.map_values(|k: usize| k as int)[a as int] == order@[a as int]);
                assert(upto.last() == element.deep_view());
            }
            match element {
                SlideElement::Text(text, _) => {
                    append_text(&mut out, text);
                },
                SlideElement::Table(table, _) => {
                    append_table(&mut out, table);
                },
                SlideElement::List(list, _) => {
                    append_list(&mut out, list);
                },
                SlideElement::Image(image, _) => {
                    self.append_image(&mut out, image, seen + 1, links);
                    if self.image_data.contains(image.id.as_str()) {
                        seen += 1;
                    }
                },
                SlideElement::Unknown => {},
            }
            proof {
                assert(out@ =~= comment + elements_markdown(slide, upto, links.deep_view()));
            }
            a += 1;
        }
        proof {
            assert(ordered.take(order.len() as int) =~= ordered);
        }
        out
    }

    /// The slide as Markdown. Pictures that are to be saved to files are left
    /// out, as no file has a link: see [`Slide::convert_to_md_with_links`].
    pub fn convert_to_md(&self) -> (markdown: Option<String>)
        ensures
            match markdown {
                Some(text) => text@ == slide_markdown(self.deep_view(), Seq::empty()),
                None => false,
            },
    {
        let links: Vec<ImageLink> = Vec::new();
        proof {
            assert(links.deep_view() =~= Seq::<ImageLinkView>::empty());
        }
        Some(self.convert_to_md_with_links(&links))
    }
}

/// The URL of the first link for the given file name.
pub fn find_link<'a>(links: &'a Vec<ImageLink>, file_name: &str) -> (url: Option<&'a str>)
    ensures
        match url {
            Some(found) => link_for(links.deep_view(), file_name@) == Some(found@),
            None => link_for(links.deep_view(), file_name@) is None,
        },
{
    let ghost views = links.deep_view();
    let mut i: usize = 0;
    proof {
        assert(views.skip(0) =~= views);
    }
    while i < links.len()
        invariant
            i <= links.len(),
            views == links.deep_view(),
            link_for(views, file_name@) == link_for(views.skip(i as int), file_name@),
        decreases links.len() - i,
    {
        proof {
            assert(views.skip(i as int)[0] == links@[i as int].deep_view());
            assert(views.skip(i as int).skip(1) =~= views.skip(i + 1));
        }
        if str_eq(links[i].file_name.as_str(), file_name) {
            return Some(links[i].url.as_str());
        }
        i += 1;
    }
    None
}

/// The target that the relationships give for an id: that of the last one
/// with this id.
pub open spec fn target_of(images: Seq<ImageReferenceView>, id: Seq<char>) -> Option<Seq<char>>
    decreases images.len(),
{
    if images.len() == 0 {
        None
    } else if images.last().id == id {
        Some(images.last().target)
    } else {
        target_of(images.drop_last(), id)
    }
}

/// A picture's reference after linking: an empty target is filled in from
/// the relationships, where they know the id. Any other stays as it is.
pub open spec fn linked_image(
    image: ImageReferenceView,
    images: Seq<ImageReferenceView>,
) -> ImageReferenceView {
    match target_of(images, image.id) {
        Some(target) => if image.target.len() == 0 {
            ImageReferenceView { id: image.id, target: target }
        } else {
            image
        },
        None => image,
    }
}

/// An element after linking: only a picture's reference can change.
pub open spec fn linked_element(
    element: SlideElementView,
    images: Seq<ImageReferenceView>,
) -> SlideElementView {
    match element {
        SlideElementView::Image(image, position) => SlideElementView::Image(
            linked_image(image, images),
            position,
        ),
        _ => element,
    }
}

/// The elements after linking.
pub open spec fn linked_elements(
    elements: Seq<SlideElementView>,
    images: Seq<ImageReferenceView>,
) -> Seq<SlideElementView> {
    Seq::new(elements.len(), |k: int| linked_element(elements[k], images))
}

/// A slide after linking: the same slide but for its pictures' targets.
pub open spec fn linked(slide: SlideView) -> SlideView {
    SlideView {
        rel_path: slide.rel_path,
        slide_number: slide.slide_number,
        elements: linked_elements(slide.elements, slide.images),
        images: slide.images,
        image_data: slide.image_data,
        config: slide.config,
    }
}

/// Linking a slide that is linked changes nothing.
pub proof fn lemma_linking_is_idempotent(slide: SlideView)
    ensures
        linked(linked(slide)) == linked(slide),
{
    let once = linked_elements(slide.elements, slide.images);
    let twice = linked_elements(once, slide.images);
    assert(twice =~= once);
}

/// Linking leaves alone a picture whose id no relationship has.
pub proof fn lemma_linking_keeps_unknown_ids(
    image: ImageReferenceView,
    images: Seq<ImageReferenceView>,
)
    requires
        forall|k: int| 0 <= k < images.len() ==> (#[trigger] images[k]).id != image.id,
    ensures
        linked_image(image, images) == image,
{
    lemma_target_of_absent(images, image.id);
}

proof fn lemma_target_of_absent(images: Seq<ImageReferenceView>, id: Seq<char>)
    requires
        forall|k: int| 0 <= k < images.len() ==> (#[trigger] images[k]).id != id,
    ensures
        target_of(images, id) is None,
    decreases images.len(),
{
    if images.len() > 0 {
        let rest = images.drop_last();
        assert(images[images.len() - 1].id != id);
        assert forall|k: int| 0 <= k < rest.len() implies (#[trigger] rest[k]).id != id by {
            assert(rest[k] == images[k]);
        }
        lemma_target_of_absent(rest, id);
    }
}

/// Linking fills an empty target with that of the one relationship that has
/// the picture's id.
pub proof fn lemma_linking_fills_target(
    image: ImageReferenceView,
    images: Seq<ImageReferenceView>,
    k: int,
)
    requires
        0 <= k < images.len(),
        images[k].id == image.id,
        forall|j: int| k < j < images.len() ==> (#[trigger] images[j]).id != image.id,
        image.target.len() == 0,
    ensures
        linked_image(image, images).id == image.id,
        linked_image(image, images).target == images[k].target,
    decreases images.len(),
{
    if k < images.len() - 1 {
        let rest = images.drop_last();
        assert(images[images.len() - 1].id != image.id);
        assert forall|j: int| k < j < rest.len() implies (#[trigger] rest[j]).id != image.id by {
            assert(rest[j] == images[j]);
        }
        assert(rest[k] == images[k]);
        lemma_linking_fills_target(image, rest, k);
    }
}

/// An image for the caller to place, as a mathematical value.
pub struct ManualImageView {
    pub base64_content: Seq<char>,
    pub img_ref: ImageReferenceView,
}

/// An image for the caller to place: its bytes as base64 text, and the
/// reference of the picture it belongs to.
#[derive(Debug)]
pub struct ManualImage {
    pub base64_content: String,
    pub img_ref: ImageReference,
}

impl DeepView for ManualImage {
    type V = ManualImageView;

    open spec fn deep_view(&self) -> ManualImageView {
        ManualImageView { base64_content: self.base64_content@, img_ref: self.img_ref.deep_view() }
    }
}

impl ManualImage {
    pub fn new(base64_content: String, img_ref: ImageReference) -> (image: ManualImage)
        ensures
            image.base64_content == base64_content,
            image.img_ref == img_ref,
    {
        ManualImage { base64_content, img_ref }
    }
}

/// The images of the given elements for the caller to place: one for each
/// picture that the slide has the bytes of, in the order of the elements.
/// There is no list where the encoding of one of them fails.
pub open spec fn manual_images_among(
    slide: SlideView,
    elements: Seq<SlideElementView>,
) -> Option<Seq<ManualImageView>>
    decreases elements.len(),
{
    if elements.len() == 0 {
        Some(Seq::empty())
    } else {
        match manual_images_among(slide, elements.drop_last()) {
            Some(before) => match elements.last() {
                SlideElementView::Image(image, _) => if slide.image_data.contains_key(image.id) {
                    match image_payload(slide.image_data[image.id], slide.config) {
                        Some(payload) => Some(
                            before.push(
                                ManualImageView {
                                    base64_content: base64_text(payload),
                                    img_ref: image,
                                },
                            ),
                        ),
                        None => None,
                    }
                } else {
                    Some(before)
                },
                _ => Some(before),
            },
            None => None,
        }
    }
}

/// A file to write for an image, as a mathematical value.
pub struct SavedImageView {
    pub file_name: Seq<char>,
    pub data: Seq<u8>,
}

/// A file to write for an image: its name inside the output directory, and
/// its bytes.
#[derive(Debug)]
pub struct SavedImage {
    pub file_name: String,
    pub data: Vec<u8>,
}

impl DeepView for SavedImage {
    type V = SavedImageView;

    open spec fn deep_view(&self) -> SavedImageView {
        SavedImageView { file_name: self.file_name@, data: self.data@ }
    }
}

/// The files to write for the given elements: one for each picture that the
/// slide has the bytes of and whose encoding does not fail.
pub open spec fn saved_images_among(
    slide: SlideView,
    elements: Seq<SlideElementView>,
) -> Seq<SavedImageView>
    decreases elements.len(),
{
    if elements.len() == 0 {
        Seq::empty()
    } else {
        let before = saved_images_among(slide, elements.drop_last());
        match elements.last() {
            SlideElementView::Image(image, _) => if slide.image_data.contains_key(image.id) {
                match image_payload(slide.image_data[image.id], slide.config) {
                    Some(payload) => before.push(
                        SavedImageView {
                            file_name: saved_image_name(
                                slide.slide_number,
                                images_among(slide, elements.drop_last()) + 1,
                                image,
                                slide.config,
                            ),
                            data: payload,
                        },
                    ),
                    None => before,
                }
            } else {
                before
            },
            _ => before,
        }
    }
}

/// The files to write for a slide whose pictures are saved: those of its
/// elements in reading order. A slide with another way to handle pictures
/// has none.
pub open spec fn saved_images(slide: SlideView) -> Seq<SavedImageView> {
    if slide.config.image_handling_mode == ImageHandlingMode::Save {
        saved_images_among(slide, in_reading_order(slide.elements))
    } else {
        Seq::empty()
    }
}

impl Slide {
    /// Gives each picture whose target is still empty the target that the
    /// slide's relationships have for its id.
    pub fn link_images(&mut self)
        ensures
            final(self).deep_view() == linked(old(self).deep_view()),
    {
        let ghost before = self.deep_view();
        let mut targets: StringHashMap<String> = StringHashMap::new();
        let mut i: usize = 0;
        proof {
            assert(before.images.take(0) =~= Seq::<ImageReferenceView>::empty());
        }
        while i < self.images.len()
            invariant
                i <= self.images.len(),
                *self == *old(self),
                before == self.deep_view(),
                forall|id: Seq<char>|
                    match #[trigger] target_of(before.images.take(i as int), id) {
                        Some(target) => targets@.contains_key(id) && targets@[id]@ == target,
                        None => !targets@.contains_key(id),
                    },
            decreases self.images.len() - i,
        {
            let ghost upto = before.images.take(i + 1);
            let ghost known = targets@;
            targets.insert(self.images[i].id.clone(), self.images[i].target.clone());
            proof {
                assert(upto.drop_last() =~= before.images.take(i as int));
                assert(upto.last() == self.images@[i as int].deep_view());
                assert forall|id: Seq<char>|
                    match #[trigger] target_of(upto, id) {
                        Some(target) => targets@.contains_key(id) && targets@[id]@ == target,
                        None => !targets@.contains_key(id),
                    } by {
                    if id != upto.last().id {
                        assert(target_of(upto, id) == target_of(before.images.take(i as int), id));
                    }
                }
            }
            i += 1;
        }
        proof {
            assert(before.images.take(self.images.len() as int) =~= before.images);
        }
        let mut k: usize = 0;
        while k < self.elements.len()
            invariant
                k <= self.elements.len(),
                self.elements@.len() == before.elements.len(),
                self.rel_path == old(self).rel_path,
                self.slide_number == old(self).slide_number,
                self.images == old(self).images,
                self.image_data == old(self).image_data,
                self.config == old(self).config,
                before == old(self).deep_view(),
                forall|id: Seq<char>|
                    match #[trigger] target_of(before.images, id) {
                        Some(target) => targets@.contains_key(id) && targets@[id]@ == target,
                        None => !targets@.contains_key(id),
                    },
                forall|j: int|
                    0 <= j < k ==> (#[trigger] self.elements@[j]).deep_view() == linked_element(
                        before.elements[j],
                        before.images,
                    ),
                forall|j: int|
                    k <= j < self.elements@.len() ==> (#[trigger] self.elements@[j]).deep_view()
                        == before.elements[j],
            decreases self.elements.len() - k,
        {
            let ghost current = self.elements@;
            assert(current[k as int].deep_view() == before.elements[k as int]);
            match &mut self.elements[k] {
                SlideElement::Image(image, _) => {
                    assert(target_of(before.images, image.id@) is Some
                        ==> targets@.contains_key(image.id@));
                    if image.target.as_str().unicode_len() == 0 {
                        if let Some(target) = targets.get(image.id.as_str()) {
                            image.target = target.clone();
                        }
                    }
                },
                _ => {},
            }
            proof {
                assert forall|j: int| 0 <= j < k + 1 implies (#[trigger] self.elements@[j]).deep_view()
                    == linked_element(before.elements[j], before.images) by {
                    if j < k {
                        assert(self.elements@[j] == current[j]);
                    }
                }
                assert forall|j: int| k + 1 <= j < self.elements@.len() implies (
                #[trigger] self.elements@[j]).deep_view() == before.elements[j] by {
                    assert(self.elements@[j] == current[j]);
                }
            }
            k += 1;
        }
        proof {
            assert(self.elements.deep_view() =~= linked_elements(before.elements, before.images));
        }
    }

    /// The images of the slide for the caller to place: one for each picture
    /// that the slide has the bytes of, in the order of the elements, each as
    /// base64 text of its payload. `None` where images are compressed and the
    /// encoding of one of them fails.
    pub fn load_images_manually(&self) -> (images: Option<Vec<ManualImage>>)
        ensures
            match images {
                Some(list) => manual_images_among(self.deep_view(), self.elements.deep_view())
                    == Some(list.deep_view()),
                None => manual_images_among(self.deep_view(), self.elements.deep_view()) is None,
            },
    {
        let ghost slide = self.deep_view();
        let ghost elements = self.elements.deep_view();
        let mut images: Vec<ManualImage> = Vec::new();
        let mut k: usize = 0;
        proof {
            assert(elements.take(0) =~= Seq::<SlideElementView>::empty());
            assert(images.deep_view() =~= Seq::<ManualImageView>::empty());
        }
        while k < self.elements.len()
            invariant
                k <= self.elements.len(),
                slide == self.deep_view(),
                elements == self.elements.deep_view(),
                manual_images_among(slide, elements.take(k as int)) == Some(images.deep_view()),
            decreases self.elements.len() - k,
        {
            let ghost upto = elements.take(k + 1);
            let ghost listed = images.deep_view();
            proof {
                assert(upto.drop_last() =~= elements.take(k as int));
                assert(upto.last() == self.elements@[k as int].deep_view());
            }
            if let SlideElement::Image(image, _) = &self.elements[k] {
                if let Some(raw) = self.image_data.get(image.id.as_str()) {
                    match self.payload_of(raw) {
                        Some(payload) => {
                            let text = encode_base64(payload.as_slice());
                            images.push(ManualImage::new(text, image.duplicate()));
                            proof {
                                assert(images.deep_view() =~= listed.push(
                                    ManualImageView {
                                        base64_content: base64_text(payload@),
                                        img_ref: image.deep_view(),
                                    },
                                ));
                            }
                        },
                        None => {
                            proof {
                                lemma_manual_images_fail(slide, elements, k + 1);
                            }
                            return None;
                        },
                    }
                }
            }
            k += 1;
        }
        proof {
            assert(elements.take(self.elements.len() as int) =~= elements);
        }
        Some(images)
    }

    /// The files to write before a slide whose pictures are saved is
    /// rendered, in reading order.
    pub fn images_to_save(&self) -> (files: Vec<SavedImage>)
        ensures
            files.deep_view() == saved_images(self.deep_view()),
    {
        let ghost slide = self.deep_view();
        let ghost ordered = in_reading_order(slide.elements);
        let mut files: Vec<SavedImage> = Vec::new();
        proof {
            assert(files.deep_view() =~= Seq::<SavedImageView>::empty());
        }
        match self.config.image_handling_mode {
            ImageHandlingMode::Save => {},
            _ => {
                return files;
            },
        }
        let order = sorted_indices(&self.elements);
        let mut seen: usize = 0;
        let mut a: usize = 0;
        proof {
            assert(ordered.take(0) =~= Seq::<SlideElementView>::empty());
        }
        while a < order.len()
            invariant
                a <= order.len(),
                slide == self.deep_view(),
                ordered == in_reading_order(slide.elements),
                order@.len() == self.elements@.len(),
                order@.map_values(|k: usize| k as int) == reading_order(
                    positions_of(self.elements.deep_view()),
                ),
                forall|b: int| 0 <= b < order@.len() ==> #[trigger] order@[b] < self.elements@.len(),
                files.deep_view() == saved_images_among(slide, ordered.take(a as int)),
                seen == images_among(slide, ordered.take(a as int)),
                seen <= a,
            decreases order.len() - a,
        {
            let element = &self.elements[order[a]];
            let ghost upto = ordered.take(a + 1);
            let ghost listed = files.deep_view();
            proof {
                assert(upto.drop_last() =~= ordered.take(a as int));
                assert(order@.map_values(|k: usize| k as int)[a as int] == order@[a as int]);
                assert(upto.last() == element.deep_view());
            }
            if let SlideElement::Image(image, _) = element {
                if let Some(raw) = self.image_data.get(image.id.as_str()) {
                    if let Some(payload) = self.payload_of(raw) {
                        let file_name = self.saved_name(seen + 1, image);
                        let ghost file = SavedImageView { file_name: file_name@, data: payload@ };
                        files.push(SavedImage { file_name, data: payload });
                        proof {
                            assert(files.deep_view() =~= listed.push(file));
                        }
                    }
                    seen += 1;
                }
            }
            a += 1;
        }
        proof {
            assert(ordered.take(order.len() as int) =~= ordered);
        }
        files
    }
}

proof fn lemma_manual_images_fail(slide: SlideView, elements: Seq<SlideElementView>, n: int)
    requires
        0 <= n <= elements.len(),
        manual_images_among(slide, elements.take(n)) is None,
    ensures
        manual_images_among(slide, elements) is None,
    decreases elements.len() - n,
{
    if n < elements.len() {
        assert(elements.take(n + 1).drop_last() =~= elements.take(n));
        lemma_manual_images_fail(slide, elements, n + 1);
    } else {
        assert(elements.take(n) =~= elements);
    }
}

/// Where in the Markdown of a slide the element at place `a` of the reading
/// order starts; for `a` behind the last place, where the Markdown ends.
pub open spec fn markdown_start(slide: SlideView, links: Seq<ImageLinkView>, a: int) -> int {
    let comment = if slide.config.include_slide_comment {
        slide_comment(slide.slide_number)
    } else {
        Seq::empty()
    };
    (comment.len() + elements_markdown(
        slide,
        in_reading_order(slide.elements).take(a),
        links,
    ).len()) as int
}

proof fn lemma_elements_markdown_prefix(
    slide: SlideView,
    elements: Seq<SlideElementView>,
    links: Seq<ImageLinkView>,
    a: int,
)
    requires
        0 <= a <= elements.len(),
    ensures
        elements_markdown(slide, elements.take(a), links).len() <= elements_markdown(
            slide,
            elements,
            links,
        ).len(),
        elements_markdown(slide, elements, links).take(
            elements_markdown(slide, elements.take(a), links).len() as int,
        ) == elements_markdown(slide, elements.take(a), links),
    decreases elements.len() - a,
{
    if a == elements.len() {
        assert(elements.take(a) =~= elements);
        assert(elements_markdown(slide, elements, links).take(
            elements_markdown(slide, elements, links).len() as int,
        ) =~= elements_markdown(slide, elements, links));
    } else {
        lemma_elements_markdown_prefix(slide, elements, links, a + 1);
        assert(elements.take(a + 1).drop_last() =~= elements.take(a));
        let shorter = elements_markdown(slide, elements.take(a), links);
        let longer = elements_markdown(slide, elements.take(a + 1), links);
        let whole = elements_markdown(slide, elements, links);
        assert(longer.take(shorter.len() as int) =~= shorter);
        assert(whole.take(shorter.len() as int) =~= whole.take(longer.len() as int).take(
            shorter.len() as int,
        ));
    }
}

/// In the Markdown of a slide each element has a stretch of its own, and the
/// stretches follow one another by place in the reading order: the stretch of
/// place `a` runs from `markdown_start(a)` to `markdown_start(a + 1)` and
/// holds the Markdown of the element at that place.
pub proof fn lemma_markdown_stretch(slide: SlideView, links: Seq<ImageLinkView>, a: int)
    requires
        0 <= a < slide.elements.len(),
    ensures
        in_reading_order(slide.elements).len() == slide.elements.len(),
        0 <= markdown_start(slide, links, a) <= markdown_start(slide, links, a + 1)
            <= slide_markdown(slide, links).len(),
        slide_markdown(slide, links).subrange(
            markdown_start(slide, links, a),
            markdown_start(slide, links, a + 1),
        ) == element_markdown(
            slide,
            in_reading_order(slide.elements)[a],
            images_among(slide, in_reading_order(slide.elements).take(a)) + 1,
            links,
        ),
{
    let ordered = in_reading_order(slide.elements);
    crate::order::lemma_reading_order_of_first(
        positions_of(slide.elements),
        positions_of(slide.elements).len(),
    );
    let comment = if slide.config.include_slide_comment {
        slide_comment(slide.slide_number)
    } else {
        Seq::empty()
    };
    let whole = elements_markdown(slide, ordered, links);
    let shorter = elements_markdown(slide, ordered.take(a), links);
    let longer = elements_markdown(slide, ordered.take(a + 1), links);
    lemma_elements_markdown_prefix(slide, ordered, links, a);
    lemma_elements_markdown_prefix(slide, ordered, links, a + 1);
    assert(ordered.take(a + 1).drop_last() =~= ordered.take(a));
    assert(ordered.take(a + 1).last() == ordered[a]);
    let piece = element_markdown(slide, ordered[a], images_among(slide, ordered.take(a)) + 1, links);
    assert(longer == shorter + piece);
    assert(whole.subrange(shorter.len() as int, longer.len() as int) =~= whole.take(
        longer.len() as int,
    ).subrange(shorter.len() as int, longer.len() as int));
    assert(longer.subrange(shorter.len() as int, longer.len() as int) =~= piece);
    assert(slide_markdown(slide, links).subrange(
        markdown_start(slide, links, a),
        markdown_start(slide, links, a + 1),
    ) =~= whole.subrange(shorter.len() as int, longer.len() as int));
}

proof fn lemma_markdown_start_grows(slide: SlideView, links: Seq<ImageLinkView>, a: int, b: int)
    requires
        0 <= a <= b <= slide.elements.len(),
    ensures
        markdown_start(slide, links, a) <= markdown_start(slide, links, b),
    decreases b - a,
{
    if a < b {
        lemma_markdown_stretch(slide, links, b - 1);
        lemma_markdown_start_grows(slide, links, a, b - 1);
    }
}

/// Of two elements of a slide, the one whose position comes first in reading
/// order (higher up, or as high and further left) is rendered first: its
/// stretch of the Markdown ends before that of the other begins.
pub proof fn lemma_markdown_follows_positions(
    slide: SlideView,
    links: Seq<ImageLinkView>,
    i: int,
    j: int,
)
    requires
        0 <= i < slide.elements.len(),
        0 <= j < slide.elements.len(),
        slide.elements[i].position().precedes(slide.elements[j].position()),
    ensures
        ({
            let order = reading_order(positions_of(slide.elements));
            let a = crate::order::place_of(order, i);
            let b = crate::order::place_of(order, j);
            &&& 0 <= a < b < slide.elements.len()
            &&& in_reading_order(slide.elements)[a] == slide.elements[i]
            &&& in_reading_order(slide.elements)[b] == slide.elements[j]
            &&& markdown_start(slide, links, a + 1) <= markdown_start(slide, links, b)
        }),
{
    let positions = positions_of(slide.elements);
    crate::order::lemma_reading_order_has_all(positions, i);
    crate::order::lemma_reading_order_has_all(positions, j);
    crate::order::lemma_reading_order_follows_positions(positions, i, j);
    let order = reading_order(positions);
    let a = crate::order::place_of(order, i);
    let b = crate::order::place_of(order, j);
    lemma_markdown_start_grows(slide, links, a + 1, b);
}

} // verus!
