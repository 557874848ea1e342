use vstd::prelude::*;
use vstd::string::*;
use crate::error::PptxError;
use crate::parse_rels::{parse_slide_rels, rels_xml_images};
use crate::parse_xml::{parse_slide_xml, slide_xml_elements, yields};
use crate::parser_config::ParserConfig;
use crate::paths::{
    extract_slide_number, full_image_path, full_image_path_of, is_slide_path, names_slide,
    rels_path_of, slide_number_in, slide_rels_path,
};
use crate::slide::{linked, ImageData, Slide, SlideView};
use crate::text::chars_of;
use crate::types::{ImageReference, ImageReferenceView, SlideElement, SlideElementView};

verus! {

/// The order of texts: by their first characters that differ, and a text
/// before every text that continues it.
pub open spec fn text_le(a: Seq<char>, b: Seq<char>) -> bool
    decreases a.len(),
{
    if a.len() == 0 {
        true
    } else if b.len() == 0 {
        false
    } else if a[0] == b[0] {
        text_le(a.skip(1), b.skip(1))
    } else {
        (a[0] as u32) < (b[0] as u32)
    }
}

/// Of two texts one is at most the other.
pub proof fn lemma_text_le_total(a: Seq<char>, b: Seq<char>)
    ensures
        text_le(a, b) || text_le(b, a),
    decreases a.len(),
{
    if a.len() > 0 && b.len() > 0 {
        if a[0] == b[0] {
            lemma_text_le_total(a.skip(1), b.skip(1));
        } else {
            vstd::utf8::char_u32_cast(a[0], a[0] as u32);
            vstd::utf8::char_u32_cast(b[0], b[0] as u32);
        }
    }
}

/// Whether each text is at most the one behind it.
pub open spec fn is_sorted(texts: Seq<Seq<char>>) -> bool {
    forall|k: int| 0 <= k < texts.len() - 1 ==> text_le(#[trigger] texts[k], texts[k + 1])
}

/// Those of the names that are paths of slides, in their order.
pub open spec fn slide_paths_among(names: Seq<Seq<char>>) -> Seq<Seq<char>>
    decreases names.len(),
{
    if names.len() == 0 {
        Seq::empty()
    } else if is_slide_path(names.last()) {
        slide_paths_among(names.drop_last()).push(names.last())
    } else {
        slide_paths_among(names.drop_last())
    }
}

fn chars_le(a: &Vec<char>, b: &Vec<char>) -> (le: bool)
    ensures
        le == text_le(a@, b@),
{
    let mut i: usize = 0;
    proof {
        assert(a@.skip(0) =~= a@);
        assert(b@.skip(0) =~= b@);
    }
    while i < a.len() && i < b.len()
        invariant
            i <= a.len(),
            i <= b.len(),
            text_le(a@, b@) == text_le(a@.skip(i as int), b@.skip(i as int)),
        decreases a.len() - i,
    {
        proof {
            assert(a@.skip(i as int).skip(1) =~= a@.skip(i + 1));
            assert(b@.skip(i as int).skip(1) =~= b@.skip(i + 1));
        }
        if a[i] != b[i] {
            return (a[i] as u32) < (b[i] as u32);
        }
        i += 1;
    }
    i == a.len()
}

/// The order of slides: by the number in the path, and as texts among the
/// paths of one number. A path without a number counts as 0.
pub open spec fn slide_le(a: Seq<char>, b: Seq<char>) -> bool {
    slide_number_or_zero(a) < slide_number_or_zero(b) || (slide_number_or_zero(a)
        == slide_number_or_zero(b) && text_le(a, b))
}

/// Of two slide paths one comes at most where the other does.
pub proof fn lemma_slide_le_total(a: Seq<char>, b: Seq<char>)
    ensures
        slide_le(a, b) || slide_le(b, a),
{
    lemma_text_le_total(a, b);
}

/// Whether each path comes at most where the one behind it does.
pub open spec fn is_in_slide_order(paths: Seq<Seq<char>>) -> bool {
    forall|k: int| 0 <= k < paths.len() - 1 ==> slide_le(#[trigger] paths[k], paths[k + 1])
}

/// In slide order the numbers never fall: no path has a smaller number than
/// a path before it.
pub proof fn lemma_slide_numbers_rise(paths: Seq<Seq<char>>, a: int, b: int)
    requires
        is_in_slide_order(paths),
        0 <= a <= b < paths.len(),
    ensures
        slide_number_or_zero(paths[a]) <= slide_number_or_zero(paths[b]),
    decreases b - a,
{
    if a < b {
        lemma_slide_numbers_rise(paths, a, b - 1);
        assert(slide_le(paths[b - 1], paths[b - 1 + 1]));
    }
}

/// The paths in slide order: by the number in the path, and as texts among
/// the paths of one number.
pub fn order_by_slide_number(paths: &Vec<String>) -> (ordered: Vec<String>)
    ensures
        is_in_slide_order(ordered.deep_view()),
        ordered.deep_view().to_multiset() == paths.deep_view().to_multiset(),
{
    let ghost all = paths.deep_view();
    let mut ordered: Vec<String> = Vec::new();
    let mut numbers: Vec<u32> = Vec::new();
    let mut keys: Vec<Vec<char>> = Vec::new();
    let mut i: usize = 0;
    proof {
        assert(all.take(0) =~= Seq::<Seq<char>>::empty());
        assert(ordered.deep_view() =~= Seq::<Seq<char>>::empty());
    }
    while i < paths.len()
        invariant
            i <= paths.len(),
            all == paths.deep_view(),
            ordered@.len() == keys@.len(),
            ordered@.len() == numbers@.len(),
            forall|k: int| 0 <= k < keys@.len() ==> (#[trigger] keys@[k])@ == ordered@[k]@,
            forall|k: int|
                0 <= k < numbers@.len() ==> #[trigger] numbers@[k] == slide_number_or_zero(
                    ordered@[k]@,
                ),
            is_in_slide_order(ordered.deep_view()),
            ordered.deep_view().to_multiset() == all.take(i as int).to_multiset(),
        decreases paths.len() - i,
    {
        let path = paths[i].as_str();
        let key = chars_of(path);
        let number = match extract_slide_number(path) {
            Some(number) => number,
            None => 0,
        };
        let ghost before = ordered.deep_view();
        let mut j: usize = keys.len();
        while j > 0 && (numbers[j - 1] > number || (numbers[j - 1] == number && !chars_le(
            &keys[j - 1],
            &key,
        )))
            invariant
                j <= keys.len(),
                ordered@.len() == keys@.len(),
                ordered@.len() == numbers@.len(),
                before == ordered.deep_view(),
                key@ == path@,
                number == slide_number_or_zero(path@),
                forall|k: int| 0 <= k < keys@.len() ==> (#[trigger] keys@[k])@ == ordered@[k]@,
                forall|k: int|
                    0 <= k < numbers@.len() ==> #[trigger] numbers@[k] == slide_number_or_zero(
                        ordered@[k]@,
                    ),
                j < keys@.len() ==> slide_le(key@, before[j as int]),
            decreases j,
        {
            proof {
                lemma_slide_le_total(keys@[j - 1]@, key@);
                assert(before[j - 1] == ordered@[j - 1]@);
            }
            j -= 1;
        }
        proof {
            if j > 0 {
                assert(before[j - 1] == ordered@[j - 1]@);
            }
        }
        ordered.insert(j, paths[i].clone());
        numbers.insert(j, number);
        keys.insert(j, key);
        proof {
            let after = ordered.deep_view();
            assert(after =~= before.insert(j as int, key@));
            vstd::seq_lib::to_multiset_insert(before, j as int, key@);
            assert(all.take(i + 1) =~= all.take(i as int).push(key@));
            vstd::seq_lib::to_multiset_build(all.take(i as int), key@);
            assert forall|k: int| 0 <= k < after.len() - 1 implies slide_le(
                #[trigger] after[k],
                after[k + 1],
            ) by {
                if k < j - 1 {
                    assert(after[k] == before[k]);
                    assert(after[k + 1] == before[k + 1]);
                } else if k == j - 1 {
                    assert(after[k] == before[k]);
                } else if k == j {
                    assert(after[k + 1] == before[k]);
                } else {
                    assert(after[k] == before[k - 1]);
                    assert(after[k + 1] == before[k]);
                }
            }
        }
        i += 1;
    }
    proof {
        assert(all.take(paths.len() as int) =~= all);
    }
    ordered
}

/// A slide before the bytes of its images are there, as a mathematical value.
pub struct SlideDraftView {
    pub rel_path: Seq<char>,
    pub slide_number: u32,
    pub elements: Seq<SlideElementView>,
    pub images: Seq<ImageReferenceView>,
    pub image_paths: Seq<Seq<char>>,
}

/// A slide before the bytes of its images are there: what its part holds,
/// the images that its relationships name, and for each of them the path of
/// the archive entry to read.
#[derive(Debug)]
pub struct SlideDraft {
    pub rel_path: String,
    pub slide_number: u32,
    pub elements: Vec<SlideElement>,
    pub images: Vec<ImageReference>,
    pub image_paths: Vec<String>,
}

impl DeepView for SlideDraft {
    type V = SlideDraftView;

    open spec fn deep_view(&self) -> SlideDraftView {
        SlideDraftView {
            rel_path: self.rel_path@,
            slide_number: self.slide_number,
            elements: self.elements.deep_view(),
            images: self.images.deep_view(),
            image_paths: self.image_paths.deep_view(),
        }
    }
}

/// The images that the relationships of a slide name. There are none where
/// images are not extracted, and none without a relationships part.
pub open spec fn images_named(config: ParserConfig, rels_data: Option<Seq<u8>>) -> Result<
    Seq<ImageReferenceView>,
    PptxError,
> {
    if config.extract_images {
        match rels_data {
            Some(data) => rels_xml_images(data),
            None => Ok(Seq::empty()),
        }
    } else {
        Ok(Seq::empty())
    }
}

/// The number of a slide by its path, and 0 where the path holds none.
pub open spec fn slide_number_or_zero(slide_path: Seq<char>) -> u32 {
    match slide_number_in(slide_path) {
        Some(number) => number,
        None => 0,
    }
}

/// Where in the archive the images of a slide lie, each at the place of its
/// image.
pub open spec fn image_paths_of(
    slide_path: Seq<char>,
    images: Seq<ImageReferenceView>,
) -> Seq<Seq<char>> {
    Seq::new(images.len(), |k: int| full_image_path_of(slide_path, images[k].target))
}

/// The draft of the slide at the given path with the given elements and
/// images.
pub open spec fn draft_of(
    slide_path: Seq<char>,
    elements: Seq<SlideElementView>,
    images: Seq<ImageReferenceView>,
) -> SlideDraftView {
    SlideDraftView {
        rel_path: slide_path,
        slide_number: slide_number_or_zero(slide_path),
        elements: elements,
        images: images,
        image_paths: image_paths_of(slide_path, images),
    }
}

/// The draft of a slide from the bytes of its parts. The slide part is
/// parsed first, so that its failure is the one that shows where both parts
/// are at fault.
pub open spec fn drafted(
    config: ParserConfig,
    slide_path: Seq<char>,
    slide_data: Seq<u8>,
    rels_data: Option<Seq<u8>>,
) -> Result<SlideDraftView, PptxError> {
    match slide_xml_elements(slide_data) {
        Ok(elements) => match images_named(config, rels_data) {
            Ok(images) => Ok(draft_of(slide_path, elements, images)),
            Err(error) => Err(error),
        },
        Err(error) => Err(error),
    }
}

impl SlideDraft {
    /// The draft of the slide at the given path with the given elements and
    /// images: its number is the one in the path, or 0 where the path holds
    /// none, and each image is to be read from where its target lies.
    pub fn new(slide_path: &str, elements: Vec<SlideElement>, images: Vec<ImageReference>) -> (draft:
        SlideDraft)
        ensures
            draft.deep_view() == draft_of(slide_path@, elements.deep_view(), images.deep_view()),
    {
        let slide_number = match extract_slide_number(slide_path) {
            Some(number) => number,
            None => 0,
        };
        let mut image_paths: Vec<String> = Vec::new();
        let ghost expected = image_paths_of(slide_path@, images.deep_view());
        let mut k: usize = 0;
        while k < images.len()
            invariant
                k <= images.len(),
                expected == image_paths_of(slide_path@, images.deep_view()),
                image_paths.deep_view() =~= expected.take(k as int),
            decreases images.len() - k,
        {
            let ghost before = image_paths.deep_view();
            let path = full_image_path(slide_path, images[k].target.as_str());
            image_paths.push(path);
            proof {
                assert(image_paths.deep_view() =~= before.push(path@));
                assert(images.deep_view()[k as int] == images@[k as int].deep_view());
            }
            k += 1;
        }
        proof {
            assert(expected.take(images.len() as int) =~= expected);
        }
        SlideDraft {
            rel_path: slide_path.to_owned(),
            slide_number,
            elements,
            images,
            image_paths,
        }
    }
}

/// The bytes of the first `n` images under their ids: the bytes at the place
/// of an image are its bytes, and an image without bytes has no entry. Of two
/// images with one id the later one counts.
pub open spec fn image_data_of_first(
    images: Seq<ImageReferenceView>,
    image_bytes: Seq<Option<Vec<u8>>>,
    n: int,
) -> Map<Seq<char>, Seq<u8>>
    decreases n,
{
    if 0 < n <= images.len() {
        let before = image_data_of_first(images, image_bytes, n - 1);
        if n - 1 < image_bytes.len() {
            match image_bytes[n - 1] {
                Some(bytes) => before.insert(images[n - 1].id, bytes@),
                None => before,
            }
        } else {
            before
        }
    } else {
        Map::empty()
    }
}

/// The slide that a draft becomes with the bytes of its images: the draft's
/// content with the images under their ids, and linked.
pub open spec fn finished(
    draft: SlideDraftView,
    image_bytes: Seq<Option<Vec<u8>>>,
    config: ParserConfig,
) -> SlideView {
    linked(
        SlideView {
            rel_path: draft.rel_path,
            slide_number: draft.slide_number,
            elements: draft.elements,
            images: draft.images,
            image_data: image_data_of_first(draft.images, image_bytes, draft.images.len() as int),
            config: config,
        },
    )
}

/// What is known of a presentation once the names of the entries of its
/// archive are: the settings, and the paths of its slides in order.
///
/// A slide is loaded in three steps. [`PptxContainer::draft_slide`] takes the
/// bytes of the slide part and of its relationships part and says which
/// entries hold the images. The caller reads those entries.
/// [`PptxContainer::finish_slide`] takes their bytes and gives the slide.
#[derive(Debug)]
pub struct PptxContainer {
    pub config: ParserConfig,
    pub slide_paths: Vec<String>,
    pub slide_count: u32,
}

impl PptxContainer {
    /// Whether the container counts its slides and has their paths in order.
    pub open spec fn is_well_formed(self) -> bool {
        &&& self.slide_count == self.slide_paths@.len()
        &&& is_sorted(self.slide_paths.deep_view())
    }

    /// The container of an archive with the given entries: its slides are the
    /// entries whose names are paths of slides, sorted as texts.
    pub fn from_entry_names(names: &Vec<String>, config: ParserConfig) -> (container: Self)
        requires
            names@.len() <= u32::MAX,
        ensures
            container.is_well_formed(),
            container.config == config,
            container.slide_paths.deep_view().to_multiset() == slide_paths_among(
                names.deep_view(),
            ).to_multiset(),
    {
        let ghost all = names.deep_view();
        let mut slide_paths: Vec<String> = Vec::new();
        let mut keys: Vec<Vec<char>> = Vec::new();
        let mut i: usize = 0;
        proof {
            assert(all.take(0) =~= Seq::<Seq<char>>::empty());
            assert(slide_paths.deep_view() =~= Seq::<Seq<char>>::empty());
        }
        while i < names.len()
            invariant
                i <= names.len(),
                names@.len() <= u32::MAX,
                all == names.deep_view(),
                slide_paths@.len() == keys@.len(),
                slide_paths@.len() <= i,
                forall|k: int| 0 <= k < keys@.len() ==> (#[trigger] keys@[k])@ == slide_paths@[k]@,
                is_sorted(slide_paths.deep_view()),
                slide_paths.deep_view().to_multiset() == slide_paths_among(
                    all.take(i as int),
                ).to_multiset(),
            decreases names.len() - i,
        {
            let name = names[i].as_str();
            proof {
                assert(all.take(i + 1).drop_last() =~= all.take(i as int));
                assert(all.take(i + 1).last() == names@[i as int]@);
            }
            if names_slide(name) {
                let key = chars_of(name);
                let ghost before = slide_paths.deep_view();
                let mut j: usize = keys.len();
                while j > 0 && !chars_le(&keys[j - 1], &key)
                    invariant
                        j <= keys.len(),
                        slide_paths@.len() == keys@.len(),
                        before == slide_paths.deep_view(),
                        forall|k: int|
                            0 <= k < keys@.len() ==> (#[trigger] keys@[k])@ == slide_paths@[k]@,
                        j < keys@.len() ==> text_le(key@, before[j as int]),
                    decreases j,
                {
                    proof {
                        lemma_text_le_total(keys@[j - 1]@, key@);
                        assert(before[j - 1] == slide_paths@[j - 1]@);
                    }
                    j -= 1;
                }
                proof {
                    if j > 0 {
                        assert(before[j - 1] == slide_paths@[j - 1]@);
                    }
                }
                slide_paths.insert(j, names[i].clone());
                keys.insert(j, key);
                proof {
                    let after = slide_paths.deep_view();
                    let found = slide_paths_among(all.take(i as int));
                    assert(after =~= before.insert(j as int, key@));
                    vstd::seq_lib::to_multiset_insert(before, j as int, key@);
                    vstd::seq_lib::to_multiset_build(found, key@);
                    assert(slide_paths_among(all.take(i + 1)) == found.push(key@));
                    assert forall|k: int| 0 <= k < after.len() - 1 implies text_le(
                        #[trigger] after[k],
                        after[k + 1],
                    ) by {
                        if k < j - 1 {
                            assert(after[k] == before[k]);
                            assert(after[k + 1] == before[k + 1]);
                        } else if k == j - 1 {
                            assert(after[k] == before[k]);
                        } else if k == j {
                            assert(after[k + 1] == before[k]);
                        } else {
                            assert(after[k] == before[k - 1]);
                            assert(after[k + 1] == before[k]);
                        }
                    }
                }
            }
            i += 1;
        }
        proof {
            assert(all.take(names.len() as int) =~= all);
        }
        let slide_count = slide_paths.len() as u32;
        PptxContainer { config, slide_paths, slide_count }
    }

    /// The paths of the slides in slide order: by the number in the path, and
    /// as texts among the paths of one number.
    pub fn slide_paths_by_number(&self) -> (ordered: Vec<String>)
        ensures
            is_in_slide_order(ordered.deep_view()),
            ordered.deep_view().to_multiset() == self.slide_paths.deep_view().to_multiset(),
    {
        order_by_slide_number(&self.slide_paths)
    }

    /// The path of the part that holds a slide's relationships.
    pub fn get_slide_rels_path(&self, slide_path: &str) -> (rels_path: String)
        ensures
            rels_path@ == rels_path_of(slide_path@),
    {
        slide_rels_path(slide_path)
    }

    /// Where in the archive the target of a slide's relationship lies.
    pub fn get_full_image_path(slide_path: &str, target: &str) -> (path: String)
        ensures
            path@ == full_image_path_of(slide_path@, target@),
    {
        full_image_path(slide_path, target)
    }

    /// The images that the relationships of a slide name, from the bytes of
    /// its relationships part where the archive has one.
    pub fn slide_images(&self, rels_data: Option<&[u8]>) -> (images: Result<
        Vec<ImageReference>,
        PptxError,
    >)
        ensures
            yields(
                images,
                images_named(
                    self.config,
                    match rels_data {
                        Some(data) => Some(data@),
                        None => None,
                    },
                ),
            ),
    {
        if self.config.extract_images {
            if let Some(data) = rels_data {
                return parse_slide_rels(data);
            }
        }
        let images: Vec<ImageReference> = Vec::new();
        proof {
            assert(images.deep_view() =~= Seq::<ImageReferenceView>::empty());
        }
        Ok(images)
    }

    /// The draft of a slide from the bytes of its part and, where the archive
    /// has one, of its relationships part.
    pub fn draft_slide(
        &self,
        slide_path: &str,
        slide_data: &[u8],
        rels_data: Option<&[u8]>,
    ) -> (draft: Result<SlideDraft, PptxError>)
        ensures
            yields(
                draft,
                drafted(
                    self.config,
                    slide_path@,
                    slide_data@,
                    match rels_data {
                        Some(data) => Some(data@),
                        None => None,
                    },
                ),
            ),
    {
        let elements = match parse_slide_xml(slide_data) {
            Ok(elements) => elements,
            Err(error) => {
                return Err(error);
            },
        };
        let images = match self.slide_images(rels_data) {
            Ok(images) => images,
            Err(error) => {
                return Err(error);
            },
        };
        Ok(SlideDraft::new(slide_path, elements, images))
    }

    /// The slide that a draft becomes with the bytes of its images, each at
    /// the place of its image; `None` stands for an image that could not be
    /// read.
    pub fn finish_slide(&self, draft: SlideDraft, image_bytes: &Vec<Option<Vec<u8>>>) -> (slide:
        Slide)
        ensures
            slide.deep_view() == finished(draft.deep_view(), image_bytes@, self.config),
    {
        let ghost images = draft.images.deep_view();
        let mut image_data = ImageData::new();
        let mut k: usize = 0;
        while k < draft.images.len()
            invariant
                k <= draft.images.len(),
                images == draft.images.deep_view(),
                image_data@ == image_data_of_first(images, image_bytes@, k as int),
            decreases draft.images.len() - k,
        {
            if k < image_bytes.len() {
                if let Some(bytes) = &image_bytes[k] {
                    image_data.insert(draft.images[k].id.clone(), bytes.clone());
                }
            }
            proof {
                assert(images[k as int] == draft.images@[k as int].deep_view());
            }
            k += 1;
        }
        let mut slide = Slide::new(
            draft.rel_path,
            draft.slide_number,
            draft.elements,
            draft.images,
            image_data,
            self.config.clone(),
        );
        slide.link_images();
        slide
    }
}

} // verus!
