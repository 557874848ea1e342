use vstd::prelude::*;
use std::path::PathBuf;
use vstd::std_specs::convert::IntoSpec;

verus! {

/// `std::path::PathBuf`, the directory that images are saved to. The library
/// carries it and never looks inside.
#[verifier::external_type_specification]
#[verifier::external_body]
pub struct ExPathBuf(PathBuf);

/// `PathBuf::clone` gives a path equal to the one it was called on.
pub assume_specification[ <PathBuf as Clone>::clone ](path: &PathBuf) -> (copy: PathBuf)
    ensures
        copy == *path,
;

/// What happens to the images of a slide when it is rendered.
#[derive(Debug, Clone, Copy, PartialEq, Eq, Structural)]
pub enum ImageHandlingMode {
    /// Each image is embedded in the Markdown as base64 data.
    InMarkdown,
    /// The Markdown holds no image; the caller fetches the images separately.
    Manually,
    /// Each image is written to a file that the Markdown links to.
    Save,
}

/// The settings a slide is parsed and rendered with.
///
/// `image_output_path` is only read when `image_handling_mode` is
/// [`ImageHandlingMode::Save`]; the library carries it and never looks inside.
#[derive(Debug)]
pub struct ParserConfig {
    pub extract_images: bool,
    pub compress_images: bool,
    pub quality: u8,
    pub image_handling_mode: ImageHandlingMode,
    pub image_output_path: Option<PathBuf>,
    pub include_slide_comment: bool,
}

impl Clone for ParserConfig {
    fn clone(&self) -> (copy: Self)
        ensures
            copy == *self,
    {
        ParserConfig {
            extract_images: self.extract_images,
            compress_images: self.compress_images,
            quality: self.quality,
            image_handling_mode: self.image_handling_mode,
            image_output_path: match &self.image_output_path {
                Some(path) => Some(path.clone()),
                None => None,
            },
            include_slide_comment: self.include_slide_comment,
        }
    }
}

impl Default for ParserConfig {
    fn default() -> (config: Self)
        ensures
            config.extract_images,
            config.compress_images,
            config.quality == 80,
            config.image_handling_mode == ImageHandlingMode::InMarkdown,
            config.image_output_path is None,
            config.include_slide_comment,
    {
        ParserConfig {
            extract_images: true,
            compress_images: true,
            quality: 80,
            image_handling_mode: ImageHandlingMode::InMarkdown,
            image_output_path: None,
            include_slide_comment: true,
        }
    }
}

impl ParserConfig {
    /// A builder in which nothing has been chosen yet.
    pub fn builder() -> (builder: ParserConfigBuilder)
        ensures
            builder.chosen_extract_images() is None,
            builder.chosen_compress_images() is None,
            builder.chosen_quality() is None,
            builder.chosen_image_handling_mode() is None,
            builder.chosen_image_output_path() is None,
            builder.chosen_include_slide_comment() is None,
    {
        ParserConfigBuilder::default()
    }
}

/// Collects the settings that differ from the defaults.
#[derive(Debug)]
pub struct ParserConfigBuilder {
    extract_images: Option<bool>,
    compress_images: Option<bool>,
    image_quality: Option<u8>,
    image_handling_mode: Option<ImageHandlingMode>,
    image_output_path: Option<PathBuf>,
    include_slide_comment: Option<bool>,
}

impl Default for ParserConfigBuilder {
    fn default() -> (builder: Self)
        ensures
            builder.chosen_extract_images() is None,
            builder.chosen_compress_images() is None,
            builder.chosen_quality() is None,
            builder.chosen_image_handling_mode() is None,
            builder.chosen_image_output_path() is None,
            builder.chosen_include_slide_comment() is None,
    {
        ParserConfigBuilder {
            extract_images: None,
            compress_images: None,
            image_quality: None,
            image_handling_mode: None,
            image_output_path: None,
            include_slide_comment: None,
        }
    }
}

impl ParserConfigBuilder {
    pub closed spec fn chosen_extract_images(self) -> Option<bool> {
        self.extract_images
    }

    pub closed spec fn chosen_compress_images(self) -> Option<bool> {
        self.compress_images
    }

    pub closed spec fn chosen_quality(self) -> Option<u8> {
        self.image_quality
    }

    pub closed spec fn chosen_image_handling_mode(self) -> Option<ImageHandlingMode> {
        self.image_handling_mode
    }

    pub closed spec fn chosen_image_output_path(self) -> Option<PathBuf> {
        self.image_output_path
    }

    pub closed spec fn chosen_include_slide_comment(self) -> Option<bool> {
        self.include_slide_comment
    }

    /// Whether the two builders agree on every setting but those named `true`.
    pub open spec fn same_but(
        self,
        other: Self,
        extract_images: bool,
        compress_images: bool,
        quality: bool,
        image_handling_mode: bool,
        image_output_path: bool,
        include_slide_comment: bool,
    ) -> bool {
        &&& extract_images || self.chosen_extract_images() == other.chosen_extract_images()
        &&& compress_images || self.chosen_compress_images() == other.chosen_compress_images()
        &&& quality || self.chosen_quality() == other.chosen_quality()
        &&& image_handling_mode || self.chosen_image_handling_mode()
            == other.chosen_image_handling_mode()
        &&& image_output_path || self.chosen_image_output_path()
            == other.chosen_image_output_path()
        &&& include_slide_comment || self.chosen_include_slide_comment()
            == other.chosen_include_slide_comment()
    }

    /// Chooses whether the images of a slide are read at all.
    pub fn extract_images(self, value: bool) -> (builder: Self)
        ensures
            builder.chosen_extract_images() == Some(value),
            builder.same_but(self, true, false, false, false, false, false),
    {
        let mut builder = self;
        builder.extract_images = Some(value);
        builder
    }

    /// Chooses whether images are re-encoded as JPEG before they are handed out.
    pub fn compress_images(self, value: bool) -> (builder: Self)
        ensures
            builder.chosen_compress_images() == Some(value),
            builder.same_but(self, false, true, false, false, false, false),
    {
        let mut builder = self;
        builder.compress_images = Some(value);
        builder
    }

    /// Chooses the JPEG quality, from 0 to 100, that compression uses.
    pub fn quality(self, value: u8) -> (builder: Self)
        ensures
            builder.chosen_quality() == Some(value),
            builder.same_but(self, false, false, true, false, false, false),
    {
        let mut builder = self;
        builder.image_quality = Some(value);
        builder
    }

    /// Chooses what rendering does with images.
    pub fn image_handling_mode(self, value: ImageHandlingMode) -> (builder: Self)
        ensures
            builder.chosen_image_handling_mode() == Some(value),
            builder.same_but(self, false, false, false, true, false, false),
    {
        let mut builder = self;
        builder.image_handling_mode = Some(value);
        builder
    }

    /// Chooses the directory that [`ImageHandlingMode::Save`] writes to.
    pub fn image_output_path<P>(self, path: P) -> (builder: Self) where P: Into<PathBuf>
        ensures
            builder.chosen_image_output_path() is Some,
            P::obeys_into_spec() ==> builder.chosen_image_output_path() == Some(path.into_spec()),
            builder.same_but(self, false, false, false, false, true, false),
    {
        let mut builder = self;
        builder.image_output_path = Some(path.into());
        builder
    }

    /// Chooses whether the Markdown of a slide starts with a comment that
    /// holds the slide's number.
    pub fn include_slide_comment(self, value: bool) -> (builder: Self)
        ensures
            builder.chosen_include_slide_comment() == Some(value),
            builder.same_but(self, false, false, false, false, false, true),
    {
        let mut builder = self;
        builder.include_slide_comment = Some(value);
        builder
    }

    /// The configuration with every choice made so far, and the default for
    /// each setting that was not chosen.
    pub fn build(self) -> (config: ParserConfig)
        ensures
            config.extract_images == match self.chosen_extract_images() {
                Some(value) => value,
                None => true,
            },
            config.compress_images == match self.chosen_compress_images() {
                Some(value) => value,
                None => true,
            },
            config.quality == match self.chosen_quality() {
                Some(value) => value,
                None => 80u8,
            },
            config.image_handling_mode == match self.chosen_image_handling_mode() {
                Some(value) => value,
                None => ImageHandlingMode::InMarkdown,
            },
            config.image_output_path == self.chosen_image_output_path(),
            config.include_slide_comment == match self.chosen_include_slide_comment() {
                Some(value) => value,
                None => true,
            },
    {
        ParserConfig {
            extract_images: match self.extract_images {
                Some(value) => value,
                None => true,
            },
            compress_images: match self.compress_images {
                Some(value) => value,
                None => true,
            },
            quality: match self.image_quality {
                Some(value) => value,
                None => 80,
            },
            image_handling_mode: match self.image_handling_mode {
                Some(value) => value,
                None => ImageHandlingMode::InMarkdown,
            },
            image_output_path: self.image_output_path,
            include_slide_comment: match self.include_slide_comment {
                Some(value) => value,
                None => true,
            },
        }
    }
}

} // verus!
