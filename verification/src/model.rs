//! The data model of a slide deck: header sizes, languages, code-block
//! parameters, images, slide nodes, slides and whole presentations, together
//! with their mathematical models (views).

use vstd::prelude::*;

use crate::scan::str_eq;

verus! {

/// Header level, derived from the number of leading `#` characters (1 to 5).
#[derive(Debug, Clone, Copy, PartialEq, Eq, Structural)]
pub enum HeaderSize {
    One,
    Two,
    Three,
    Four,
    Five,
}

impl HeaderSize {
    /// The ordinal of the header level: 1 for `One` up to 5 for `Five`.
    pub open spec fn spec_level(self) -> u8 {
        match self {
            HeaderSize::One => 1,
            HeaderSize::Two => 2,
            HeaderSize::Three => 3,
            HeaderSize::Four => 4,
            HeaderSize::Five => 5,
        }
    }

    /// The ordinal of the header level as an integer.
    #[verifier::when_used_as_spec(spec_level)]
    pub fn level(self) -> (n: u8)
        ensures
            n == self.spec_level(),
    {
        match self {
            HeaderSize::One => 1,
            HeaderSize::Two => 2,
            HeaderSize::Three => 3,
            HeaderSize::Four => 4,
            HeaderSize::Five => 5,
        }
    }

    /// The header level with a given ordinal, for ordinals 1 to 5.
    pub open spec fn spec_from_level(n: int) -> HeaderSize {
        if n == 1 {
            HeaderSize::One
        } else if n == 2 {
            HeaderSize::Two
        } else if n == 3 {
            HeaderSize::Three
        } else if n == 4 {
            HeaderSize::Four
        } else {
            HeaderSize::Five
        }
    }

    /// Safe mapping from a count of `#` characters to a header level.
    /// Returns `None` outside 1 to 5.
    pub fn from_level(n: usize) -> (r: Option<HeaderSize>)
        ensures
            1 <= n <= 5 ==> r == Some(HeaderSize::spec_from_level(n as int)),
            !(1 <= n <= 5) ==> r is None,
    {
        match n {
            1 => Some(HeaderSize::One),
            2 => Some(HeaderSize::Two),
            3 => Some(HeaderSize::Three),
            4 => Some(HeaderSize::Four),
            5 => Some(HeaderSize::Five),
            _ => None,
        }
    }

    /// The display font size of a header: level 1 is largest.
    /// Levels 1 to 5 map to 90, 80, 70, 60 and 50 exactly.
    pub fn to_font_size(self) -> (s: u16)
        ensures
            s == 100 - 10 * self.spec_level(),
            self == HeaderSize::One ==> s == 90,
            self == HeaderSize::Two ==> s == 80,
            self == HeaderSize::Three ==> s == 70,
            self == HeaderSize::Four ==> s == 60,
            self == HeaderSize::Five ==> s == 50,
    {
        match self {
            HeaderSize::One => 90,
            HeaderSize::Two => 80,
            HeaderSize::Three => 70,
            HeaderSize::Four => 60,
            HeaderSize::Five => 50,
        }
    }
}

/// A syntax-highlighting language of a code block.  Unrecognized language
/// tokens degrade to `PlainText` rather than failing the parse.
#[derive(Debug, Clone, Copy, PartialEq, Eq, Structural)]
pub enum Language {
    Rust,
    PlainText,
}

impl Language {
    /// The language a token names, if it names one at all.
    pub open spec fn spec_from_token(tok: Seq<char>) -> Option<Language> {
        if tok == "rust"@ {
            Some(Language::Rust)
        } else if tok == "plain_text"@ {
            Some(Language::PlainText)
        } else {
            None
        }
    }

    /// The language a token names: `rust` and `plain_text` are recognized,
    /// anything else is `None` and left to the caller's fallback.
    pub fn from_token(tok: &str) -> (r: Option<Language>)
        ensures
            r == Language::spec_from_token(tok@),
    {
        if str_eq(tok, "rust") {
            Some(Language::Rust)
        } else if str_eq(tok, "plain_text") {
            Some(Language::PlainText)
        } else {
            None
        }
    }
}

/// The model of an optional image.
pub open spec fn image_opt_view(o: Option<Image>) -> Option<ImageModel> {
    match o {
        Some(image) => Some(image.view()),
        None => None,
    }
}

/// A named font style of a code block.
#[derive(Debug, Clone, Copy, PartialEq, Eq, Structural)]
pub enum CodeFontStyle {
    Regular,
    Bold,
    SemiBold,
    Light,
    SemiLight,
    ExtraLight,
}

/// Optional rendering parameters of a code block, set by `| key: value`
/// lines in front of the opening fence.
#[derive(Debug, Clone, PartialEq, Eq)]
pub struct CodeBlockParams {
    pub font_size: Option<u16>,
    pub font_style: Option<CodeFontStyle>,
    pub block_terminator: Option<String>,
}

/// The model of `CodeBlockParams`: the terminator as a sequence of characters.
pub struct ParamsModel {
    pub font_size: Option<u16>,
    pub font_style: Option<CodeFontStyle>,
    pub block_terminator: Option<Seq<char>>,
}

impl View for CodeBlockParams {
    type V = ParamsModel;

    open spec fn view(&self) -> ParamsModel {
        ParamsModel {
            font_size: self.font_size,
            font_style: self.font_style,
            block_terminator: match self.block_terminator {
                Some(ref t) => Some(t@),
                None => None,
            },
        }
    }
}

impl DeepView for CodeBlockParams {
    type V = ParamsModel;

    open spec fn deep_view(&self) -> ParamsModel {
        self.view()
    }
}

impl Default for CodeBlockParams {
    /// Parameters with every field unset.
    fn default() -> (r: CodeBlockParams)
        ensures
            r@ == ParamsModel::empty(),
    {
        CodeBlockParams { font_size: None, font_style: None, block_terminator: None }
    }
}

impl ParamsModel {
    /// The model of parameters with every field unset.
    pub open spec fn empty() -> ParamsModel {
        ParamsModel { font_size: None, font_style: None, block_terminator: None }
    }
}

/// Optional rendering parameters of an image, set by a `{ scale: N%; }`
/// block after the image syntax.  The scale is a whole-number percentage.
#[derive(Debug, Clone, PartialEq, Eq)]
pub struct ImageParams {
    pub scale: Option<u32>,
}

impl Default for ImageParams {
    /// Parameters with no scale set.
    fn default() -> (r: ImageParams)
        ensures
            r.scale is None,
    {
        ImageParams { scale: None }
    }
}

/// An image reference: source path (relative to the document), alt text
/// (possibly empty) and optional parameters.  Decoding the referenced file
/// is left to the consumer; the parser never inspects it.
#[derive(Debug, Clone, PartialEq, Eq)]
pub struct Image {
    pub path: String,
    pub alt_text: String,
    pub params: ImageParams,
}

/// The model of an `Image`: path and alt text as character sequences,
/// the scale percentage as parsed.
pub struct ImageModel {
    pub path: Seq<char>,
    pub alt_text: Seq<char>,
    pub scale: Option<u32>,
}

impl View for Image {
    type V = ImageModel;

    open spec fn view(&self) -> ImageModel {
        ImageModel { path: self.path@, alt_text: self.alt_text@, scale: self.params.scale }
    }
}

impl DeepView for Image {
    type V = ImageModel;

    open spec fn deep_view(&self) -> ImageModel {
        self.view()
    }
}

/// One structural unit of a slide.
#[derive(Debug, Clone, PartialEq, Eq)]
pub enum SlideNode {
    Header(HeaderSize, String),
    Text(String),
    UnnumberedList(Vec<String>),
    NumberedList(Vec<String>),
    CodeBlock(Language, CodeBlockParams, String),
    Image(Image),
    /// Kept in the deck but never rendered.
    Comment(String),
}

/// The model of a `SlideNode` over character sequences.
pub enum NodeModel {
    Header(HeaderSize, Seq<char>),
    Text(Seq<char>),
    UnnumberedList(Seq<Seq<char>>),
    NumberedList(Seq<Seq<char>>),
    CodeBlock(Language, ParamsModel, Seq<char>),
    Image(ImageModel),
    Comment(Seq<char>),
}

impl View for SlideNode {
    type V = NodeModel;

    open spec fn view(&self) -> NodeModel {
        match self {
            SlideNode::Header(size, text) => NodeModel::Header(*size, text@),
            SlideNode::Text(text) => NodeModel::Text(text@),
            SlideNode::UnnumberedList(items) => NodeModel::UnnumberedList(items.deep_view()),
            SlideNode::NumberedList(items) => NodeModel::NumberedList(items.deep_view()),
            SlideNode::CodeBlock(lang, params, code) => NodeModel::CodeBlock(
                *lang,
                params@,
                code@,
            ),
            SlideNode::Image(image) => NodeModel::Image(image@),
            SlideNode::Comment(text) => NodeModel::Comment(text@),
        }
    }
}

impl DeepView for SlideNode {
    type V = NodeModel;

    open spec fn deep_view(&self) -> NodeModel {
        self.view()
    }
}

/// One slide: its nodes in presentation order and an optional background
/// image set by a divider at the head of the slide.
#[derive(Debug, Clone, PartialEq, Eq)]
pub struct Slide {
    pub nodes: Vec<SlideNode>,
    pub background: Option<Image>,
}

/// The model of a `Slide`.
pub struct SlideModel {
    pub nodes: Seq<NodeModel>,
    pub background: Option<ImageModel>,
}

impl View for Slide {
    type V = SlideModel;

    open spec fn view(&self) -> SlideModel {
        SlideModel {
            nodes: self.nodes.deep_view(),
            background: match self.background {
                Some(ref image) => Some(image@),
                None => None,
            },
        }
    }
}

impl DeepView for Slide {
    type V = SlideModel;

    open spec fn deep_view(&self) -> SlideModel {
        self.view()
    }
}

/// A whole deck: title and source location supplied by the caller, and the
/// parsed slides in document order.
#[derive(Debug, Clone, PartialEq, Eq)]
pub struct Presentation {
    pub title: String,
    pub path: String,
    pub slides: Vec<Slide>,
}

/// The model of a `Presentation`.
pub struct PresentationModel {
    pub title: Seq<char>,
    pub path: Seq<char>,
    pub slides: Seq<SlideModel>,
}

impl View for Presentation {
    type V = PresentationModel;

    open spec fn view(&self) -> PresentationModel {
        PresentationModel {
            title: self.title@,
            path: self.path@,
            slides: self.slides.deep_view(),
        }
    }
}

impl DeepView for Presentation {
    type V = PresentationModel;

    open spec fn deep_view(&self) -> PresentationModel {
        self.view()
    }
}

/// The position of a viewer within a deck: the index of the slide on show.
#[derive(Debug, Clone, PartialEq, Eq, Structural)]
pub struct PresentationState {
    pub slide_idx: usize,
}

impl Default for PresentationState {
    /// A viewer starts on the first slide.
    fn default() -> (r: PresentationState)
        ensures
            r.slide_idx == 0,
    {
        PresentationState { slide_idx: 0 }
    }
}

impl PresentationState {
    /// Advance to the next slide, stopping at the last one.
    pub fn next_slide(&mut self, slide_count: usize)
        requires
            slide_count > 0,
        ensures
            final(self).slide_idx == if old(self).slide_idx + 1 < slide_count {
                old(self).slide_idx + 1
            } else {
                slide_count - 1
            },
    {
        if self.slide_idx < slide_count - 1 {
            self.slide_idx = self.slide_idx + 1;
        } else {
            self.slide_idx = slide_count - 1;
        }
    }

    /// Step back to the previous slide, stopping at the first one.
    pub fn prev_slide(&mut self)
        ensures
            final(self).slide_idx == if old(self).slide_idx > 0 {
                (old(self).slide_idx - 1) as usize
            } else {
                0usize
            },
    {
        if self.slide_idx > 0 {
            self.slide_idx = self.slide_idx - 1;
        }
    }
}

} // verus!
