//! A library for a plain-text slide-deck markup dialect.
//!
//! A document is a sequence of slides separated by `---` dividers; each slide
//! is a sequence of nodes: headers, paragraphs, lists, fenced code blocks,
//! images and comments.  The parser turns the raw document text into an
//! ordered deck of slides; its behaviour is specified by spec functions over
//! sequences of characters and proved for every input.

pub mod grammar;
pub mod laws;
pub mod model;
pub mod parser;
pub mod scan;

pub use model::CodeBlockParams;
pub use model::CodeFontStyle;
pub use model::HeaderSize;
pub use model::Image;
pub use model::ImageParams;
pub use model::Language;
pub use model::Presentation;
pub use model::PresentationState;
pub use model::Slide;
pub use model::SlideNode;
pub use parser::parse_code_block;
pub use parser::parse_code_block_params;
pub use parser::parse_comment;
pub use parser::parse_header;
pub use parser::parse_image;
pub use parser::parse_image_params;
pub use parser::parse_numbered_list;
pub use parser::parse_presentation;
pub use parser::parse_slide;
pub use parser::parse_slide_divider;
pub use parser::parse_slide_node;
pub use parser::parse_slides;
pub use parser::parse_text_section;
pub use parser::parse_unnumbered_list;
pub use scan::till_pat_consuming;
