use slide_deck::CodeBlockParams;
use slide_deck::HeaderSize;
use slide_deck::Image;
use slide_deck::ImageParams;
use slide_deck::Language;
use slide_deck::Slide;
use slide_deck::SlideNode;

#[test]
fn header_level_round_trip() {
    let inputs = ["# one\n\n", "## two\n\n", "### three\n\n", "#### four\n\n", "##### five\n\n"];
    let levels =
        [HeaderSize::One, HeaderSize::Two, HeaderSize::Three, HeaderSize::Four, HeaderSize::Five];
    let texts = ["one", "two", "three", "four", "five"];
    let mut i = 0;
    while i < 5 {
        let (size, text, tail) = slide_deck::parse_header(inputs[i]).unwrap();
        assert_eq!(size, levels[i]);
        assert_eq!(text, texts[i]);
        assert_eq!(tail, "");
        i += 1;
    }
}

#[test]
fn header_trims_but_keeps_internal_whitespace() {
    let (size, text, _) = slide_deck::parse_header("##   a  b \n\n").unwrap();
    assert_eq!(size, HeaderSize::Two);
    assert_eq!(text, "a  b");
}

#[test]
fn six_hashes_fall_back_to_text() {
    let (node, _) = slide_deck::parse_slide_node("###### six\n\n");
    assert_eq!(node, SlideNode::Text("###### six".to_string()));
}

#[test]
fn unnumbered_list_item_whitespace_independence() {
    let (items, tail) = slide_deck::parse_unnumbered_list("-    Ala\n- ma\n- kota\n\n").unwrap();
    assert_eq!(items, vec!["Ala".to_string(), "ma".to_string(), "kota".to_string()]);
    assert_eq!(tail, "");
}

#[test]
fn numbered_list_marker_values_are_cosmetic() {
    let (a, _) = slide_deck::parse_numbered_list("1. Ala\n2. ma\n3.    kota\n\n").unwrap();
    let (b, _) = slide_deck::parse_numbered_list("5. Ala\n5. ma\n5. kota\n\n").unwrap();
    assert_eq!(a, b);
    assert_eq!(a, vec!["Ala".to_string(), "ma".to_string(), "kota".to_string()]);
}

#[test]
fn numbered_list_marker_dot_is_optional() {
    let (items, _) = slide_deck::parse_numbered_list("1 Ala\n2 ma\n\n").unwrap();
    assert_eq!(items, vec!["Ala".to_string(), "ma".to_string()]);
}

#[test]
fn list_without_closing_newline_falls_back_to_text() {
    let (node, _) = slide_deck::parse_slide_node("- a\n- b");
    assert_eq!(node, SlideNode::Text("- a\n- b".to_string()));
}

#[test]
fn custom_terminator_keeps_embedded_fence() {
    let (code_block, _) = slide_deck::parse_code_block(
        "| block_terminator: XYZ\n```rust\nlet a = 1;\n```\nmore\n```XYZ",
    )
    .unwrap();
    let expected = (
        Language::Rust,
        CodeBlockParams {
            font_size: None,
            font_style: None,
            block_terminator: Some("XYZ".to_string()),
        },
        "let a = 1;\n```\nmore\n".to_string(),
    );
    assert_eq!(code_block, expected);
}

#[test]
fn default_terminator_truncates_at_embedded_fence() {
    let (code_block, _) =
        slide_deck::parse_code_block("```rust\nlet a = 1;\n```\nmore\n```\n\n").unwrap();
    assert_eq!(code_block.2, "let a = 1;\n".to_string());
}

#[test]
fn font_size_over_sixteen_bits_fails_the_block() {
    let (node, _) = slide_deck::parse_slide_node("| font_size: 70000\n```rust\nx\n```\n\n");
    assert!(matches!(node, SlideNode::Text(_)));
}

#[test]
fn font_size_at_sixteen_bit_limit_is_kept() {
    let (code_block, _) =
        slide_deck::parse_code_block("| font_size: 65535\n```rust\nx\n```").unwrap();
    assert_eq!(code_block.1.font_size, Some(65535));
}

#[test]
fn unknown_language_falls_back_to_plain_text() {
    let (code_block, _) = slide_deck::parse_code_block("```fooscript\nwhatever\n```").unwrap();
    assert_eq!(code_block.0, Language::PlainText);
    assert_eq!(code_block.2, "whatever\n".to_string());
}

#[test]
fn background_vs_separator_disambiguation() {
    let slides = slide_deck::parse_slides("# first\n\n---![](bg.jpg)\n\nHello\n\n");
    let expected = vec![
        Slide {
            nodes: vec![SlideNode::Header(HeaderSize::One, "first".to_string())],
            background: None,
        },
        Slide {
            nodes: vec![SlideNode::Text("Hello".to_string())],
            background: Some(Image {
                path: "bg.jpg".to_string(),
                alt_text: "".to_string(),
                params: ImageParams { scale: None },
            }),
        },
    ];
    assert_eq!(slides, expected);
}

#[test]
fn parsing_twice_yields_equal_decks() {
    let doc = "# title\n\n- one\n- two\n\n---![](bg.png)\n\n```rust\nfn f() {}\n```\n\n// note\n\n";
    let a = slide_deck::parse_presentation("t".to_string(), "p.md".to_string(), doc);
    let b = slide_deck::parse_presentation("t".to_string(), "p.md".to_string(), doc);
    assert_eq!(a, b);
}

#[test]
fn empty_document_yields_empty_deck() {
    let slides = slide_deck::parse_slides("");
    assert_eq!(slides, Vec::<Slide>::new());
}

#[test]
fn presentation_carries_title_and_path() {
    let p = slide_deck::parse_presentation(
        "My deck".to_string(),
        "deck.md".to_string(),
        "Hello\n\n",
    );
    assert_eq!(p.title, "My deck".to_string());
    assert_eq!(p.path, "deck.md".to_string());
    assert_eq!(p.slides.len(), 1);
    assert_eq!(p.slides[0].nodes, vec![SlideNode::Text("Hello".to_string())]);
}

#[test]
fn comment_is_kept_verbatim() {
    let (node, _) = slide_deck::parse_slide_node("// note \n\nrest");
    assert_eq!(node, SlideNode::Comment(" note ".to_string()));
}

#[test]
fn image_params_without_semicolon_yield_default() {
    let (image, _) = slide_deck::parse_image("![a](p.png){ scale: 50% }\n\n").unwrap();
    assert_eq!(image.params, ImageParams { scale: None });
}

#[test]
fn image_with_empty_path_falls_back_to_text() {
    let (node, _) = slide_deck::parse_slide_node("![]()\n\n");
    assert!(matches!(node, SlideNode::Text(_)));
}

#[test]
fn divider_without_image_sets_no_background() {
    let (bg, tail) = slide_deck::parse_slide_divider("---rest").unwrap();
    assert_eq!(bg, None);
    assert_eq!(tail, "rest");
}

#[test]
fn delimiter_scanner_splits_and_consumes() {
    let (captured, tail) = slide_deck::till_pat_consuming("a\n\nb", "\n\n");
    assert_eq!(captured, "a".to_string());
    assert_eq!(tail, "b");
}

#[test]
fn delimiter_scanner_consumes_rest_when_absent() {
    let (captured, tail) = slide_deck::till_pat_consuming("abc", "\n\n");
    assert_eq!(captured, "abc".to_string());
    assert_eq!(tail, "");
}

#[test]
fn unicode_text_survives_parsing() {
    let (node, _) = slide_deck::parse_slide_node("## Wprowadzenie, już trochę\n\n");
    assert_eq!(
        node,
        SlideNode::Header(HeaderSize::Two, "Wprowadzenie, już trochę".to_string())
    );
}
