use slide_deck::CodeBlockParams;
use slide_deck::CodeFontStyle;
use slide_deck::ImageParams;
use slide_deck::SlideNode;

#[test]
fn code_block_params_parse_each_font_style() {
    let cases = [
        ("regular", CodeFontStyle::Regular),
        ("bold", CodeFontStyle::Bold),
        ("semi_bold", CodeFontStyle::SemiBold),
        ("light", CodeFontStyle::Light),
        ("semi_light", CodeFontStyle::SemiLight),
        ("extra_light", CodeFontStyle::ExtraLight),
    ];
    for (token, style) in cases {
        let input = format!("| font_style: {}\n```\nx\n```", token);
        let (params, _) = slide_deck::parse_code_block_params(&input).unwrap();
        assert_eq!(params.font_style, Some(style));
    }
}

#[test]
fn code_block_params_stop_at_first_plain_line() {
    let (params, tail) =
        slide_deck::parse_code_block_params("| font_size: 12\nnot a param\n").unwrap();
    assert_eq!(params.font_size, Some(12));
    assert_eq!(tail, "not a param\n");
}

#[test]
fn code_block_params_reject_unknown_key() {
    assert_eq!(slide_deck::parse_code_block_params("| frobnicate: yes\n```\nx\n```"), None);
}

#[test]
fn code_block_with_unknown_param_key_falls_back_to_text() {
    let (node, _) = slide_deck::parse_slide_node("| frobnicate: yes\n```\nx\n```\n\n");
    assert!(matches!(node, SlideNode::Text(_)));
}

#[test]
fn code_block_params_drop_rest_of_line_after_value() {
    let (params, _) =
        slide_deck::parse_code_block_params("| font_size: 20pt extra words\n```\nx\n```").unwrap();
    assert_eq!(params.font_size, Some(20));
}

#[test]
fn block_terminator_runs_to_end_of_line() {
    let (params, _) =
        slide_deck::parse_code_block_params("| block_terminator: END OF BLOCK\n```\nx\n```END OF BLOCK")
            .unwrap();
    assert_eq!(params.block_terminator, Some("END OF BLOCK".to_string()));
}

#[test]
fn params_empty_when_no_parameter_lines() {
    let (params, tail) = slide_deck::parse_code_block_params("```rust\nx\n```").unwrap();
    assert_eq!(params, CodeBlockParams::default());
    assert_eq!(tail, "```rust\nx\n```");
}

#[test]
fn image_params_parse_scale_percentage() {
    let (params, tail) = slide_deck::parse_image_params("{ scale: 75%; } and on");
    assert_eq!(params, ImageParams { scale: Some(75) });
    assert_eq!(tail, " and on");
}

#[test]
fn image_params_missing_brace_leave_input_alone() {
    let (params, tail) = slide_deck::parse_image_params("no block here");
    assert_eq!(params, ImageParams { scale: None });
    assert_eq!(tail, "no block here");
}

#[test]
fn image_scale_saturates_on_absurd_values() {
    let (image, _) =
        slide_deck::parse_image("![a](p.png){ scale: 99999999999999999999%; }\n\n").unwrap();
    assert_eq!(image.params.scale, Some(u32::MAX));
}

#[test]
fn comment_direct_parse() {
    let (comment, tail) = slide_deck::parse_comment("//note\n\nrest").unwrap();
    assert_eq!(comment, "note".to_string());
    assert_eq!(tail, "rest");
}

#[test]
fn list_items_are_trimmed_of_trailing_whitespace() {
    let (items, _) = slide_deck::parse_unnumbered_list("- a \n- b\t\n\n").unwrap();
    assert_eq!(items, vec!["a".to_string(), "b".to_string()]);
}
