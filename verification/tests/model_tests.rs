use slide_deck::HeaderSize;
use slide_deck::Language;
use slide_deck::PresentationState;

#[test]
fn main_header_size_test() {
    let hs1 = HeaderSize::One;
    let hs2 = HeaderSize::Two;
    let hs5 = HeaderSize::Five;

    assert_eq!(hs1.level(), 1);
    assert_eq!(hs2.level(), 2);
    assert_eq!(hs5.level(), 5);
}

#[test]
fn main_header_size_to_font_size_conversion_test() {
    assert_eq!(HeaderSize::One.to_font_size(), 90);
    assert_eq!(HeaderSize::Two.to_font_size(), 80);
    assert_eq!(HeaderSize::Three.to_font_size(), 70);
    assert_eq!(HeaderSize::Four.to_font_size(), 60);
    assert_eq!(HeaderSize::Five.to_font_size(), 50);
}

#[test]
fn ui_models_header_size_test() {
    let hs1 = HeaderSize::One;
    let hs2 = HeaderSize::Two;
    let hs5 = HeaderSize::Five;

    assert_eq!(hs1.level(), 1);
    assert_eq!(hs2.level(), 2);
    assert_eq!(hs5.level(), 5);
}

#[test]
fn ui_models_header_size_to_font_size_conversion_test() {
    assert_eq!(HeaderSize::One.to_font_size(), 90);
    assert_eq!(HeaderSize::Two.to_font_size(), 80);
    assert_eq!(HeaderSize::Three.to_font_size(), 70);
    assert_eq!(HeaderSize::Four.to_font_size(), 60);
    assert_eq!(HeaderSize::Five.to_font_size(), 50);
}

#[test]
fn header_size_from_level_round_trip() {
    assert_eq!(HeaderSize::from_level(1), Some(HeaderSize::One));
    assert_eq!(HeaderSize::from_level(2), Some(HeaderSize::Two));
    assert_eq!(HeaderSize::from_level(3), Some(HeaderSize::Three));
    assert_eq!(HeaderSize::from_level(4), Some(HeaderSize::Four));
    assert_eq!(HeaderSize::from_level(5), Some(HeaderSize::Five));
    assert_eq!(HeaderSize::from_level(0), None);
    assert_eq!(HeaderSize::from_level(6), None);
}

#[test]
fn language_token_recognition() {
    assert_eq!(Language::from_token("rust"), Some(Language::Rust));
    assert_eq!(Language::from_token("plain_text"), Some(Language::PlainText));
    assert_eq!(Language::from_token("fooscript"), None);
    assert_eq!(Language::from_token(""), None);
}

#[test]
fn navigation_clamps_at_deck_edges() {
    let mut state = PresentationState::default();
    assert_eq!(state.slide_idx, 0);
    state.prev_slide();
    assert_eq!(state.slide_idx, 0);
    state.next_slide(3);
    assert_eq!(state.slide_idx, 1);
    state.next_slide(3);
    assert_eq!(state.slide_idx, 2);
    state.next_slide(3);
    assert_eq!(state.slide_idx, 2);
    state.prev_slide();
    assert_eq!(state.slide_idx, 1);
}
