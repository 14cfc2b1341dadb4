use slide_deck::CodeBlockParams;
use slide_deck::CodeFontStyle;
use slide_deck::HeaderSize;
use slide_deck::Image;
use slide_deck::ImageParams;
use slide_deck::Language;
use slide_deck::Slide;
use slide_deck::SlideNode;

fn sample_presentation() -> &'static str {
    r######"## Wprowadzenie do Rusta, dla tych, którzy już trochę programować umieją

Maciej Sołtys

---

# Rust


tutaj jakiś wstęp / najważniejsze punkty

hahalol

---

### Another one

- my
- super awesome
- list of things :)
"######
}

#[test]
fn parse_presentation_test() {
    let presentation = slide_deck::parse_presentation(
        String::from("test presentation"),
        String::from("test presentation.md"),
        sample_presentation(),
    );
    println!("{:#?}", presentation);
}

#[test]
fn parse_header_test() {
    let (header_size, header, _) = slide_deck::parse_header("# hello").unwrap();
    assert!(matches!(header_size, HeaderSize::One));
    assert_eq!(&header, "hello");
}

#[test]
fn parse_header_with_newlines() {
    let (header_size, header, _) = slide_deck::parse_header("##### hi\n\n").unwrap();
    assert!(matches!(header_size, HeaderSize::Five));
    assert_eq!(&header, "hi");
}

#[test]
fn parse_headers() {
    let expected = Slide {
        nodes: vec![
            SlideNode::Header(HeaderSize::Three, String::from("hi1")),
            SlideNode::Header(HeaderSize::Two, String::from("Hello 2")),
        ],
        background: None,
    };

    let (slide_nodes, _) = slide_deck::parse_slide("### hi1\n\n## Hello 2\n\n");
    assert_eq!(slide_nodes, expected);

    let (slide_nodes, _) = slide_deck::parse_slide("### hi1\n\n## Hello 2");
    assert_eq!(slide_nodes, expected);

    let (slide_nodes, _) = slide_deck::parse_slide("### hi1\n\n## Hello 2\n");
    assert_eq!(slide_nodes, expected);
}

#[test]
fn parse_image() {
    let expected = Image {
        path: "ferris.png".to_string(),
        alt_text: "Ferris the crab".to_string(),
        params: Default::default(),
    };

    let (image, _) = slide_deck::parse_image("![Ferris the crab](ferris.png)").unwrap();
    println!("{:?}", image);
    println!("{:?}", expected);

    assert_eq!(image, expected);
}

#[test]
fn parse_image_with_empty_alt_text() {
    let expected = Image {
        path: "ferris.png".to_string(),
        alt_text: "".to_string(),
        params: Default::default(),
    };

    let (image, _) = slide_deck::parse_image("![](ferris.png)").unwrap();
    assert_eq!(expected, image);
}

#[test]
fn parse_image_with_params() {
    let expected = Image {
        path: "ferris.png".to_string(),
        alt_text: "Ferris the crab".to_string(),
        params: ImageParams { scale: Some(50) },
    };

    let (image, _) =
        slide_deck::parse_image("![Ferris the crab](ferris.png){ scale: 50%; }").unwrap();
    println!("{:?}", image);
    println!("{:?}", expected);

    assert_eq!(image, expected);
}

#[test]
fn parse_code_block() {
    let expected = (
        Language::Rust,
        CodeBlockParams::default(),
        r#"enum Result<T, E> {
	Ok(T),
	Err(E),
}

fn main() {
	println!("Hello, World!");
}
"#
        .to_string(),
    );

    let (code_block, _) = slide_deck::parse_code_block(
        r#"```rust
enum Result<T, E> {
	Ok(T),
	Err(E),
}

fn main() {
	println!("Hello, World!");
}
```"#,
    )
    .unwrap();

    assert_eq!(expected, code_block);
}

#[test]
fn parse_code_block_plaintext() {
    let expected = (
        Language::PlainText,
        CodeBlockParams::default(),
        r#"enum Result<T, E> {
	Ok(T),
	Err(E),
}

fn main() {
	println!("Hello, World!");
}
"#
        .to_string(),
    );

    let (code_block, _) = slide_deck::parse_code_block(
        r#"```
enum Result<T, E> {
	Ok(T),
	Err(E),
}

fn main() {
	println!("Hello, World!");
}
```"#,
    )
    .unwrap();

    assert_eq!(expected, code_block);

    let (code_block, _) = slide_deck::parse_code_block(
        r#"```plain_text
enum Result<T, E> {
	Ok(T),
	Err(E),
}

fn main() {
	println!("Hello, World!");
}
```"#,
    )
    .unwrap();

    assert_eq!(expected, code_block);
}

#[test]
fn parse_code_block_with_params() {
    let expected = (
        Language::Rust,
        CodeBlockParams {
            font_size: Some(20),
            font_style: Some(CodeFontStyle::ExtraLight),
            block_terminator: None,
        },
        r#"enum Result<T, E> {
	Ok(T),
	Err(E),
}

fn main() {
	println!("Hello, World!");
}
"#
        .to_string(),
    );

    let (code_block, _) = slide_deck::parse_code_block(
        r#"| font_size: 20
| font_style: extra_light
```rust
enum Result<T, E> {
	Ok(T),
	Err(E),
}

fn main() {
	println!("Hello, World!");
}
```"#,
    )
    .unwrap();

    assert_eq!(expected, code_block);
}

#[test]
fn parse_unnumbered_list_slide() {
    let expected = Slide {
        nodes: vec![SlideNode::UnnumberedList(vec![
            "Ala".to_string(),
            "ma".to_string(),
            "kota".to_string(),
        ])],
        background: None,
    };

    let (slide, _) = slide_deck::parse_slide("-    Ala\n- ma\n- kota\n\n");

    assert_eq!(slide, expected);
}

#[test]
fn parse_numbered_list_slide() {
    let expected = Slide {
        nodes: vec![SlideNode::NumberedList(vec![
            "Ala".to_string(),
            "ma".to_string(),
            "kota".to_string(),
        ])],
        background: None,
    };

    let (slide, _) = slide_deck::parse_slide("1. Ala\n2. ma\n3.    kota\n\n");

    assert_eq!(slide, expected);
}

#[test]
fn parse_code_block_slide() {
    let expected = Slide {
        nodes: vec![SlideNode::CodeBlock(
            Language::Rust,
            CodeBlockParams::default(),
            r#"enum Result<T, E> {
	Ok(T),
	Err(E),
}

fn main() {
	println!("Hello, World!");
}
"#
            .to_string(),
        )],
        background: None,
    };

    let (slide, _) = slide_deck::parse_slide(
        r#"```rust
enum Result<T, E> {
	Ok(T),
	Err(E),
}

fn main() {
	println!("Hello, World!");
}
```

"#,
    );

    assert_eq!(expected, slide);
}

#[test]
fn parse_code_block_with_params_slide() {
    let expected = Slide {
        nodes: vec![SlideNode::CodeBlock(
            Language::Rust,
            CodeBlockParams {
                font_size: Some(98),
                font_style: Some(CodeFontStyle::SemiLight),
                block_terminator: None,
            },
            r#"enum Result<T, E> {
	Ok(T),
	Err(E),
}

fn main() {
	println!("Hello, World!");
}
"#
            .to_string(),
        )],
        background: None,
    };

    let (slide, _) = slide_deck::parse_slide(
        r#"| font_style: semi_light
| font_size: 98
```rust
enum Result<T, E> {
	Ok(T),
	Err(E),
}

fn main() {
	println!("Hello, World!");
}
```

"#,
    );

    assert_eq!(expected, slide);
}

#[test]
fn parse_image_slide() {
    let expected = Slide {
        nodes: vec![SlideNode::Image(Image {
            path: "ferris.png".to_string(),
            alt_text: "ferris".to_string(),
            params: Default::default(),
        })],
        background: None,
    };

    let (slide_nodes, _) = slide_deck::parse_slide("![ferris](ferris.png)\n\n");
    assert_eq!(slide_nodes, expected);
}

#[test]
fn parse_slide_background() {
    let expected = Slide {
        nodes: vec![SlideNode::Text("Hello, World!".to_string())],
        background: Some(Image {
            path: "assets/generic-background.jpg".to_string(),
            alt_text: "".to_string(),
            params: Default::default(),
        }),
    };

    let (slide, _) = slide_deck::parse_slide(
        r#"---![](assets/generic-background.jpg)

Hello, World!

"#,
    );

    assert_eq!(expected, slide);
}

#[test]
fn parse_slide_background_for_second_slide() {
    let expected = vec![
        Slide {
            nodes: vec![SlideNode::Header(
                HeaderSize::One,
                "first slide".to_string(),
            )],
            background: None,
        },
        Slide {
            nodes: vec![SlideNode::Text("Hello, World!".to_string())],
            background: Some(Image {
                path: "assets/generic-background.jpg".to_string(),
                alt_text: "".to_string(),
                params: Default::default(),
            }),
        },
    ];

    let slides = slide_deck::parse_slides(
        r#"# first slide

---![](assets/generic-background.jpg)

Hello, World!

"#,
    );

    assert_eq!(expected, slides);
}

#[test]
fn parse_slide_test() {
    let (slide, tail) = slide_deck::parse_slide("hello\n\nworld");
    println!("{:#?}", slide);
    println!("{:?}", tail);
}

#[test]
fn parse_slide_node_test() {
    let (slide_node, tail) = slide_deck::parse_slide_node(sample_presentation());
    println!("{:?}", slide_node);
    println!("{:?}", tail);
}

#[test]
fn f() {
    let (header_size, header, tail) = slide_deck::parse_header(sample_presentation()).unwrap();
    println!("{:?}", (header_size, &header));
    println!("{:?}", tail);
    let (text, tail) = slide_deck::parse_text_section(tail);
    println!("{:?}", text);
    println!("{:?}", tail);
}
