use mdbook_plugin_utils::block::{parse_blocks, Block, BlockError};
use pulldown_cmark::{CodeBlockKind, CowStr, Event, Tag, TagEnd};

fn is_toml_start(event: &Event) -> bool {
    matches!(event, Event::Start(Tag::CodeBlock(CodeBlockKind::Fenced(tag))) if tag == &CowStr::from("toml"))
}

fn is_code_end(event: &Event) -> bool {
    matches!(event, Event::End(TagEnd::CodeBlock))
}

#[test]
fn test_parse_blocks() {
    let content = "\
    ```toml\n\
    key1 = \"value1\"\n\
    key2 = \"value2\"\n\
    ```";
    let expected: Vec<Block> = vec![Block {
        closed: true,
        events: vec![
            Event::Start(Tag::CodeBlock(CodeBlockKind::Fenced(CowStr::from("toml")))),
            Event::Text(CowStr::from("key1 = \"value1\"\nkey2 = \"value2\"\n")),
            Event::End(TagEnd::CodeBlock),
        ],
        span: 0..43,
        inner_span: 8..40,
    }];

    let actual = parse_blocks(content, is_toml_start, is_code_end).unwrap();

    assert_eq!(expected, actual);
}

#[test]
fn test_parse_blocks_surrounded() {
    let content = "\
    Some text before the code block.\n\
    \n\
    ```toml\n\
    key1 = \"value1\"\n\
    key2 = \"value2\"\n\
    ```\n\
    \n\
    Some text after the code block.";
    let expected: Vec<Block> = vec![Block {
        closed: true,
        events: vec![
            Event::Start(Tag::CodeBlock(CodeBlockKind::Fenced(CowStr::from("toml")))),
            Event::Text(CowStr::from("key1 = \"value1\"\nkey2 = \"value2\"\n")),
            Event::End(TagEnd::CodeBlock),
        ],
        span: 34..77,
        inner_span: 42..74,
    }];

    let actual = parse_blocks(content, is_toml_start, is_code_end).unwrap();

    assert_eq!(expected, actual);
}

#[test]
fn test_parse_blocks_multiple() {
    let content = "\
    First TOML block:\n\
    ```toml\n\
    key1 = \"value1\"\n\
    key2 = \"value2\"\n\
    ```\n\
    First non-TOML block:\n\
    ```shell\n\
    echo test\n\
    ```\n\
    Second TOML block:\n\
    ```toml\n\
    key3 = \"value3\"\n\
    key4 = \"value4\"\n\
    ```";
    let expected: Vec<Block> = vec![
        Block {
            closed: true,
            events: vec![
                Event::Start(Tag::CodeBlock(CodeBlockKind::Fenced(CowStr::from("toml")))),
                Event::Text(CowStr::from("key1 = \"value1\"\nkey2 = \"value2\"\n")),
                Event::End(TagEnd::CodeBlock),
            ],
            span: 18..61,
            inner_span: 26..58,
        },
        Block {
            closed: true,
            events: vec![
                Event::Start(Tag::CodeBlock(CodeBlockKind::Fenced(CowStr::from("toml")))),
                Event::Text(CowStr::from("key3 = \"value3\"\nkey4 = \"value4\"\n")),
                Event::End(TagEnd::CodeBlock),
            ],
            span: 126..169,
            inner_span: 134..166,
        },
    ];

    let actual = parse_blocks(content, is_toml_start, is_code_end).unwrap();

    assert_eq!(expected, actual);
}

#[test]
fn test_parse_blocks_nested() {
    let content = "*a **sentence** with **some** words*";

    let actual = parse_blocks(
        content,
        |event| matches!(event, Event::Start(Tag::Emphasis) | Event::Start(Tag::Strong)),
        |event| matches!(event, Event::End(TagEnd::Emphasis) | Event::End(TagEnd::Strong)),
    );

    assert_eq!(
        "Block is not closed. Nested blocks are not supported.",
        actual.unwrap_err().message()
    );
}

#[test]
fn test_parse_blocks_text() {
    let content = "\
    {{#tabs }}\n\
    Some content.\n\
    {{#endtabs }}\n\
    ";
    let expected: Vec<Block> = vec![Block {
        closed: true,
        events: vec![
            Event::Text(CowStr::from("{{#tabs }}")),
            Event::SoftBreak,
            Event::Text(CowStr::from("Some content.")),
            Event::SoftBreak,
            Event::Text(CowStr::from("{{#endtabs }}")),
        ],
        span: 0..38,
        inner_span: 10..25,
    }];

    let actual = parse_blocks(
        content,
        |event| matches!(event, Event::Text(text) if text.starts_with("{{#tabs ")),
        |event| matches!(event, Event::Text(text) if text.starts_with("{{#endtabs ")),
    )
    .unwrap();

    assert_eq!(expected, actual);
}

#[test]
fn nested_error_is_the_only_variant() {
    let actual = parse_blocks("*a **b** c*", |e| matches!(e, Event::Start(Tag::Emphasis) | Event::Start(Tag::Strong)), |e| {
        matches!(e, Event::End(TagEnd::Emphasis) | Event::End(TagEnd::Strong))
    });
    assert_eq!(actual, Err(BlockError::Nested));
}

#[test]
fn rescan_gives_identical_blocks() {
    let content = "a\n\n```toml\nk = 1\n```\n\n```toml\nj = 2\n```\n";
    let first = parse_blocks(content, is_toml_start, is_code_end).unwrap();
    let second = parse_blocks(content, is_toml_start, is_code_end).unwrap();
    assert_eq!(first.len(), 2);
    assert_eq!(first, second);
}

#[test]
fn unterminated_fence_is_returned_open_or_closed_by_document_end() {
    // pulldown-cmark closes an unterminated fence at the end of the document.
    let content = "```toml\nk = 1\n";
    let blocks = parse_blocks(content, is_toml_start, is_code_end).unwrap();
    assert_eq!(blocks.len(), 1);
    assert!(blocks[0].closed);
    assert_eq!(blocks[0].span.start, 0);
}

#[test]
fn no_matching_events_gives_no_blocks() {
    let blocks = parse_blocks("plain text only", is_toml_start, is_code_end).unwrap();
    assert!(blocks.is_empty());
}

#[test]
fn empty_document_gives_no_blocks() {
    let blocks = parse_blocks("", is_toml_start, is_code_end).unwrap();
    assert!(blocks.is_empty());
}
