use mdbook_plugin_utils::block::{segment, Block, BlockError, Role};
use pulldown_cmark::{CowStr, Event};
use std::ops::Range;

fn text(s: &'static str) -> Event<'static> {
    Event::Text(CowStr::from(s))
}

fn tokens(items: &[(&'static str, Range<usize>)]) -> Vec<(Event<'static>, Range<usize>)> {
    items.iter().map(|(s, r)| (text(s), r.clone())).collect()
}

#[test]
fn new_block_is_open_with_sentinel_interior() {
    let b = Block::new(text("x"), 3..7);
    assert!(!b.closed);
    assert_eq!(b.events, vec![text("x")]);
    assert_eq!(b.span, 3..7);
    assert_eq!(b.inner_span, 0..0);
}

#[test]
fn start_immediately_followed_by_end_keeps_sentinel() {
    let t = tokens(&[("<", 2..3), (">", 3..4)]);
    let blocks = segment(t, &vec![Role::Start, Role::End]).unwrap();
    assert_eq!(blocks.len(), 1);
    assert!(blocks[0].closed);
    assert_eq!(blocks[0].span, 2..4);
    assert_eq!(blocks[0].inner_span, 0..0);
}

#[test]
fn interior_spans_from_first_start_to_furthest_end() {
    let t = tokens(&[("<", 0..2), ("a", 2..9), ("b", 4..6), (">", 9..10)]);
    let roles = vec![Role::Start, Role::Inner, Role::Inner, Role::End];
    let blocks = segment(t, &roles).unwrap();
    assert_eq!(blocks.len(), 1);
    assert_eq!(blocks[0].span, 0..10);
    assert_eq!(blocks[0].inner_span, 2..9);
    assert_eq!(blocks[0].events, vec![text("<"), text("a"), text("b"), text(">")]);
}

#[test]
fn outer_span_never_narrows() {
    let t = tokens(&[("<", 0..20), ("a", 1..5), (">", 5..6)]);
    let blocks = segment(t, &vec![Role::Start, Role::Inner, Role::End]).unwrap();
    assert_eq!(blocks[0].span, 0..20);
    assert_eq!(blocks[0].inner_span, 1..5);
}

#[test]
fn stray_end_is_ignored() {
    let t = tokens(&[(">", 0..1), ("<", 1..2), (">", 2..3), (">", 3..9), ("x", 9..10)]);
    let roles = vec![Role::End, Role::Start, Role::End, Role::End, Role::Inner];
    let blocks = segment(t, &roles).unwrap();
    assert_eq!(blocks.len(), 1);
    assert_eq!(blocks[0].span, 1..3);
    assert_eq!(blocks[0].events, vec![text("<"), text(">")]);
}

#[test]
fn events_outside_blocks_are_dropped() {
    let t = tokens(&[("a", 0..1), ("b", 1..2)]);
    let blocks = segment(t, &vec![Role::Inner, Role::Inner]).unwrap();
    assert!(blocks.is_empty());
}

#[test]
fn trailing_open_block_is_returned_open() {
    let t = tokens(&[("<", 0..1), ("a", 1..4)]);
    let blocks = segment(t, &vec![Role::Start, Role::Inner]).unwrap();
    assert_eq!(blocks.len(), 1);
    assert!(!blocks[0].closed);
    assert_eq!(blocks[0].span, 0..4);
    assert_eq!(blocks[0].inner_span, 1..4);
}

#[test]
fn start_inside_open_block_fails() {
    let t = tokens(&[("<", 0..1), ("a", 1..2), ("<", 2..3), (">", 3..4)]);
    let roles = vec![Role::Start, Role::Inner, Role::Start, Role::End];
    assert_eq!(segment(t, &roles), Err(BlockError::Nested));
}

#[test]
fn nesting_after_closed_blocks_still_fails() {
    let t = tokens(&[("<", 0..1), (">", 1..2), ("<", 2..3), ("<", 3..4)]);
    let roles = vec![Role::Start, Role::End, Role::Start, Role::Start];
    assert_eq!(segment(t, &roles), Err(BlockError::Nested));
}

#[test]
fn consecutive_blocks_stay_separate() {
    let t = tokens(&[("<", 0..1), ("a", 1..2), (">", 2..3), ("<", 5..6), (">", 6..7)]);
    let roles = vec![Role::Start, Role::Inner, Role::End, Role::Start, Role::End];
    let blocks = segment(t, &roles).unwrap();
    assert_eq!(blocks.len(), 2);
    assert_eq!(blocks[0].span, 0..3);
    assert_eq!(blocks[0].inner_span, 1..2);
    assert_eq!(blocks[1].span, 5..7);
    assert_eq!(blocks[1].inner_span, 0..0);
}

#[test]
fn error_message_text() {
    assert_eq!(
        BlockError::Nested.message(),
        "Block is not closed. Nested blocks are not supported."
    );
}

#[test]
fn cloned_block_equals_original() {
    let t = tokens(&[("<", 0..1), ("a", 1..4), (">", 4..5)]);
    let blocks = segment(t, &vec![Role::Start, Role::Inner, Role::End]).unwrap();
    let copy = blocks[0].clone();
    assert_eq!(copy, blocks[0]);
    assert_eq!(copy.inner_span, 1..4);
}
