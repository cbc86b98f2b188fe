//! Segmentation of an event stream into flat, delimited blocks.

use crate::events::{markdown_events, markdown_spans, offset_events, spans_of};
use pulldown_cmark::Event;
use std::ops::Range;
use vstd::prelude::*;

verus! {

/// How the caller's predicates classify one event.
#[derive(Clone, Copy, Debug, PartialEq, Eq, Structural)]
pub enum Role {
    /// The event opens a block.
    Start,
    /// The event closes the open block, if there is one.
    End,
    /// Any other event: part of the open block's interior, if there is one.
    Inner,
}

/// Why a segmentation was refused.
#[derive(Clone, Copy, Debug, PartialEq, Eq, Structural)]
pub enum BlockError {
    /// A block was opened while another one was still open.
    Nested,
}

impl BlockError {
    /// The human-readable description of the error.
    pub fn message(&self) -> (r: &'static str)
        ensures
            r@ == "Block is not closed. Nested blocks are not supported."@,
    {
        "Block is not closed. Nested blocks are not supported."
    }
}

/// A run of events from an opening event through its closing event.
#[derive(Debug, PartialEq)]
pub struct Block<'a> {
    /// Whether the closing event has been seen.
    pub closed: bool,
    /// The events of the block, delimiters included, in document order.
    pub events: Vec<Event<'a>>,
    /// The byte range of the whole block.
    pub span: Range<usize>,
    /// The byte range of the events between the delimiters; `0..0` while
    /// there are none.
    pub inner_span: Range<usize>,
}

impl<'a> Clone for Block<'a> {
    fn clone(&self) -> (r: Self) {
        Block {
            closed: self.closed,
            events: self.events.clone(),
            span: Range { start: self.span.start, end: self.span.end },
            inner_span: Range { start: self.inner_span.start, end: self.inner_span.end },
        }
    }
}

/// The mathematical content of a [`Block`].
pub struct BlockView<'a> {
    pub closed: bool,
    pub events: Seq<Event<'a>>,
    pub span: Range<usize>,
    pub inner_span: Range<usize>,
}

impl<'a> View for Block<'a> {
    type V = BlockView<'a>;

    open spec fn view(&self) -> BlockView<'a> {
        BlockView {
            closed: self.closed,
            events: self.events@,
            span: self.span,
            inner_span: self.inner_span,
        }
    }
}

/// The empty range at offset zero, which marks an interior with no events.
pub open spec fn no_span() -> Range<usize> {
    Range { start: 0, end: 0 }
}

/// `r` with its end moved right to `end`, if that is further.
pub open spec fn widened(r: Range<usize>, end: usize) -> Range<usize> {
    if end > r.end {
        Range { start: r.start, end: end }
    } else {
        r
    }
}

/// The block that an opening event starts.
pub open spec fn opened<'a>(event: Event<'a>, span: Range<usize>) -> BlockView<'a> {
    BlockView { closed: false, events: seq![event], span: span, inner_span: no_span() }
}

/// `b` after its closing event.
pub open spec fn closed_by<'a>(b: BlockView<'a>, event: Event<'a>, span: Range<usize>) -> BlockView<'a> {
    BlockView {
        closed: true,
        events: b.events.push(event),
        span: widened(b.span, span.end),
        inner_span: b.inner_span,
    }
}

/// `b` after one more interior event.
pub open spec fn absorbed<'a>(b: BlockView<'a>, event: Event<'a>, span: Range<usize>) -> BlockView<'a> {
    BlockView {
        closed: b.closed,
        events: b.events.push(event),
        span: widened(b.span, span.end),
        inner_span: if b.inner_span == no_span() {
            span
        } else {
            widened(b.inner_span, span.end)
        },
    }
}

/// Whether the last block of `blocks` is still open.
pub open spec fn has_open<'a>(blocks: Seq<BlockView<'a>>) -> bool {
    blocks.len() > 0 && !blocks.last().closed
}

/// One step of the scan: the blocks after one more event, or `None` where the
/// event would open a block inside another.
pub open spec fn step<'a>(
    blocks: Seq<BlockView<'a>>,
    token: (Event<'a>, Range<usize>),
    role: Role,
) -> Option<Seq<BlockView<'a>>> {
    match role {
        Role::Start => if has_open(blocks) {
            None
        } else {
            Some(blocks.push(opened(token.0, token.1)))
        },
        Role::End => if has_open(blocks) {
            Some(blocks.update(blocks.len() - 1, closed_by(blocks.last(), token.0, token.1)))
        } else {
            Some(blocks)
        },
        Role::Inner => if has_open(blocks) {
            Some(blocks.update(blocks.len() - 1, absorbed(blocks.last(), token.0, token.1)))
        } else {
            Some(blocks)
        },
    }
}

/// The blocks after the first `n` tokens, or `None` once nesting was found.
pub open spec fn scan<'a>(
    tokens: Seq<(Event<'a>, Range<usize>)>,
    roles: Seq<Role>,
    n: nat,
) -> Option<Seq<BlockView<'a>>>
    decreases n,
{
    if n == 0 {
        Some(Seq::empty())
    } else {
        match scan(tokens, roles, (n - 1) as nat) {
            Some(blocks) => step(blocks, tokens[n - 1], roles[n - 1]),
            None => None,
        }
    }
}

/// The segmentation of a whole token sequence.
pub open spec fn segmentation<'a>(
    tokens: Seq<(Event<'a>, Range<usize>)>,
    roles: Seq<Role>,
) -> Option<Seq<BlockView<'a>>> {
    scan(tokens, roles, tokens.len())
}

/// The views of a sequence of blocks.
pub open spec fn views<'a>(blocks: Seq<Block<'a>>) -> Seq<BlockView<'a>> {
    blocks.map_values(|b: Block<'a>| b@)
}

/// What a segmentation result says, with the error folded into `None`.
pub open spec fn outcome<'a>(r: Result<Vec<Block<'a>>, BlockError>) -> Option<Seq<BlockView<'a>>> {
    match r {
        Ok(blocks) => Some(views(blocks@)),
        Err(_) => None,
    }
}

impl<'a> Block<'a> {
    /// An open block whose first event is `first_event`, at `span`.
    pub fn new(first_event: Event<'a>, span: Range<usize>) -> (r: Self)
        ensures
            r@ == opened(first_event, span),
    {
        let inner_span = Range { start: 0, end: 0 };
        let mut events = Vec::new();
        events.push(first_event);
        proof {
            assert(events@ =~= seq![first_event]);
        }
        Block { closed: false, events, span, inner_span }
    }

    /// Takes in the closing event.
    fn close(&mut self, event: Event<'a>, span: Range<usize>)
        ensures
            final(self)@ == closed_by(old(self)@, event, span),
    {
        self.events.push(event);
        self.closed = true;
        if span.end > self.span.end {
            self.span = Range { start: self.span.start, end: span.end };
        }
    }

    /// Takes in one interior event.
    fn absorb(&mut self, event: Event<'a>, span: Range<usize>)
        ensures
            final(self)@ == absorbed(old(self)@, event, span),
    {
        self.events.push(event);
        if span.end > self.span.end {
            self.span = Range { start: self.span.start, end: span.end };
        }
        if self.inner_span.start == 0 && self.inner_span.end == 0 {
            self.inner_span = span;
        } else if span.end > self.inner_span.end {
            self.inner_span = Range { start: self.inner_span.start, end: span.end };
        }
    }
}

/// Once a scan has failed, scanning further tokens does not mend it.
pub proof fn lemma_failure_persists<'a>(
    tokens: Seq<(Event<'a>, Range<usize>)>,
    roles: Seq<Role>,
    m: nat,
    n: nat,
)
    requires
        m <= n,
        scan(tokens, roles, m) is None,
    ensures
        scan(tokens, roles, n) is None,
    decreases n - m,
{
    if m < n {
        lemma_failure_persists(tokens, roles, m, (n - 1) as nat);
    }
}

/// The views of the finished blocks followed by the open one, if any.
pub open spec fn blocks_so_far<'a>(done: Seq<Block<'a>>, open: Option<Block<'a>>) -> Seq<BlockView<'a>> {
    match open {
        Some(b) => views(done).push(b@),
        None => views(done),
    }
}

/// Groups `tokens` into blocks, each event taking the role at the same index
/// of `roles`.
///
/// An opening event starts a block, unless a block is open: then the whole
/// segmentation fails with [`BlockError::Nested`]. A closing event ends the
/// open block, and is dropped where none is open. Any other event joins the
/// open block's interior, and is dropped where none is open. A block still
/// open when the tokens run out is returned as it stands.
pub fn segment<'a>(tokens: Vec<(Event<'a>, Range<usize>)>, roles: &Vec<Role>) -> (r: Result<
    Vec<Block<'a>>,
    BlockError,
>)
    requires
        roles.len() == tokens.len(),
    ensures
        outcome(r) == segmentation(tokens@, roles@),
{
    let ghost all = tokens@;
    let n = tokens.len();
    let mut source = tokens;
    // `pending` holds the tokens last first, so that popping yields them in order.
    let mut pending: Vec<(Event<'a>, Range<usize>)> = Vec::new();
    while source.len() > 0
        invariant
            n == all.len(),
            source.len() + pending.len() == n,
            source@ == all.subrange(0, source.len() as int),
            forall|k: int| 0 <= k < pending.len() ==> #[trigger] pending@[k] == all[n - 1 - k],
        decreases source.len(),
    {
        let t = source.pop().unwrap();
        pending.push(t);
    }
    let mut done: Vec<Block<'a>> = Vec::new();
    let mut open: Option<Block<'a>> = None;
    let mut i: usize = 0;
    while i < n
        invariant
            n == all.len(),
            all == tokens@,
            roles.len() == n,
            i <= n,
            pending.len() == n - i,
            forall|k: int| 0 <= k < pending.len() ==> #[trigger] pending@[k] == all[n - 1 - k],
            forall|k: int| 0 <= k < done.len() ==> (#[trigger] done@[k]).closed,
            match open {
                Some(b) => !b.closed,
                None => true,
            },
            scan(all, roles@, i as nat) == Some(blocks_so_far(done@, open)),
        decreases n - i,
    {
        let ghost before = blocks_so_far(done@, open);
        proof {
            assert(has_open(before) == open.is_some()) by {
                if open.is_none() && before.len() > 0 {
                    assert(before.last() == done@.last()@);
                }
            }
        }
        let (event, span) = pending.pop().unwrap();
        let ghost token = (event, span);
        assert(token == all[i as int]);
        let current = open;
        open = None;
        match roles[i] {
            Role::Start => {
                if current.is_some() {
                    proof {
                        assert(scan(all, roles@, (i + 1) as nat) is None);
                        lemma_failure_persists(all, roles@, (i + 1) as nat, n as nat);
                    }
                    return Err(BlockError::Nested);
                }
                open = Some(Block::new(event, span));
                proof {
                    assert(blocks_so_far(done@, open) =~= before.push(opened(event, span)));
                }
            },
            Role::End => {
                match current {
                    Some(b) => {
                        let mut b = b;
                        b.close(event, span);
                        let ghost b_old = before.last();
                        done.push(b);
                        proof {
                            assert(blocks_so_far(done@, open) =~= before.update(
                                before.len() - 1,
                                closed_by(b_old, event, span),
                            ));
                        }
                    },
                    None => {},
                }
            },
            Role::Inner => {
                match current {
                    Some(b) => {
                        let mut b = b;
                        b.absorb(event, span);
                        open = Some(b);
                        proof {
                            assert(blocks_so_far(done@, open) =~= before.update(
                                before.len() - 1,
                                absorbed(before.last(), event, span),
                            ));
                        }
                    },
                    None => {},
                }
            },
        }
        i = i + 1;
    }
    match open {
        Some(b) => done.push(b),
        None => {},
    }
    proof {
        assert(all.len() == n);
    }
    Ok(done)
}

/// Whether the predicates `is_start` and `is_end`, tried in that order, give
/// `event` the role `role`.
pub open spec fn judged<'a, S: Fn(&Event<'a>) -> bool, E: Fn(&Event<'a>) -> bool>(
    is_start: S,
    is_end: E,
    event: Event<'a>,
    role: Role,
) -> bool {
    match role {
        Role::Start => is_start.ensures((&event,), true),
        Role::End => is_start.ensures((&event,), false) && is_end.ensures((&event,), true),
        Role::Inner => is_start.ensures((&event,), false) && is_end.ensures((&event,), false),
    }
}

/// `tokens` are the events that pulldown-cmark reports for `text`, each with
/// its byte range.
pub open spec fn markdown_tokens<'a>(text: Seq<char>, tokens: Seq<(Event<'a>, Range<usize>)>) -> bool {
    &&& spans_of(tokens) == markdown_spans(text)
    &&& tokens.len() == markdown_events(text).len()
    &&& forall|k: int| 0 <= k < tokens.len() ==> #[trigger] tokens[k].0 == markdown_events(text)[k]
}

/// `roles` are the roles that `is_start` and `is_end` give the events of
/// `tokens`, one for one.
pub open spec fn judged_all<'a, S: Fn(&Event<'a>) -> bool, E: Fn(&Event<'a>) -> bool>(
    is_start: S,
    is_end: E,
    tokens: Seq<(Event<'a>, Range<usize>)>,
    roles: Seq<Role>,
) -> bool {
    &&& roles.len() == tokens.len()
    &&& forall|k: int|
        0 <= k < tokens.len() ==> judged(is_start, is_end, tokens[k].0, #[trigger] roles[k])
}

/// `r` is the segmentation of the Markdown events of `text` under the roles
/// that `is_start` and `is_end` give them.
pub open spec fn parsed_as<'a, S: Fn(&Event<'a>) -> bool, E: Fn(&Event<'a>) -> bool>(
    text: Seq<char>,
    is_start: S,
    is_end: E,
    r: Result<Vec<Block<'a>>, BlockError>,
) -> bool {
    exists|tokens: Seq<(Event<'a>, Range<usize>)>, roles: Seq<Role>|
        #[trigger] markdown_tokens(text, tokens) && #[trigger] judged_all(is_start, is_end, tokens, roles)
            && outcome(r) == segmentation(tokens, roles)
}

/// Parses `content` as Markdown and groups its events into blocks: an event
/// for which `is_start` holds opens a block, and otherwise one for which
/// `is_end` holds closes it (see [`segment`]).
///
/// The events are those that pulldown-cmark gives, with their byte ranges;
/// the result is the segmentation of exactly those under the roles that the
/// two predicates gave them.
pub fn parse_blocks<'a, S, E>(content: &'a str, is_start: S, is_end: E) -> (r: Result<
    Vec<Block<'a>>,
    BlockError,
>) where S: Fn(&Event<'a>) -> bool, E: Fn(&Event<'a>) -> bool
    requires
        forall|e: &Event<'a>| #[trigger] is_start.requires((e,)),
        forall|e: &Event<'a>| #[trigger] is_end.requires((e,)),
    ensures
        parsed_as(content@, is_start, is_end, r),
{
    let tokens = offset_events(content);
    let mut roles: Vec<Role> = Vec::new();
    let mut i: usize = 0;
    while i < tokens.len()
        invariant
            i <= tokens.len(),
            roles.len() == i,
            forall|e: &Event<'a>| #[trigger] is_start.requires((e,)),
            forall|e: &Event<'a>| #[trigger] is_end.requires((e,)),
            forall|k: int|
                0 <= k < i ==> judged(is_start, is_end, tokens@[k].0, #[trigger] roles@[k]),
        decreases tokens.len() - i,
    {
        let event = &tokens[i].0;
        let role = if is_start(event) {
            Role::Start
        } else if is_end(event) {
            Role::End
        } else {
            Role::Inner
        };
        roles.push(role);
        i = i + 1;
    }
    let ghost all = tokens@;
    let r = segment(tokens, &roles);
    proof {
        assert(markdown_tokens(content@, all) && judged_all(is_start, is_end, all, roles@));
    }
    r
}

} // verus!
