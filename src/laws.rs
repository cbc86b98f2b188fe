//! Properties of segmentation that speak of whole scans, of several steps, or
//! of two segmentations.

use crate::block::{
    absorbed, closed_by, has_open, judged, judged_all, lemma_failure_persists, markdown_tokens,
    no_span, opened, outcome, parsed_as, scan, segmentation, step, Block, BlockError, BlockView,
    Role,
};
use crate::events::spans_of;
use pulldown_cmark::Event;
use std::ops::Range;
use vstd::prelude::*;

verus! {

/// The events of tokens `lo` up to (not including) `hi`.
pub open spec fn events_between<'a>(
    tokens: Seq<(Event<'a>, Range<usize>)>,
    lo: int,
    hi: int,
) -> Seq<Event<'a>> {
    tokens.subrange(lo, hi).map_values(|t: (Event<'a>, Range<usize>)| t.0)
}

/// The furthest span end among tokens `lo` up to (not including) `hi`, where
/// `lo < hi`.
pub open spec fn furthest_end<'a>(tokens: Seq<(Event<'a>, Range<usize>)>, lo: int, hi: int) -> usize
    decreases hi - lo,
{
    if hi <= lo + 1 {
        tokens[lo].1.end
    } else {
        let e = furthest_end(tokens, lo, hi - 1);
        if tokens[hi - 1].1.end > e {
            tokens[hi - 1].1.end
        } else {
            e
        }
    }
}

/// `b` consists of tokens `lo` up to `hi`: their events, and the outer span
/// from the first one's start to the furthest end among them.
pub open spec fn covers<'a>(b: BlockView<'a>, tokens: Seq<(Event<'a>, Range<usize>)>, lo: int, hi: int) -> bool {
    &&& 0 <= lo < hi <= tokens.len()
    &&& b.events == events_between(tokens, lo, hi)
    &&& b.span == Range { start: tokens[lo].1.start, end: furthest_end(tokens, lo, hi) }
}

/// Where the interior of a block made of tokens `lo` up to `hi` ends: before
/// the closing token, if it was closed.
pub open spec fn interior_end<'a>(b: BlockView<'a>, hi: int) -> int {
    if b.closed {
        hi - 1
    } else {
        hi
    }
}

/// The inner span of `b`, made of tokens `lo` up to `hi`: `0..0` with no
/// interior tokens; otherwise, unless the first interior token itself lies at
/// `0..0`, from that token's start to the furthest end in the interior.
pub open spec fn inner_fits<'a>(b: BlockView<'a>, tokens: Seq<(Event<'a>, Range<usize>)>, lo: int, hi: int) -> bool {
    let ie = interior_end(b, hi);
    if ie <= lo + 1 {
        b.inner_span == no_span()
    } else {
        tokens[lo + 1].1 != no_span() ==> b.inner_span == Range {
            start: tokens[lo + 1].1.start,
            end: furthest_end(tokens, lo + 1, ie),
        }
    }
}

/// `b` is made of tokens `lo` up to `hi`, outer and inner span included.
pub open spec fn made_of<'a>(b: BlockView<'a>, tokens: Seq<(Event<'a>, Range<usize>)>, lo: int, hi: int) -> bool {
    covers(b, tokens, lo, hi) && inner_fits(b, tokens, lo, hi)
}

/// The number of opening tokens among the first `n`.
pub open spec fn starts_before(roles: Seq<Role>, n: int) -> nat
    decreases n,
{
    if n <= 0 {
        0
    } else {
        starts_before(roles, n - 1) + if roles[n - 1] == Role::Start {
            1nat
        } else {
            0nat
        }
    }
}

/// The run `lo` up to `hi` of block number `k`, `b`, begins with the opening
/// token that has `k` others before it, holds only interior tokens after it
/// and, if `b` is closed, ends with the first closing token that follows.
pub open spec fn delimited<'a>(b: BlockView<'a>, roles: Seq<Role>, lo: int, hi: int, k: int) -> bool {
    &&& roles[lo] == Role::Start
    &&& starts_before(roles, lo) == k
    &&& forall|m: int| lo < m < interior_end(b, hi) ==> #[trigger] roles[m] == Role::Inner
    &&& b.closed ==> roles[hi - 1] == Role::End
}

/// Block number `k`, `b`, is made of a delimited run of the first `n`
/// tokens, which reaches token `n` while `b` is open.
spec fn placed<'a>(
    b: BlockView<'a>,
    tokens: Seq<(Event<'a>, Range<usize>)>,
    roles: Seq<Role>,
    n: int,
    k: int,
) -> bool {
    exists|lo: int, hi: int|
        #[trigger] made_of(b, tokens, lo, hi) && delimited(b, roles, lo, hi, k) && hi <= n && (
        b.closed || hi == n)
}

/// Every block after `n` tokens is placed; only the last block may be open.
spec fn well_made<'a>(
    tokens: Seq<(Event<'a>, Range<usize>)>,
    roles: Seq<Role>,
    blocks: Seq<BlockView<'a>>,
    n: int,
) -> bool {
    &&& forall|k: int| 0 <= k < blocks.len() - 1 ==> (#[trigger] blocks[k]).closed
    &&& forall|k: int| 0 <= k < blocks.len() ==> placed(#[trigger] blocks[k], tokens, roles, n, k)
    &&& blocks.len() == starts_before(roles, n)
}

proof fn lemma_furthest_end_bound<'a>(tokens: Seq<(Event<'a>, Range<usize>)>, lo: int, hi: int)
    requires
        lo < hi,
    ensures
        furthest_end(tokens, lo, hi) >= tokens[lo].1.end,
    decreases hi - lo,
{
    if hi > lo + 1 {
        lemma_furthest_end_bound(tokens, lo, hi - 1);
    }
}

proof fn lemma_events_extend<'a>(tokens: Seq<(Event<'a>, Range<usize>)>, lo: int, hi: int)
    requires
        0 <= lo <= hi < tokens.len(),
    ensures
        events_between(tokens, lo, hi + 1) == events_between(tokens, lo, hi).push(tokens[hi].0),
{
    assert(events_between(tokens, lo, hi + 1) =~= events_between(tokens, lo, hi).push(tokens[hi].0));
}

/// One step keeps every block made of a run of tokens.
proof fn lemma_step_well_made<'a>(
    tokens: Seq<(Event<'a>, Range<usize>)>,
    roles: Seq<Role>,
    blocks: Seq<BlockView<'a>>,
    n: int,
)
    requires
        0 <= n < tokens.len(),
        roles.len() == tokens.len(),
        well_made(tokens, roles, blocks, n),
        step(blocks, tokens[n], roles[n]) is Some,
    ensures
        well_made(tokens, roles, step(blocks, tokens[n], roles[n])->Some_0, n + 1),
{
    let role = roles[n];
    let next = step(blocks, tokens[n], role)->Some_0;
    let tok = tokens[n];
    if !has_open(blocks) {
        assert forall|k: int| 0 <= k < blocks.len() implies (#[trigger] blocks[k]).closed by {
            if k < blocks.len() - 1 {
            } else {
                assert(blocks[k] == blocks.last());
            }
        }
    }
    assert forall|k: int| 0 <= k < next.len() - 1 implies (#[trigger] next[k]).closed by {
        if k < blocks.len() {
            assert(next[k] == blocks[k] || k == blocks.len() - 1);
        }
    }
    assert forall|k: int| 0 <= k < next.len() implies placed(#[trigger] next[k], tokens, roles, n + 1, k) by {
        let changed = has_open(blocks) && k == blocks.len() - 1 && role != Role::Start;
        if k < blocks.len() && !changed {
            assert(next[k] == blocks[k]);
            assert(placed(blocks[k], tokens, roles, n, k));
            let (lo, hi) = choose|lo: int, hi: int|
                #[trigger] made_of(blocks[k], tokens, lo, hi) && delimited(blocks[k], roles, lo, hi, k)
                    && hi <= n && (blocks[k].closed || hi == n);
            assert(made_of(next[k], tokens, lo, hi) && delimited(next[k], roles, lo, hi, k));
        } else if k == blocks.len() && role == Role::Start {
            let b = opened(tok.0, tok.1);
            assert(next[k] == b);
            assert(events_between(tokens, n, n + 1) =~= seq![tok.0]);
            assert(made_of(b, tokens, n, n + 1) && delimited(b, roles, n, n + 1, k));
        } else {
            let old_b = blocks[k];
            assert(placed(old_b, tokens, roles, n, k));
            let (lo, hi) = choose|lo: int, hi: int|
                #[trigger] made_of(old_b, tokens, lo, hi) && delimited(old_b, roles, lo, hi, k) && hi
                    <= n && (old_b.closed || hi == n);
            assert(hi == n);
            lemma_events_extend(tokens, lo, n);
            if role == Role::End {
                let b = closed_by(old_b, tok.0, tok.1);
                assert(next[k] == b);
                assert(made_of(b, tokens, lo, n + 1) && delimited(b, roles, lo, n + 1, k));
            } else {
                let b = absorbed(old_b, tok.0, tok.1);
                assert(next[k] == b);
                if n > lo + 1 && tokens[lo + 1].1 != no_span() {
                    lemma_furthest_end_bound(tokens, lo + 1, n);
                    assert(old_b.inner_span != no_span());
                }
                assert forall|m: int| lo < m < interior_end(b, n + 1) implies #[trigger] roles[m]
                    == Role::Inner by {
                    if m < n {
                        assert(lo < m < interior_end(old_b, n));
                    }
                }
                assert(made_of(b, tokens, lo, n + 1) && delimited(b, roles, lo, n + 1, k));
            }
        }
    }
}

/// Every prefix scan that succeeds leaves its blocks made of runs of tokens.
proof fn lemma_scan_well_made<'a>(tokens: Seq<(Event<'a>, Range<usize>)>, roles: Seq<Role>, n: nat)
    requires
        n <= tokens.len(),
        roles.len() == tokens.len(),
        scan(tokens, roles, n) is Some,
    ensures
        well_made(tokens, roles, scan(tokens, roles, n)->Some_0, n as int),
    decreases n,
{
    if n > 0 {
        let m = (n - 1) as nat;
        lemma_scan_well_made(tokens, roles, m);
        lemma_step_well_made(tokens, roles, scan(tokens, roles, m)->Some_0, m as int);
    }
}

/// Block number `k` of a successful segmentation is the contiguous run of
/// tokens from the opening token with `k` others before it through the first
/// closing token after it (or through the last token, if it stays open): its
/// events are theirs, its span starts where the opening token's span starts,
/// and ends at the furthest span end among them, however those ends are
/// ordered.
pub proof fn lemma_outer_span<'a>(tokens: Seq<(Event<'a>, Range<usize>)>, roles: Seq<Role>, k: int)
    requires
        roles.len() == tokens.len(),
        segmentation(tokens, roles) is Some,
        0 <= k < segmentation(tokens, roles)->Some_0.len(),
    ensures
        exists|lo: int, hi: int|
            #[trigger] covers(segmentation(tokens, roles)->Some_0[k], tokens, lo, hi) && delimited(
                segmentation(tokens, roles)->Some_0[k],
                roles,
                lo,
                hi,
                k,
            ) && (segmentation(tokens, roles)->Some_0[k].closed || hi == tokens.len()),
{
    lemma_scan_well_made(tokens, roles, tokens.len());
    let b = segmentation(tokens, roles)->Some_0[k];
    assert(placed(b, tokens, roles, tokens.len() as int, k));
    let (lo, hi) = choose|lo: int, hi: int|
        #[trigger] made_of(b, tokens, lo, hi) && delimited(b, roles, lo, hi, k) && hi
            <= tokens.len() && (b.closed || hi == tokens.len());
    assert(covers(b, tokens, lo, hi));
}

/// In block number `k` of a successful segmentation (the run of tokens that
/// [`lemma_outer_span`] describes), a block with no events between its
/// delimiters keeps the inner span `0..0`; one with interior events, the
/// first of which does not itself lie at `0..0`, has the inner span from that
/// first interior event's start to the furthest end among the interior
/// events.
pub proof fn lemma_inner_span<'a>(tokens: Seq<(Event<'a>, Range<usize>)>, roles: Seq<Role>, k: int)
    requires
        roles.len() == tokens.len(),
        segmentation(tokens, roles) is Some,
        0 <= k < segmentation(tokens, roles)->Some_0.len(),
    ensures
        exists|lo: int, hi: int|
            #[trigger] made_of(segmentation(tokens, roles)->Some_0[k], tokens, lo, hi) && delimited(
                segmentation(tokens, roles)->Some_0[k],
                roles,
                lo,
                hi,
                k,
            ) && (segmentation(tokens, roles)->Some_0[k].closed || hi == tokens.len()),
{
    lemma_scan_well_made(tokens, roles, tokens.len());
    let b = segmentation(tokens, roles)->Some_0[k];
    assert(placed(b, tokens, roles, tokens.len() as int, k));
}

/// From an opening token on, as long as no closing token comes, the scan has
/// either failed or holds an open block.
proof fn lemma_stays_open<'a>(tokens: Seq<(Event<'a>, Range<usize>)>, roles: Seq<Role>, i: int, k: int)
    requires
        roles.len() == tokens.len(),
        0 <= i < k <= tokens.len(),
        roles[i] == Role::Start,
        forall|m: int| i < m < k ==> #[trigger] roles[m] != Role::End,
    ensures
        scan(tokens, roles, k as nat) is None || has_open(scan(tokens, roles, k as nat)->Some_0),
    decreases k - i,
{
    if k > i + 1 {
        lemma_stays_open(tokens, roles, i, k - 1);
        assert(roles[k - 1] != Role::End);
    }
}

/// Where an opening token comes while the block that an earlier opening token
/// started has not met a closing token, the whole segmentation fails (and
/// [`crate::block::segment`] returns [`BlockError::Nested`]): no block is
/// dropped or merged to get past it.
pub proof fn lemma_nested_start_fails<'a>(
    tokens: Seq<(Event<'a>, Range<usize>)>,
    roles: Seq<Role>,
    i: int,
    j: int,
)
    requires
        roles.len() == tokens.len(),
        0 <= i < j < tokens.len(),
        roles[i] == Role::Start,
        roles[j] == Role::Start,
        forall|m: int| i < m < j ==> #[trigger] roles[m] != Role::End,
    ensures
        segmentation(tokens, roles) is None,
{
    lemma_stays_open(tokens, roles, i, j);
    assert(scan(tokens, roles, (j + 1) as nat) is None);
    lemma_failure_persists(tokens, roles, (j + 1) as nat, tokens.len());
}

/// A closing token that comes while no block is open produces no block and
/// leaves every block before it as it was.
pub proof fn lemma_stray_end<'a>(tokens: Seq<(Event<'a>, Range<usize>)>, roles: Seq<Role>, n: int)
    requires
        roles.len() == tokens.len(),
        0 <= n < tokens.len(),
        roles[n] == Role::End,
        scan(tokens, roles, n as nat) is Some,
        !has_open(scan(tokens, roles, n as nat)->Some_0),
    ensures
        scan(tokens, roles, (n + 1) as nat) == scan(tokens, roles, n as nat),
{
}

/// Segmenting the same tokens under the same roles twice gives the same
/// blocks, or fails both times.
pub proof fn lemma_rescan_identical<'a>(
    tokens: Seq<(Event<'a>, Range<usize>)>,
    roles: Seq<Role>,
    first: Result<Vec<Block<'a>>, BlockError>,
    second: Result<Vec<Block<'a>>, BlockError>,
)
    requires
        outcome(first) == segmentation(tokens, roles),
        outcome(second) == segmentation(tokens, roles),
    ensures
        outcome(first) == outcome(second),
        first is Ok <==> second is Ok,
{
}

/// Whether `f` gives each event at most one answer.
pub open spec fn deterministic<'a, F: Fn(&Event<'a>) -> bool>(f: F) -> bool {
    forall|e: &Event<'a>, x: bool, y: bool|
        #[trigger] f.ensures((e,), x) && #[trigger] f.ensures((e,), y) ==> x == y
}

/// Parsing the same text twice with the same predicates, each of which
/// answers an event the same way every time, gives the same blocks, or fails
/// both times.
pub proof fn lemma_reparse_identical<'a, S, E>(
    text: Seq<char>,
    is_start: S,
    is_end: E,
    first: Result<Vec<Block<'a>>, BlockError>,
    second: Result<Vec<Block<'a>>, BlockError>,
) where S: Fn(&Event<'a>) -> bool, E: Fn(&Event<'a>) -> bool
    requires
        deterministic(is_start),
        deterministic(is_end),
        parsed_as(text, is_start, is_end, first),
        parsed_as(text, is_start, is_end, second),
    ensures
        outcome(first) == outcome(second),
        first is Ok <==> second is Ok,
{
    let (t1, r1) = choose|t: Seq<(Event<'a>, Range<usize>)>, r: Seq<Role>|
        #[trigger] markdown_tokens(text, t) && #[trigger] judged_all(is_start, is_end, t, r)
            && outcome(first) == segmentation(t, r);
    let (t2, r2) = choose|t: Seq<(Event<'a>, Range<usize>)>, r: Seq<Role>|
        #[trigger] markdown_tokens(text, t) && #[trigger] judged_all(is_start, is_end, t, r)
            && outcome(second) == segmentation(t, r);
    assert forall|k: int| 0 <= k < t1.len() implies #[trigger] t1[k] == t2[k] by {
        assert(spans_of(t1)[k] == spans_of(t2)[k]);
        assert(t1[k].0 == t2[k].0);
    }
    assert(t1 =~= t2);
    assert forall|k: int| 0 <= k < r1.len() implies #[trigger] r1[k] == r2[k] by {
        assert(judged(is_start, is_end, t1[k].0, r1[k]));
        assert(judged(is_start, is_end, t1[k].0, r2[k]));
    }
    assert(r1 =~= r2);
}

} // verus!
