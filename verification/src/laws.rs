//! The laws of the split, stated over the model in `automaton` and proved
//! once and for all: every byte of the source is accounted for by the
//! yielded segments, the split is a pure function of pattern and source,
//! and the boundary cases come out as described.

use vstd::prelude::*;
use crate::automaton::{
    lemma_scan_bounds, lemma_scan_match_take, lemma_scan_self_match, scan, split_parts,
    split_segments, step_index,
};

verus! {

/// The source, rebuilt from the split's parts: each segment followed by one
/// copy of the pattern when a delimiter match ended it, and by nothing when
/// the end of the source did.
pub open spec fn rejoin(pattern: Seq<u8>, parts: Seq<(Seq<u8>, bool)>) -> Seq<u8>
    decreases parts.len(),
{
    if parts.len() == 0 {
        Seq::empty()
    } else {
        parts[0].0 + (if parts[0].1 {
            pattern
        } else {
            Seq::<u8>::empty()
        }) + rejoin(pattern, parts.skip(1))
    }
}

/// The segments, joined with one copy of the pattern between consecutive
/// ones — between only, not after the last.
pub open spec fn join_with(pattern: Seq<u8>, segments: Seq<Seq<u8>>) -> Seq<u8>
    decreases segments.len(),
{
    if segments.len() == 0 {
        Seq::empty()
    } else if segments.len() == 1 {
        segments[0]
    } else {
        segments[0] + pattern + join_with(pattern, segments.skip(1))
    }
}

/// Round trip, in full: the split's parts, each segment followed by the
/// delimiter that ended it, reconstruct the source exactly — no byte is
/// skipped or duplicated.
pub proof fn lemma_rejoin_round_trip(pattern: Seq<u8>, input: Seq<u8>)
    requires
        pattern.len() >= 1,
    ensures
        rejoin(pattern, split_parts(pattern, input)) == input,
    decreases input.len(),
{
    if input.len() == 0 {
        assert(rejoin(pattern, split_parts(pattern, input)) =~= input);
    } else {
        let consumed = scan(pattern, 0, input).0;
        let matched = scan(pattern, 0, input).1 == pattern.len();
        lemma_scan_bounds(pattern, 0, input);
        lemma_rejoin_round_trip(pattern, input.skip(consumed));
        let parts = split_parts(pattern, input);
        let rest = split_parts(pattern, input.skip(consumed));
        assert(parts.skip(1) =~= rest);
        if matched {
            lemma_scan_match_take(pattern, input);
            assert(rejoin(pattern, parts) =~= input.take(consumed - pattern.len()) + pattern
                + input.skip(consumed));
            assert(input.take(consumed - pattern.len()) + pattern + input.skip(consumed)
                =~= input.take(consumed) + input.skip(consumed));
            assert(input.take(consumed) + input.skip(consumed) =~= input);
        } else {
            assert(rejoin(pattern, parts) =~= input.take(consumed) + input.skip(consumed));
            assert(input.take(consumed) + input.skip(consumed) =~= input);
        }
    }
}

/// Round trip, as commonly stated: when the source does not end exactly at
/// a delimiter match, joining the segments with the pattern re-inserted
/// between them (and only between them) reconstructs the source. A source
/// that does end at a match is rebuilt by `lemma_rejoin_round_trip`
/// instead: its final delimiter follows the last segment.
pub proof fn lemma_join_round_trip(pattern: Seq<u8>, input: Seq<u8>)
    requires
        pattern.len() >= 1,
        input.len() > 0 ==> !split_parts(pattern, input).last().1,
    ensures
        join_with(pattern, split_segments(pattern, input)) == input,
    decreases input.len(),
{
    if input.len() == 0 {
        assert(join_with(pattern, split_segments(pattern, input)) =~= input);
    } else {
        let consumed = scan(pattern, 0, input).0;
        let matched = scan(pattern, 0, input).1 == pattern.len();
        let segment = if matched {
            input.take(consumed - pattern.len())
        } else {
            input.take(consumed)
        };
        lemma_scan_bounds(pattern, 0, input);
        let parts = split_parts(pattern, input);
        let rest = split_parts(pattern, input.skip(consumed));
        let segments = split_segments(pattern, input);
        assert(segments =~= seq![segment] + split_segments(pattern, input.skip(consumed)));
        if rest.len() == 0 {
            assert(parts.last() == (segment, matched));
            assert(!matched);
            assert(consumed == input.len());
            assert(segments.len() == 1);
            assert(segment =~= input);
        } else {
            assert(input.skip(consumed).len() > 0);
            assert(matched) by {
                if !matched {
                    assert(consumed == input.len());
                    assert(input.skip(consumed).len() == 0);
                }
            }
            lemma_scan_match_take(pattern, input);
            assert(parts.last() == rest.last());
            lemma_join_round_trip(pattern, input.skip(consumed));
            assert(segments.len() >= 2);
            assert(segments.skip(1) =~= split_segments(pattern, input.skip(consumed)));
            assert(join_with(pattern, segments) == segment + pattern + join_with(
                pattern,
                segments.skip(1),
            ));
            assert(segment + pattern + input.skip(consumed) =~= input.take(consumed)
                + input.skip(consumed));
            assert(input.take(consumed) + input.skip(consumed) =~= input);
        }
    }
}

/// Chunk boundaries are invisible to the scan: scanning two chunks in one
/// piece is the same as scanning the first and, when no match ended there,
/// carrying the automaton state into the second. A delimiter whose bytes
/// are split across two refills is therefore still detected.
pub proof fn lemma_scan_across_chunks(
    pattern: Seq<u8>,
    index: int,
    first: Seq<u8>,
    second: Seq<u8>,
)
    requires
        pattern.len() >= 1,
        0 <= index < pattern.len(),
    ensures
        ({
            let head = scan(pattern, index, first);
            if head.1 == pattern.len() {
                scan(pattern, index, first + second) == head
            } else {
                let tail = scan(pattern, head.1, second);
                scan(pattern, index, first + second) == (first.len() + tail.0, tail.1)
            }
        }),
    decreases first.len(),
{
    lemma_scan_bounds(pattern, index, first);
    if first.len() == 0 {
        assert(first + second =~= second);
    } else {
        let stepped = step_index(pattern, index, first[0]);
        assert((first + second)[0] == first[0]);
        if stepped != pattern.len() {
            lemma_scan_bounds(pattern, stepped, first.skip(1));
            lemma_scan_across_chunks(pattern, stepped, first.skip(1), second);
            assert((first + second).skip(1) =~= first.skip(1) + second);
        }
    }
}

/// Re-running the whole split on a fresh, equal source with an equal
/// pattern yields the same segment sequence: the split is a function of
/// the pattern and the source bytes alone, with no hidden state.
pub proof fn lemma_split_repeatable(pattern: Seq<u8>, first: Seq<u8>, second: Seq<u8>)
    requires
        first == second,
    ensures
        split_segments(pattern, first) == split_segments(pattern, second),
{
}

/// An empty source yields no segments at all — not even an empty one.
pub proof fn lemma_empty_source(pattern: Seq<u8>)
    requires
        pattern.len() >= 1,
    ensures
        split_segments(pattern, Seq::<u8>::empty()) == Seq::<Seq<u8>>::empty(),
{
    assert(split_segments(pattern, Seq::<u8>::empty()) =~= Seq::<Seq<u8>>::empty());
}

/// A source that consists of exactly the delimiter yields a single empty
/// segment, then ends.
pub proof fn lemma_delimiter_only_source(pattern: Seq<u8>)
    requires
        pattern.len() >= 1,
    ensures
        split_segments(pattern, pattern) == seq![Seq::<u8>::empty()],
{
    lemma_scan_self_match(pattern, 0);
    assert(pattern.skip(0) =~= pattern);
    assert(scan(pattern, 0, pattern) == ((pattern.len()) as int, pattern.len() as int));
    assert(pattern.take(0) =~= Seq::<u8>::empty());
    assert(pattern.skip(pattern.len() as int).len() == 0);
    assert(split_parts(pattern, pattern.skip(pattern.len() as int))
        =~= Seq::<(Seq<u8>, bool)>::empty());
    assert(split_segments(pattern, pattern) =~= seq![Seq::<u8>::empty()]);
}

} // verus!
