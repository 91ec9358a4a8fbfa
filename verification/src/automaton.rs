//! The mathematical model of the delimiter scan: a non-backtracking
//! automaton whose state is the number of pattern bytes matched so far.
//! `scan` runs it over a byte sequence until the full pattern has been
//! matched, and `split_parts` iterates `scan` to describe the whole split.

use vstd::prelude::*;

verus! {

/// One automaton transition: a byte that continues the pattern advances the
/// match index; any other byte resets it to zero (no failure links, so a
/// partial match is never reconsidered — only minimal, non-overlapping
/// occurrences are found).
pub open spec fn step_index(pattern: Seq<u8>, index: int, byte: u8) -> int {
    if 0 <= index < pattern.len() && byte == pattern[index] {
        index + 1
    } else {
        0
    }
}

/// Runs the automaton from state `index` over `input`, stopping as soon as
/// the full pattern has been matched. Yields `(consumed, state)`: how many
/// bytes of `input` were consumed (the delimiter's bytes included), and the
/// automaton state at that point — equal to `pattern.len()` exactly when a
/// match ended the scan.
pub open spec fn scan(pattern: Seq<u8>, index: int, input: Seq<u8>) -> (int, int)
    decreases input.len(),
{
    if input.len() == 0 {
        (0, index)
    } else {
        let stepped = step_index(pattern, index, input[0]);
        if stepped == pattern.len() {
            (1, stepped)
        } else {
            let rest = scan(pattern, stepped, input.skip(1));
            (1 + rest.0, rest.1)
        }
    }
}

/// Bounds of a scan: the consumed count stays within `input`, the state
/// stays within the pattern, something is consumed whenever input is there,
/// and a scan that did not end on a match consumed the whole input.
pub proof fn lemma_scan_bounds(pattern: Seq<u8>, index: int, input: Seq<u8>)
    requires
        pattern.len() >= 1,
        0 <= index < pattern.len(),
    ensures
        0 <= scan(pattern, index, input).0 <= input.len(),
        0 <= scan(pattern, index, input).1 <= pattern.len(),
        scan(pattern, index, input).1 < pattern.len() ==> scan(pattern, index, input).0
            == input.len(),
        input.len() > 0 ==> scan(pattern, index, input).0 >= 1,
    decreases input.len(),
{
    if input.len() > 0 {
        let stepped = step_index(pattern, index, input[0]);
        if stepped != pattern.len() {
            lemma_scan_bounds(pattern, stepped, input.skip(1));
        }
    }
}

/// The meaning of the automaton state: if the bytes already seen end with
/// the first `index` pattern bytes, then after the scan the bytes seen end
/// with the first `state` pattern bytes. In particular a scan that ends on
/// a match has just consumed a full copy of the pattern.
pub proof fn lemma_scan_suffix(pattern: Seq<u8>, index: int, input: Seq<u8>, history: Seq<u8>)
    requires
        pattern.len() >= 1,
        0 <= index < pattern.len(),
        history.len() >= index,
        history.skip(history.len() - index) == pattern.take(index),
    ensures
        ({
            let consumed = scan(pattern, index, input).0;
            let state = scan(pattern, index, input).1;
            let seen = history + input.take(consumed);
            &&& seen.len() >= state
            &&& seen.skip(seen.len() - state) == pattern.take(state)
        }),
    decreases input.len(),
{
    lemma_scan_bounds(pattern, index, input);
    if input.len() == 0 {
        assert(history + input.take(0) =~= history);
    } else {
        let byte = input[0];
        let stepped = step_index(pattern, index, byte);
        let extended = history.push(byte);
        if byte == pattern[index] {
            assert(extended.skip(extended.len() - (index + 1)) =~= pattern.take(index + 1));
        } else {
            assert(extended.skip(extended.len() as int) =~= pattern.take(0));
        }
        if stepped == pattern.len() {
            assert(history + input.take(1) =~= extended);
        } else {
            lemma_scan_suffix(pattern, stepped, input.skip(1), extended);
            let rest = scan(pattern, stepped, input.skip(1)).0;
            lemma_scan_bounds(pattern, stepped, input.skip(1));
            assert(history + input.take(1 + rest) =~= extended + input.skip(1).take(rest));
        }
    }
}

/// A scan from a fresh state that ends on a match has consumed at least the
/// pattern's length, and the consumed bytes are the segment's bytes followed
/// by one copy of the pattern.
pub proof fn lemma_scan_match_take(pattern: Seq<u8>, input: Seq<u8>)
    requires
        pattern.len() >= 1,
        scan(pattern, 0, input).1 == pattern.len(),
    ensures
        pattern.len() <= scan(pattern, 0, input).0 <= input.len(),
        input.take(scan(pattern, 0, input).0) == input.take(
            scan(pattern, 0, input).0 - pattern.len(),
        ) + pattern,
{
    let consumed = scan(pattern, 0, input).0;
    lemma_scan_bounds(pattern, 0, input);
    assert(Seq::<u8>::empty().skip(0) =~= pattern.take(0));
    lemma_scan_suffix(pattern, 0, input, Seq::<u8>::empty());
    let seen = Seq::<u8>::empty() + input.take(consumed);
    assert(seen =~= input.take(consumed));
    assert(pattern.take(pattern.len() as int) =~= pattern);
    assert(input.take(consumed) =~= input.take(consumed - pattern.len()) + pattern) by {
        assert(seen.skip(seen.len() - pattern.len()) == pattern.take(pattern.len() as int));
    }
}

/// Scanning the pattern itself from state `index` (having already matched
/// its first `index` bytes) consumes the rest of the pattern and ends on a
/// match: every byte continues the partial match.
pub proof fn lemma_scan_self_match(pattern: Seq<u8>, index: int)
    requires
        pattern.len() >= 1,
        0 <= index < pattern.len(),
    ensures
        scan(pattern, index, pattern.skip(index)) == ((pattern.len() - index) as int, pattern.len() as int),
    decreases pattern.len() - index,
{
    let input = pattern.skip(index);
    assert(input[0] == pattern[index]);
    if index + 1 < pattern.len() {
        lemma_scan_self_match(pattern, index + 1);
        assert(input.skip(1) =~= pattern.skip(index + 1));
    }
}

/// The sequence of parts the split produces for `input`: each part is a
/// segment's bytes together with a flag saying whether a delimiter match
/// ended it (`true`) or the end of the input did (`false`).
pub open spec fn split_parts(pattern: Seq<u8>, input: Seq<u8>) -> Seq<(Seq<u8>, bool)>
    decreases input.len(),
        via split_parts_decreases
{
    if pattern.len() == 0 || input.len() == 0 {
        Seq::empty()
    } else {
        let consumed = scan(pattern, 0, input).0;
        let matched = scan(pattern, 0, input).1 == pattern.len();
        let segment = if matched {
            input.take(consumed - pattern.len())
        } else {
            input.take(consumed)
        };
        seq![(segment, matched)] + split_parts(pattern, input.skip(consumed))
    }
}

#[via_fn]
proof fn split_parts_decreases(pattern: Seq<u8>, input: Seq<u8>) {
    if pattern.len() > 0 && input.len() > 0 {
        lemma_scan_bounds(pattern, 0, input);
    }
}

/// The segments alone, in order: what the splitter yields, once decoded.
pub open spec fn split_segments(pattern: Seq<u8>, input: Seq<u8>) -> Seq<Seq<u8>> {
    split_parts(pattern, input).map_values(|part: (Seq<u8>, bool)| part.0)
}

} // verus!
