//! The mathematical model of a scan: which bytes end a line, where they stand
//! in a buffer, and what holds of those positions.

use vstd::prelude::*;

verus! {

/// ASCII carriage return.
pub const CR: u8 = 0x0D;

/// ASCII line feed.
pub const LF: u8 = 0x0A;

/// A byte is a terminator when it is a carriage return or a line feed.
pub open spec fn is_terminator(b: u8) -> bool {
    b == CR || b == LF
}

/// `is_terminator` as a predicate on bytes.
pub open spec fn terminator_byte() -> spec_fn(u8) -> bool {
    |b: u8| is_terminator(b)
}

/// The predicate on positions that holds where `bytes` has a terminator.
pub open spec fn terminator_at(bytes: Seq<u8>) -> spec_fn(int) -> bool {
    |p: int| is_terminator(bytes[p])
}

/// The positions `0, 1, .., len - 1`, in order.
pub open spec fn positions_below(len: nat) -> Seq<int> {
    Seq::new(len, |i: int| i)
}

/// The positions of `bytes` that hold a terminator, in ascending order.
///
/// A carriage return directly followed by a line feed contributes two
/// positions, like any other two terminators.
pub open spec fn terminator_positions(bytes: Seq<u8>) -> Seq<int> {
    positions_below(bytes.len()).filter(terminator_at(bytes))
}

/// How many bytes of `bytes` are terminators.
pub open spec fn terminator_count(bytes: Seq<u8>) -> nat {
    bytes.filter(terminator_byte()).len()
}

/// Every element is smaller than each element after it.
pub open spec fn strictly_increasing(s: Seq<int>) -> bool {
    forall|i: int, j: int| 0 <= i < j < s.len() ==> s[i] < s[j]
}

/// 32-bit offsets, read as mathematical integers.
pub open spec fn as_positions(offsets: Seq<u32>) -> Seq<int> {
    Seq::new(offsets.len(), |k: int| offsets[k] as int)
}

/// Two predicates that agree on every element of `s` keep the same elements.
proof fn lemma_filter_agree(s: Seq<int>, p: spec_fn(int) -> bool, q: spec_fn(int) -> bool)
    requires
        forall|i: int| 0 <= i < s.len() ==> p(s[i]) == q(s[i]),
    ensures
        s.filter(p) == s.filter(q),
    decreases s.len(),
{
    reveal(Seq::filter);
    if s.len() > 0 {
        lemma_filter_agree(s.drop_last(), p, q);
    }
}

/// Nothing is found in an empty buffer.
pub proof fn lemma_positions_empty()
    ensures
        terminator_positions(Seq::<u8>::empty()) == Seq::<int>::empty(),
{
    reveal(Seq::filter);
}

/// Appending a byte appends its position when the byte is a terminator, and
/// changes nothing otherwise.
pub proof fn lemma_positions_push(bytes: Seq<u8>, b: u8)
    ensures
        terminator_positions(bytes.push(b)) == if is_terminator(b) {
            terminator_positions(bytes).push(bytes.len() as int)
        } else {
            terminator_positions(bytes)
        },
{
    let n = bytes.len();
    let longer = bytes.push(b);
    assert(positions_below(n + 1) =~= positions_below(n).push(n as int));
    positions_below(n).lemma_filter_push(n as int, terminator_at(longer));
    lemma_filter_agree(positions_below(n), terminator_at(bytes), terminator_at(longer));
}

/// There are as many positions as there are terminator bytes.
pub proof fn lemma_positions_count(bytes: Seq<u8>)
    ensures
        terminator_positions(bytes).len() == terminator_count(bytes),
    decreases bytes.len(),
{
    if bytes.len() == 0 {
        reveal(Seq::filter);
    } else {
        let init = bytes.drop_last();
        let b = bytes.last();
        assert(bytes =~= init.push(b));
        lemma_positions_count(init);
        lemma_positions_push(init, b);
        init.lemma_filter_push(b, terminator_byte());
    }
}

/// The positions ascend strictly, and each is an index into `bytes`.
pub proof fn lemma_positions_ascend(bytes: Seq<u8>)
    ensures
        strictly_increasing(terminator_positions(bytes)),
        forall|k: int|
            0 <= k < terminator_positions(bytes).len() ==> 0 <= #[trigger] terminator_positions(
                bytes,
            )[k] < bytes.len(),
    decreases bytes.len(),
{
    if bytes.len() == 0 {
        lemma_positions_empty();
    } else {
        let init = bytes.drop_last();
        let b = bytes.last();
        assert(bytes =~= init.push(b));
        lemma_positions_ascend(init);
        lemma_positions_push(init, b);
    }
}

/// A position is listed exactly when it is an index into `bytes` at which a
/// terminator stands.
pub proof fn lemma_positions_exact(bytes: Seq<u8>)
    ensures
        forall|p: int|
            #[trigger] terminator_positions(bytes).contains(p) <==> (0 <= p < bytes.len()
                && is_terminator(bytes[p])),
    decreases bytes.len(),
{
    let found = terminator_positions(bytes);
    if bytes.len() == 0 {
        lemma_positions_empty();
    } else {
        let init = bytes.drop_last();
        let b = bytes.last();
        let last = bytes.len() - 1;
        let before = terminator_positions(init);
        assert(bytes =~= init.push(b));
        lemma_positions_exact(init);
        lemma_positions_push(init, b);
        assert forall|p: int| #[trigger]
            found.contains(p) <==> (0 <= p < bytes.len() && is_terminator(bytes[p])) by {
            if found.contains(p) {
                // `p` is the new last element, or it was listed before.
                let k = choose|k: int| 0 <= k < found.len() && found[k] == p;
                if k < before.len() {
                    assert(before.contains(p));
                }
            }
            if 0 <= p < bytes.len() && is_terminator(bytes[p]) {
                if p == last {
                    assert(found[found.len() - 1] == p);
                } else {
                    assert(before.contains(p));
                    let k = choose|k: int| 0 <= k < before.len() && before[k] == p;
                    assert(found[k] == p);
                }
            }
        }
    }
}

/// A buffer without terminators has no positions to list.
pub proof fn lemma_positions_none(bytes: Seq<u8>)
    requires
        forall|p: int| 0 <= p < bytes.len() ==> !is_terminator(#[trigger] bytes[p]),
    ensures
        terminator_positions(bytes).len() == 0,
{
    let found = terminator_positions(bytes);
    lemma_positions_exact(bytes);
    if found.len() > 0 {
        assert(found.contains(found[0]));
    }
}

/// The positions are the only strictly increasing sequence that lists exactly
/// the indices of `bytes` at which a terminator stands: whatever way the
/// terminators of a buffer were recorded, a scan finds the same list.
pub proof fn lemma_positions_unique(bytes: Seq<u8>, recorded: Seq<int>)
    requires
        strictly_increasing(recorded),
        forall|p: int|
            #[trigger] recorded.contains(p) <==> (0 <= p < bytes.len() && is_terminator(bytes[p])),
    ensures
        terminator_positions(bytes) == recorded,
    decreases bytes.len(),
{
    if bytes.len() == 0 {
        lemma_positions_empty();
        if recorded.len() > 0 {
            assert(recorded.contains(recorded[0]));
        }
        assert(recorded =~= Seq::<int>::empty());
    } else {
        let init = bytes.drop_last();
        let b = bytes.last();
        let last = bytes.len() - 1;
        assert(bytes =~= init.push(b));
        lemma_positions_push(init, b);
        if is_terminator(b) {
            // The last position is recorded, and nothing recorded is larger,
            // so it is the last element of `recorded`.
            assert(recorded.contains(last));
            let k = choose|k: int| 0 <= k < recorded.len() && recorded[k] == last;
            if k < recorded.len() - 1 {
                assert(recorded.contains(recorded[k + 1]));
            }
            assert(k == recorded.len() - 1);
            // What stands before it records the terminators of `init`.
            let shorter = recorded.drop_last();
            assert forall|p: int| #[trigger]
                shorter.contains(p) <==> (0 <= p < init.len() && is_terminator(init[p])) by {
                if shorter.contains(p) {
                    let j = choose|j: int| 0 <= j < shorter.len() && shorter[j] == p;
                    assert(recorded[j] == p);
                    assert(recorded.contains(p));
                }
                if 0 <= p < init.len() && is_terminator(init[p]) {
                    assert(recorded.contains(p));
                    let j = choose|j: int| 0 <= j < recorded.len() && recorded[j] == p;
                    assert(shorter[j] == p);
                }
            }
            lemma_positions_unique(init, shorter);
            assert(recorded =~= shorter.push(last));
        } else {
            // The last byte is no terminator, so `recorded` already records
            // the terminators of `init`.
            assert forall|p: int| #[trigger]
                recorded.contains(p) <==> (0 <= p < init.len() && is_terminator(init[p])) by {
                if 0 <= p < init.len() {
                    assert(init[p] == bytes[p]);
                }
            }
            lemma_positions_unique(init, recorded);
        }
    }
}

} // verus!
