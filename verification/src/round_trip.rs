//! Parsing the rendered text of a stroke gives the stroke back.
use crate::stroke::{
    after_separator, find_key, has_key, key_bit, key_char, lemma_render_split, needs_separator,
    parse_chord, parse_from, render, render_range, separator_text, KEY_COUNT, LEFT_HAND_MASK,
    MIDPOINT, UNUSED_MASK, VOWEL_MASK,
};
use vstd::prelude::*;

verus! {

/// The keys of `v` with index in `lo..hi`, added to `acc`.
spec fn keys_added(v: u32, lo: nat, hi: nat, acc: u32) -> u32
    decreases hi - lo,
{
    if lo >= hi {
        acc
    } else if has_key(v, lo) {
        keys_added(v, lo + 1, hi, acc | key_bit(lo))
    } else {
        keys_added(v, lo + 1, hi, acc)
    }
}

/// Where a scan that starts at `cursor` stands after it has read the keys of
/// `v` with index in `lo..hi`: on the last of them, if there is one.
spec fn cursor_after(v: u32, lo: nat, hi: nat, cursor: nat) -> nat
    decreases hi - lo,
{
    if lo >= hi {
        cursor
    } else if has_key(v, lo) {
        cursor_after(v, lo + 1, hi, lo)
    } else {
        cursor_after(v, lo + 1, hi, cursor)
    }
}

/// The bits with index in `lo..hi`.
spec fn range_mask(lo: u32, hi: u32) -> u32 {
    ((1u32 << hi) - (1u32 << lo)) as u32
}

/// A key's character occurs at no earlier index, as long as the earlier index
/// is past the left-hand consonants or the key is not a right-hand one that
/// repeats them.
proof fn lemma_keys_distinct(q: nat, p: nat)
    requires
        q < p < KEY_COUNT,
        p < 14 || q >= 8,
    ensures
        key_char(q as int) != key_char(p as int),
{
}

/// No key is written as `-`.
proof fn lemma_key_is_no_separator(p: nat)
    requires
        p < KEY_COUNT,
    ensures
        key_char(p as int) != '-',
{
}

/// A scan for the character of key `p` that starts at `q` stops at `p`.
proof fn lemma_find_key_hit(p: nat, q: nat)
    requires
        q <= p < KEY_COUNT,
        p < 14 || q >= 8,
    ensures
        find_key(key_char(p as int), q) == p,
    decreases p - q,
{
    if q < p {
        lemma_keys_distinct(q, p);
        lemma_find_key_hit(p, q + 1);
    }
}

/// Reading the text of the keys in `lo..hi` adds exactly those keys and
/// leaves the rest of the text to be read.
proof fn lemma_parse_rendered(v: u32, lo: nat, hi: nat, cursor: nat, acc: u32, tail: Seq<char>)
    requires
        cursor <= lo <= hi <= KEY_COUNT,
        hi <= 14 || cursor >= 8,
    ensures
        parse_from(render_range(v, lo, hi) + tail, cursor, acc) == parse_from(
            tail,
            cursor_after(v, lo, hi, cursor),
            keys_added(v, lo, hi, acc),
        ),
    decreases hi - lo,
{
    if lo >= hi {
        assert(render_range(v, lo, hi) + tail =~= tail);
    } else if has_key(v, lo) {
        let c = key_char(lo as int);
        let text = render_range(v, lo, hi) + tail;
        let rest = render_range(v, lo + 1, hi) + tail;
        assert(text[0] == c);
        assert(text.drop_first() =~= rest);
        lemma_key_is_no_separator(lo);
        lemma_find_key_hit(lo, cursor);
        lemma_parse_rendered(v, lo + 1, hi, lo, acc | key_bit(lo), tail);
    } else {
        lemma_parse_rendered(v, lo + 1, hi, cursor, acc, tail);
    }
}

/// Adding the keys of `v` in `lo..hi` is an `|` with those bits of `v`.
proof fn lemma_keys_added_value(v: u32, lo: nat, hi: nat, acc: u32)
    requires
        lo <= hi <= KEY_COUNT,
    ensures
        keys_added(v, lo, hi, acc) == acc | (v & range_mask(lo as u32, hi as u32)),
    decreases hi - lo,
{
    let l = lo as u32;
    let h = hi as u32;
    if lo >= hi {
        assert(acc == acc | (v & (((1u32 << h) - (1u32 << l)) as u32))) by (bit_vector)
            requires
                l == h,
        ;
    } else {
        let l1 = (lo + 1) as u32;
        if has_key(v, lo) {
            lemma_keys_added_value(v, lo + 1, hi, acc | key_bit(lo));
            assert((acc | (1u32 << l)) | (v & (((1u32 << h) - (1u32 << l1)) as u32)) == acc | (v & (((
            1u32 << h) - (1u32 << l)) as u32))) by (bit_vector)
                requires
                    l < h <= 23,
                    l1 == l + 1,
                    v & (1u32 << l) != 0,
            ;
        } else {
            lemma_keys_added_value(v, lo + 1, hi, acc);
            assert(acc | (v & (((1u32 << h) - (1u32 << l1)) as u32)) == acc | (v & (((1u32 << h) - (
            1u32 << l)) as u32))) by (bit_vector)
                requires
                    l < h <= 23,
                    l1 == l + 1,
                    v & (1u32 << l) == 0,
            ;
        }
    }
}

/// A range that holds none of the keys of `v` is written as nothing.
proof fn lemma_render_nothing(v: u32, lo: nat, hi: nat)
    requires
        forall|p: nat| lo <= p < hi ==> !has_key(v, p),
    ensures
        render_range(v, lo, hi) == Seq::<char>::empty(),
    decreases hi - lo,
{
    if lo < hi {
        lemma_render_nothing(v, lo + 1, hi);
    }
}

/// The text of a range that holds a key of `v` is not empty.
proof fn lemma_render_something(v: u32, lo: nat, hi: nat, p: nat)
    requires
        lo <= p < hi,
        has_key(v, p),
    ensures
        render_range(v, lo, hi).len() > 0,
    decreases hi - lo,
{
    if !has_key(v, lo) {
        lemma_render_something(v, lo + 1, hi, p);
    }
}

/// After the keys in `lo..hi` the cursor has not moved back, and stands
/// below `hi` or where it was.
proof fn lemma_cursor_bounds(v: u32, lo: nat, hi: nat, cursor: nat)
    requires
        cursor <= lo <= hi,
    ensures
        cursor <= cursor_after(v, lo, hi, cursor),
        cursor_after(v, lo, hi, cursor) == cursor || cursor_after(v, lo, hi, cursor) < hi,
    decreases hi - lo,
{
    if lo < hi {
        if has_key(v, lo) {
            lemma_cursor_bounds(v, lo + 1, hi, lo);
        } else {
            lemma_cursor_bounds(v, lo + 1, hi, cursor);
        }
    }
}

/// After the keys in `lo..hi` the cursor stands at or past each of them.
proof fn lemma_cursor_reaches(v: u32, lo: nat, hi: nat, cursor: nat, p: nat)
    requires
        cursor <= lo <= p < hi,
        has_key(v, p),
    ensures
        cursor_after(v, lo, hi, cursor) >= p,
    decreases hi - lo,
{
    if lo == p {
        lemma_cursor_bounds(v, lo + 1, hi, lo);
    } else if has_key(v, lo) {
        lemma_cursor_reaches(v, lo + 1, hi, lo, p);
    } else {
        lemma_cursor_reaches(v, lo + 1, hi, cursor, p);
    }
}

/// Round trip: the canonical text of every valid stroke but the empty one
/// parses back to that stroke. (The empty stroke is written as the empty
/// text, which is no chord.)
pub proof fn lemma_round_trip(v: u32)
    requires
        v != 0,
        v & UNUSED_MASK == 0,
    ensures
        parse_chord(render(v)) == Some(v),
{
    let split = MIDPOINT as nat + 1;
    let end = KEY_COUNT as nat;
    let left = render_range(v, 0, split);
    let right = render_range(v, split, end);
    let none = Seq::<char>::empty();

    // The text is not empty: a key of `v` is written in it.
    lemma_keys_added_value(v, 0, end, 0);
    assert(0u32 | (v & (((1u32 << 23u32) - (1u32 << 0u32)) as u32)) == v) by (bit_vector)
        requires
            v & 0xFF80_0000u32 == 0,
    ;
    if render(v).len() == 0 {
        assert(left.len() == 0 && right.len() == 0);
        lemma_render_split(v, 0, split, end);
        assert forall|p: nat| 0 <= p < end implies !has_key(v, p) by {
            if has_key(v, p) {
                lemma_render_something(v, 0, end, p);
            }
        }
        lemma_no_keys_added(v, 0, end, 0);
        assert(false);
    }
    if needs_separator(v) {
        let tail = seq!['-'] + right;
        assert(render(v) =~= left + tail);
        lemma_parse_rendered(v, 0, split, 0, 0, tail);
        let c1 = cursor_after(v, 0, split, 0);
        let a1 = keys_added(v, 0, split, 0);
        lemma_cursor_bounds(v, 0, split, 0);
        assert(tail[0] == '-');
        assert(tail.drop_first() =~= right + none);
        assert(after_separator(c1) == MIDPOINT);
        lemma_parse_rendered(v, split, end, MIDPOINT as nat, a1, none);
        lemma_keys_added_value(v, 0, split, 0);
        lemma_keys_added_value(v, split, end, a1);
        assert((0u32 | (v & (((1u32 << 12u32) - (1u32 << 0u32)) as u32))) | (v & (((1u32 << 23u32)
            - (1u32 << 12u32)) as u32)) == v) by (bit_vector)
            requires
                v & 0xFF80_0000u32 == 0,
        ;
    } else if v & VOWEL_MASK != 0 {
        // A vowel is written before any right-hand consonant, so the scan
        // is past the left-hand consonants when it reads one.
        let mid: nat = 13;
        assert(separator_text(v) =~= none);
        lemma_render_split(v, 0, split, end);
        lemma_render_split(v, 0, mid, end);
        let tail = render_range(v, mid, end) + none;
        assert(render(v) =~= render_range(v, 0, mid) + tail);
        lemma_parse_rendered(v, 0, mid, 0, 0, tail);
        let c1 = cursor_after(v, 0, mid, 0);
        let a1 = keys_added(v, 0, mid, 0);
        lemma_cursor_bounds(v, 0, mid, 0);
        assert(v & (1u32 << 8u32) != 0 || v & (1u32 << 9u32) != 0 || v & (1u32 << 10u32) != 0 || v
            & (1u32 << 11u32) != 0 || v & (1u32 << 12u32) != 0) by (bit_vector)
            requires
                v & 0x0000_1F00u32 != 0,
        ;
        let vowel: nat = if has_key(v, 8) {
            8
        } else if has_key(v, 9) {
            9
        } else if has_key(v, 10) {
            10
        } else if has_key(v, 11) {
            11
        } else {
            12
        };
        assert(has_key(v, vowel));
        lemma_cursor_reaches(v, 0, mid, 0, vowel);
        lemma_parse_rendered(v, mid, end, c1, a1, none);
        lemma_keys_added_value(v, 0, mid, 0);
        lemma_keys_added_value(v, mid, end, a1);
        assert((0u32 | (v & (((1u32 << 13u32) - (1u32 << 0u32)) as u32))) | (v & (((1u32 << 23u32)
            - (1u32 << 13u32)) as u32)) == v) by (bit_vector)
            requires
                v & 0xFF80_0000u32 == 0,
        ;
    } else {
        // Left-hand consonants only: nothing is written from the vowels on.
        let mid: nat = 8;
        assert(v & LEFT_HAND_MASK == v);
        assert(separator_text(v) =~= none);
        lemma_render_split(v, 0, split, end);
        lemma_render_split(v, 0, mid, end);
        assert forall|p: nat| mid <= p < end implies !has_key(v, p) by {
            let b = p as u32;
            assert(v & (1u32 << b) == 0) by (bit_vector)
                requires
                    v & 0x0000_00FEu32 == v,
                    8 <= b < 23,
            ;
        }
        lemma_render_nothing(v, mid, end);
        assert(render(v) =~= render_range(v, 0, mid) + none);
        lemma_parse_rendered(v, 0, mid, 0, 0, none);
        lemma_keys_added_value(v, 0, mid, 0);
        assert(0u32 | (v & (((1u32 << 8u32) - (1u32 << 0u32)) as u32)) == v) by (bit_vector)
            requires
                v & 0x0000_00FEu32 == v,
        ;
    }
}

/// Reading a range that holds none of the keys of `v` adds nothing.
proof fn lemma_no_keys_added(v: u32, lo: nat, hi: nat, acc: u32)
    requires
        forall|p: nat| lo <= p < hi ==> !has_key(v, p),
    ensures
        keys_added(v, lo, hi, acc) == acc,
    decreases hi - lo,
{
    if lo < hi {
        lemma_no_keys_added(v, lo + 1, hi, acc);
    }
}

} // verus!
