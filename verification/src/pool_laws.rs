//! What holds of the string section of every pool.
use crate::dict::{is_good_char, is_good_text};
use crate::pool_model::{
    ascii_bytes, ends_with, first_host, has_host, insert_by_length, is_pool, layout_order,
    lemma_first_host, lemma_host_of_placed, lemma_host_stays, lemma_layout_order_holds,
    offsets_of, placed_of, pool_bytes, pool_with, section_of, start_of, total_length,
};
use vstd::prelude::*;

verus! {

/// The bytes from `from` up to the next zero byte.
pub open spec fn read_terminated(bytes: Seq<u8>, from: int) -> Seq<u8>
    decreases bytes.len() - from,
{
    if from < 0 || from >= bytes.len() || bytes[from] == 0 {
        Seq::empty()
    } else {
        seq![bytes[from]] + read_terminated(bytes, from + 1)
    }
}

/// Whether the strings stand longest first.
pub open spec fn longest_first(order: Seq<Seq<char>>) -> bool {
    forall|i: int, j: int| 0 <= i < j < order.len() ==> order[i].len() >= order[j].len()
}

/// A string that a placed string ends with has a host.
pub proof fn lemma_has_host(placed: Seq<Seq<char>>, s: Seq<char>, j: int)
    requires
        0 <= j < placed.len(),
        ends_with(placed[j], s),
    ensures
        has_host(placed, s),
{
    lemma_first_host(placed, s, 0);
}

/// A string that ends a string that ends a third one ends the third.
pub proof fn lemma_ends_with_chain(x: Seq<char>, a: Seq<char>, b: Seq<char>)
    requires
        ends_with(x, a),
        ends_with(a, b),
    ensures
        ends_with(x, b),
{
    assert(x.skip(x.len() - b.len()) =~= x.skip(x.len() - a.len()).skip(a.len() - b.len()));
}

/// Every string that is laid out has a host among the placed strings.
pub proof fn lemma_laid_out_has_host(order: Seq<Seq<char>>, s: Seq<char>)
    requires
        order.contains(s),
    ensures
        has_host(placed_of(order), s),
    decreases order.len(),
{
    let front = order.drop_last();
    let last = order.last();
    let before = placed_of(front);
    let i = choose|i: int| 0 <= i < order.len() && order[i] == s;
    if i < order.len() - 1 {
        assert(front[i] == s);
        lemma_laid_out_has_host(front, s);
        if !has_host(before, last) {
            lemma_host_stays(before, last, s);
        }
    } else if !has_host(before, last) {
        lemma_host_of_placed(before, last);
    }
}

/// Every placed string is one of the strings that were laid out.
pub proof fn lemma_placed_was_laid_out(order: Seq<Seq<char>>, h: int)
    requires
        0 <= h < placed_of(order).len(),
    ensures
        order.contains(placed_of(order)[h]),
    decreases order.len(),
{
    let front = order.drop_last();
    let before = placed_of(front);
    if h < before.len() {
        lemma_placed_was_laid_out(front, h);
        let i = choose|i: int| 0 <= i < front.len() && front[i] == before[h];
        assert(order[i] == before[h]);
    } else {
        assert(order[order.len() - 1] == placed_of(order)[h]);
    }
}

/// A placed string stands in the section at its start, with a zero byte
/// behind it.
pub proof fn lemma_placed_bytes(placed: Seq<Seq<char>>, h: int, k: int)
    requires
        0 <= h < placed.len(),
        0 <= k <= placed[h].len(),
    ensures
        start_of(placed, h) + placed[h].len() < pool_bytes(placed).len(),
        k < placed[h].len() ==> pool_bytes(placed)[start_of(placed, h) + k] == placed[h][k] as u8,
        k == placed[h].len() ==> pool_bytes(placed)[start_of(placed, h) + k] == 0,
    decreases placed.len(),
{
    let front = placed.drop_last();
    if h == placed.len() - 1 {
        assert(placed.take(h) =~= front);
    } else {
        lemma_placed_bytes(front, h, k);
        assert(front.take(h) =~= placed.take(h));
    }
}

/// Reading from an offset gives a text back when the text stands there
/// with a zero byte behind it.
pub proof fn lemma_read_terminated(bytes: Seq<u8>, from: int, s: Seq<char>)
    requires
        is_good_text(s),
        0 <= from,
        from + s.len() < bytes.len(),
        forall|k: int| 0 <= k < s.len() ==> bytes[from + k] == s[k] as u8,
        bytes[from + s.len()] == 0,
    ensures
        read_terminated(bytes, from) == ascii_bytes(s),
    decreases s.len(),
{
    if s.len() == 0 {
        assert(read_terminated(bytes, from) =~= ascii_bytes(s));
    } else {
        let rest = s.drop_first();
        assert(is_good_char(s[0]));
        assert forall|k: int| 0 <= k < rest.len() implies bytes[from + 1 + k] == rest[k] as u8 by {
            assert(bytes[from + (k + 1)] == s[k + 1] as u8);
        }
        assert forall|k: int| 0 <= k < rest.len() implies is_good_char(#[trigger] rest[k]) by {
            assert(is_good_char(s[k + 1]));
        }
        lemma_read_terminated(bytes, from + 1, rest);
        assert(bytes[from + 0] == s[0] as u8);
        assert(read_terminated(bytes, from) =~= ascii_bytes(s));
    }
}

/// Every string of a pool has an offset in the string section, and reading
/// from that offset up to the next zero byte gives the string back.
pub proof fn lemma_layout_reads_back(pool: Seq<Seq<char>>, s: Seq<char>)
    requires
        is_pool(pool),
        pool.contains(s),
    ensures
        offsets_of(pool).contains_key(s),
        read_terminated(section_of(pool), offsets_of(pool)[s] as int) == ascii_bytes(s),
{
    let order = layout_order(pool);
    let placed = placed_of(order);
    let bytes = section_of(pool);
    lemma_layout_order_holds(pool, s);
    lemma_laid_out_has_host(order, s);
    lemma_first_host(placed, s, 0);
    let h = first_host(placed, s, 0);
    let host = placed[h];
    let shift = host.len() - s.len();
    let from = start_of(placed, h) + shift;
    let i = choose|i: int| 0 <= i < pool.len() && pool[i] == s;
    assert(is_good_text(pool[i]));
    lemma_placed_bytes(placed, h, host.len() as int);
    assert forall|k: int| 0 <= k < s.len() implies bytes[from + k] == s[k] as u8 by {
        lemma_placed_bytes(placed, h, shift + k);
        assert(host.skip(shift)[k] == host[shift + k]);
    }
    lemma_read_terminated(bytes, from, s);
}

/// `insert_by_length` keeps the longest first, and makes no string longer
/// than `limit` if there was none.
proof fn lemma_insert_keeps_order(sorted: Seq<Seq<char>>, s: Seq<char>, limit: nat)
    requires
        longest_first(sorted),
        s.len() <= limit,
        forall|i: int| 0 <= i < sorted.len() ==> (#[trigger] sorted[i]).len() <= limit,
    ensures
        longest_first(insert_by_length(sorted, s)),
        forall|i: int|
            0 <= i < insert_by_length(sorted, s).len() ==> (#[trigger] insert_by_length(
                sorted,
                s,
            )[i]).len() <= limit,
    decreases sorted.len(),
{
    let out = insert_by_length(sorted, s);
    if sorted.len() == 0 || sorted[0].len() < s.len() {
        assert forall|i: int, j: int| 0 <= i < j < out.len() implies out[i].len()
            >= out[j].len() by {
            assert(out[j] == sorted[j - 1]);
            if i > 0 {
                assert(out[i] == sorted[i - 1]);
            } else {
                assert(sorted[0].len() >= sorted[j - 1].len());
            }
        }
        assert forall|i: int| 0 <= i < out.len() implies (#[trigger] out[i]).len() <= limit by {
            if i > 0 {
                assert(out[i] == sorted[i - 1]);
            }
        }
    } else {
        let rest = sorted.drop_first();
        let inner = insert_by_length(rest, s);
        let top = sorted[0].len();
        assert forall|i: int, j: int| 0 <= i < j < rest.len() implies rest[i].len()
            >= rest[j].len() by {
            assert(rest[i] == sorted[i + 1] && rest[j] == sorted[j + 1]);
        }
        assert forall|i: int| 0 <= i < rest.len() implies (#[trigger] rest[i]).len() <= top by {
            assert(rest[i] == sorted[i + 1]);
        }
        lemma_insert_keeps_order(rest, s, top);
        assert forall|i: int, j: int| 0 <= i < j < out.len() implies out[i].len()
            >= out[j].len() by {
            assert(out[j] == inner[j - 1]);
            if i > 0 {
                assert(out[i] == inner[i - 1]);
            }
        }
        assert forall|i: int| 0 <= i < out.len() implies (#[trigger] out[i]).len() <= limit by {
            if i > 0 {
                assert(out[i] == inner[i - 1]);
            }
        }
    }
}

/// No string of the layout order is longer than all strings of the pool.
proof fn lemma_layout_order_limit(pool: Seq<Seq<char>>, limit: nat)
    requires
        forall|i: int| 0 <= i < pool.len() ==> (#[trigger] pool[i]).len() <= limit,
    ensures
        longest_first(layout_order(pool)),
        forall|i: int|
            0 <= i < layout_order(pool).len() ==> (#[trigger] layout_order(pool)[i]).len() <= limit,
    decreases pool.len(),
{
    if pool.len() > 0 {
        let front = pool.drop_last();
        assert forall|i: int| 0 <= i < front.len() implies (#[trigger] front[i]).len() <= limit by {
            assert(front[i] == pool[i]);
        }
        lemma_layout_order_limit(front, limit);
        lemma_insert_keeps_order(layout_order(front), pool.last(), limit);
    }
}

/// The length of the longest string of `pool`.
spec fn longest(pool: Seq<Seq<char>>) -> nat
    decreases pool.len(),
{
    if pool.len() == 0 {
        0
    } else if pool.last().len() > longest(pool.drop_last()) {
        pool.last().len()
    } else {
        longest(pool.drop_last())
    }
}

/// No string of `pool` is longer than the longest.
proof fn lemma_longest(pool: Seq<Seq<char>>)
    ensures
        forall|i: int| 0 <= i < pool.len() ==> (#[trigger] pool[i]).len() <= longest(pool),
    decreases pool.len(),
{
    if pool.len() > 0 {
        let front = pool.drop_last();
        lemma_longest(front);
        assert forall|i: int| 0 <= i < pool.len() implies (#[trigger] pool[i]).len() <= longest(
            pool,
        ) by {
            if i < front.len() {
                assert(front[i] == pool[i]);
            }
        }
    }
}

/// The layout order has the longest strings first.
pub proof fn lemma_layout_order_longest_first(pool: Seq<Seq<char>>)
    ensures
        longest_first(layout_order(pool)),
{
    lemma_longest(pool);
    lemma_layout_order_limit(pool, longest(pool));
}

/// A string that ends a longer string of the layout is never placed.
proof fn lemma_suffix_not_placed(order: Seq<Seq<char>>, a: Seq<char>, b: Seq<char>)
    requires
        longest_first(order),
        order.contains(a),
        ends_with(a, b),
        a.len() > b.len(),
    ensures
        !placed_of(order).contains(b),
    decreases order.len(),
{
    let front = order.drop_last();
    let last = order.last();
    let before = placed_of(front);
    let placed = placed_of(order);
    assert forall|i: int, j: int| 0 <= i < j < front.len() implies front[i].len()
        >= front[j].len() by {
        assert(front[i] == order[i] && front[j] == order[j]);
    }
    if placed.contains(b) {
        let p = choose|p: int| 0 <= p < placed.len() && placed[p] == b;
        if front.contains(a) {
            lemma_suffix_not_placed(front, a, b);
            if p < before.len() {
                assert(before[p] == b);
            } else {
                // `b` would be placed last, though the host of `a` ends with it.
                lemma_laid_out_has_host(front, a);
                lemma_first_host(before, a, 0);
                let h = first_host(before, a, 0);
                lemma_ends_with_chain(before[h], a, b);
                lemma_has_host(before, b, h);
            }
        } else {
            let i = choose|i: int| 0 <= i < order.len() && order[i] == a;
            if i < order.len() - 1 {
                assert(front[i] == a);
            }
            if p < before.len() {
                lemma_placed_was_laid_out(front, p);
                let j = choose|j: int| 0 <= j < front.len() && front[j] == before[p];
                assert(order[j].len() >= order[order.len() - 1].len());
            }
        }
    }
}

/// Suffix sharing: a string of the pool that ends another, longer string
/// of the pool is not written out on its own. It lies at the end of the
/// first placed string that ends with it; and where that is the string in
/// whose bytes the longer one lies, it lies within the longer one, at its
/// end.
pub proof fn lemma_suffix_shares_bytes(pool: Seq<Seq<char>>, a: Seq<char>, b: Seq<char>)
    requires
        is_pool(pool),
        pool.contains(a),
        pool.contains(b),
        ends_with(a, b),
        a != b,
    ensures
        ({
            let placed = placed_of(layout_order(pool));
            let host = first_host(placed, b, 0);
            &&& !placed.contains(b)
            &&& 0 <= host < placed.len()
            &&& ends_with(placed[host], b)
            &&& placed[host].len() > b.len()
            &&& start_of(placed, host) < offsets_of(pool)[b]
            &&& offsets_of(pool)[b] + b.len() == start_of(placed, host) + placed[host].len()
            &&& first_host(placed, a, 0) == host ==> offsets_of(pool)[b] == offsets_of(pool)[a]
                + a.len() - b.len()
        }),
{
    let order = layout_order(pool);
    let placed = placed_of(order);
    lemma_layout_order_holds(pool, a);
    lemma_layout_order_holds(pool, b);
    lemma_layout_order_longest_first(pool);
    if a.len() == b.len() {
        assert(a.skip(0) =~= a);
    }
    lemma_suffix_not_placed(order, a, b);
    lemma_laid_out_has_host(order, b);
    lemma_laid_out_has_host(order, a);
    lemma_first_host(placed, b, 0);
    lemma_first_host(placed, a, 0);
    let host = first_host(placed, b, 0);
    if placed[host].len() == b.len() {
        assert(placed[host].skip(0) =~= placed[host]);
    }
}

/// The section holds each placed string once, with its zero byte, and
/// nothing else.
pub proof fn lemma_section_length(placed: Seq<Seq<char>>)
    ensures
        pool_bytes(placed).len() == total_length(placed),
    decreases placed.len(),
{
    if placed.len() > 0 {
        lemma_section_length(placed.drop_last());
    }
}

/// Adding a string a second time changes nothing: neither the pool, nor
/// the string section, nor any offset.
pub proof fn lemma_add_twice(pool: Seq<Seq<char>>, s: Seq<char>)
    ensures
        pool_with(pool_with(pool, s), s) == pool_with(pool, s),
        section_of(pool_with(pool_with(pool, s), s)) == section_of(pool_with(pool, s)),
        offsets_of(pool_with(pool_with(pool, s), s)) == offsets_of(pool_with(pool, s)),
{
    if !pool.contains(s) {
        assert(pool.push(s)[pool.len() as int] == s);
    }
}

/// Adding a good text to a pool gives a pool.
pub proof fn lemma_pool_with_is_pool(pool: Seq<Seq<char>>, s: Seq<char>)
    requires
        is_pool(pool),
        is_good_text(s),
    ensures
        is_pool(pool_with(pool, s)),
{
    if !pool.contains(s) {
        let out = pool.push(s);
        assert forall|i: int, j: int| 0 <= i < out.len() && 0 <= j < out.len() && i != j implies out[i]
            != out[j] by {
            if i < pool.len() {
                assert(pool[i] == out[i]);
            }
            if j < pool.len() {
                assert(pool[j] == out[j]);
            }
        }
    }
}

} // verus!
