//! The string pool, stated over plain values: the order in which strings are
//! laid out, which of them are written in full, and where each one lies.
use crate::dict::is_good_text;
use vstd::prelude::*;

verus! {

/// The bytes of an ASCII text.
pub open spec fn ascii_bytes(s: Seq<char>) -> Seq<u8> {
    Seq::new(s.len(), |i: int| s[i] as u8)
}

/// Whether `long` ends with `short`.
pub open spec fn ends_with(long: Seq<char>, short: Seq<char>) -> bool {
    short.len() <= long.len() && long.skip(long.len() - short.len()) == short
}

/// `s` put into `sorted`, behind every string that is at least as long.
pub open spec fn insert_by_length(sorted: Seq<Seq<char>>, s: Seq<char>) -> Seq<Seq<char>>
    decreases sorted.len(),
{
    if sorted.len() == 0 || sorted[0].len() < s.len() {
        seq![s] + sorted
    } else {
        seq![sorted[0]] + insert_by_length(sorted.drop_first(), s)
    }
}

/// The order in which the pool lays its strings out: longest first, and
/// strings of one length in the order in which they were added.
pub open spec fn layout_order(pool: Seq<Seq<char>>) -> Seq<Seq<char>>
    decreases pool.len(),
{
    if pool.len() == 0 {
        Seq::empty()
    } else {
        insert_by_length(layout_order(pool.drop_last()), pool.last())
    }
}

/// Index of the first string at or after `from` in `placed` that ends with
/// `s`, or the length of `placed` if there is none.
pub open spec fn first_host(placed: Seq<Seq<char>>, s: Seq<char>, from: int) -> int
    decreases placed.len() - from,
{
    if from >= placed.len() {
        placed.len() as int
    } else if ends_with(placed[from], s) {
        from
    } else {
        first_host(placed, s, from + 1)
    }
}

/// Whether a string in `placed` ends with `s`.
pub open spec fn has_host(placed: Seq<Seq<char>>, s: Seq<char>) -> bool {
    0 <= first_host(placed, s, 0) < placed.len()
}

/// The strings that are written out in full when `order` is laid out: each
/// string that no string written before it ends with.
pub open spec fn placed_of(order: Seq<Seq<char>>) -> Seq<Seq<char>>
    decreases order.len(),
{
    if order.len() == 0 {
        Seq::empty()
    } else {
        let before = placed_of(order.drop_last());
        if has_host(before, order.last()) {
            before
        } else {
            before.push(order.last())
        }
    }
}

/// The string section: the placed strings one after the other, each
/// followed by a zero byte.
pub open spec fn pool_bytes(placed: Seq<Seq<char>>) -> Seq<u8>
    decreases placed.len(),
{
    if placed.len() == 0 {
        Seq::empty()
    } else {
        pool_bytes(placed.drop_last()) + ascii_bytes(placed.last()) + seq![0u8]
    }
}

/// Where the placed string with index `h` starts in the string section.
pub open spec fn start_of(placed: Seq<Seq<char>>, h: int) -> nat {
    pool_bytes(placed.take(h)).len()
}

/// The offset of `s` in the string section: `s` lies at the end of the
/// first placed string that ends with it.
pub open spec fn offset_in(placed: Seq<Seq<char>>, s: Seq<char>) -> nat {
    let h = first_host(placed, s, 0);
    (start_of(placed, h) + placed[h].len() - s.len()) as nat
}

/// The offset of every string of the pool.
pub open spec fn offsets_of(pool: Seq<Seq<char>>) -> Map<Seq<char>, nat> {
    Map::new(
        |s: Seq<char>| pool.contains(s),
        |s: Seq<char>| offset_in(placed_of(layout_order(pool)), s),
    )
}

/// The string section that the pool compiles to.
pub open spec fn section_of(pool: Seq<Seq<char>>) -> Seq<u8> {
    pool_bytes(placed_of(layout_order(pool)))
}

/// What the pool holds after `s` is added to it.
pub open spec fn pool_with(pool: Seq<Seq<char>>, s: Seq<char>) -> Seq<Seq<char>> {
    if pool.contains(s) {
        pool
    } else {
        pool.push(s)
    }
}

/// A pool holds good texts only, and none twice.
pub open spec fn is_pool(pool: Seq<Seq<char>>) -> bool {
    &&& pool.no_duplicates()
    &&& forall|i: int| 0 <= i < pool.len() ==> is_good_text(#[trigger] pool[i])
}

/// The number of bytes that the strings of the pool take when each is
/// written out in full with its zero byte.
pub open spec fn total_length(pool: Seq<Seq<char>>) -> nat
    decreases pool.len(),
{
    if pool.len() == 0 {
        0
    } else {
        total_length(pool.drop_last()) + pool.last().len() + 1
    }
}

/// `n`, or the largest `usize` if `n` is larger.
pub open spec fn saturated(n: nat) -> usize {
    if n <= usize::MAX {
        n as usize
    } else {
        usize::MAX
    }
}

/// The texts of a list of strings.
pub open spec fn texts(strings: Seq<String>) -> Seq<Seq<char>> {
    strings.map_values(|s: String| s@)
}

/// Where `insert_by_length` puts a string: in front of the first string
/// that is shorter.
pub proof fn lemma_insert_position(sorted: Seq<Seq<char>>, s: Seq<char>, p: int)
    requires
        0 <= p <= sorted.len(),
        forall|j: int| 0 <= j < p ==> sorted[j].len() >= s.len(),
        p == sorted.len() || sorted[p].len() < s.len(),
    ensures
        insert_by_length(sorted, s) == sorted.insert(p, s),
    decreases p,
{
    if p > 0 {
        lemma_insert_position(sorted.drop_first(), s, p - 1);
        assert(seq![sorted[0]] + sorted.drop_first().insert(p - 1, s) =~= sorted.insert(p, s));
    } else {
        assert(seq![s] + sorted =~= sorted.insert(0, s));
    }
}

/// `insert_by_length` adds the one string and keeps the others.
proof fn lemma_insert_holds(sorted: Seq<Seq<char>>, x: Seq<char>, s: Seq<char>)
    ensures
        insert_by_length(sorted, x).contains(s) <==> (s == x || sorted.contains(s)),
    decreases sorted.len(),
{
    let out = insert_by_length(sorted, x);
    if sorted.len() == 0 || sorted[0].len() < x.len() {
        assert(out[0] == x);
        if sorted.contains(s) {
            let i = choose|i: int| 0 <= i < sorted.len() && sorted[i] == s;
            assert(out[i + 1] == s);
        }
        if out.contains(s) {
            let i = choose|i: int| 0 <= i < out.len() && out[i] == s;
            if i > 0 {
                assert(sorted[i - 1] == s);
            }
        }
    } else {
        let rest = insert_by_length(sorted.drop_first(), x);
        lemma_insert_holds(sorted.drop_first(), x, s);
        assert(out[0] == sorted[0]);
        if rest.contains(s) {
            let i = choose|i: int| 0 <= i < rest.len() && rest[i] == s;
            assert(out[i + 1] == s);
        }
        if sorted.contains(s) {
            let i = choose|i: int| 0 <= i < sorted.len() && sorted[i] == s;
            if i > 0 {
                assert(sorted.drop_first()[i - 1] == s);
            }
        }
        if out.contains(s) {
            let i = choose|i: int| 0 <= i < out.len() && out[i] == s;
            if i > 0 {
                assert(rest[i - 1] == s);
            }
        }
    }
}

/// The layout order holds the strings of the pool and no others.
pub proof fn lemma_layout_order_holds(pool: Seq<Seq<char>>, s: Seq<char>)
    ensures
        layout_order(pool).contains(s) <==> pool.contains(s),
    decreases pool.len(),
{
    if pool.len() > 0 {
        let before = layout_order(pool.drop_last());
        lemma_layout_order_holds(pool.drop_last(), s);
        lemma_insert_holds(before, pool.last(), s);
        if pool.contains(s) {
            let i = choose|i: int| 0 <= i < pool.len() && pool[i] == s;
            if i < pool.len() - 1 {
                assert(pool.drop_last()[i] == s);
            }
        }
        if pool.drop_last().contains(s) {
            let i = choose|i: int| 0 <= i < pool.drop_last().len() && pool.drop_last()[i] == s;
            assert(pool[i] == s);
        }
    }
}

/// What `first_host` finds: the first string from `from` on that ends with
/// `s`, if there is one.
pub proof fn lemma_first_host(placed: Seq<Seq<char>>, s: Seq<char>, from: int)
    requires
        0 <= from <= placed.len(),
    ensures
        from <= first_host(placed, s, from) <= placed.len(),
        first_host(placed, s, from) < placed.len() ==> ends_with(
            placed[first_host(placed, s, from)],
            s,
        ),
        forall|j: int| from <= j < first_host(placed, s, from) ==> !ends_with(placed[j], s),
    decreases placed.len() - from,
{
    if from < placed.len() && !ends_with(placed[from], s) {
        lemma_first_host(placed, s, from + 1);
    }
}

/// The first host of `s` is the string `h` if that one ends with `s` and
/// none before it does.
pub proof fn lemma_first_host_is(placed: Seq<Seq<char>>, s: Seq<char>, from: int, h: int)
    requires
        0 <= from <= h <= placed.len(),
        forall|j: int| from <= j < h ==> !ends_with(placed[j], s),
        h < placed.len() ==> ends_with(placed[h], s),
    ensures
        first_host(placed, s, from) == h,
    decreases h - from,
{
    if from < h {
        lemma_first_host_is(placed, s, from + 1, h);
    }
}

/// A string that has a host keeps it when another string is placed.
pub proof fn lemma_host_stays(placed: Seq<Seq<char>>, x: Seq<char>, s: Seq<char>)
    requires
        has_host(placed, s),
    ensures
        has_host(placed.push(x), s),
        first_host(placed.push(x), s, 0) == first_host(placed, s, 0),
        offset_in(placed.push(x), s) == offset_in(placed, s),
{
    let h = first_host(placed, s, 0);
    lemma_first_host(placed, s, 0);
    lemma_first_host_is(placed.push(x), s, 0, h);
    assert(placed.push(x).take(h) =~= placed.take(h));
}

/// A string that is placed is its own host, at the end of the section so
/// far.
pub proof fn lemma_host_of_placed(placed: Seq<Seq<char>>, s: Seq<char>)
    requires
        !has_host(placed, s),
    ensures
        has_host(placed.push(s), s),
        first_host(placed.push(s), s, 0) == placed.len(),
        offset_in(placed.push(s), s) == pool_bytes(placed).len(),
{
    lemma_first_host(placed, s, 0);
    assert(s.skip(0) =~= s);
    lemma_first_host_is(placed.push(s), s, 0, placed.len() as int);
    assert(placed.push(s).take(placed.len() as int) =~= placed);
}

/// Every placed string lies within the section, zero byte included.
pub proof fn lemma_start_of_bound(placed: Seq<Seq<char>>, h: int)
    requires
        0 <= h < placed.len(),
    ensures
        start_of(placed, h) + placed[h].len() + 1 <= pool_bytes(placed).len(),
    decreases placed.len(),
{
    if h == placed.len() - 1 {
        assert(placed.take(h) =~= placed.drop_last());
    } else {
        lemma_start_of_bound(placed.drop_last(), h);
        assert(placed.drop_last().take(h) =~= placed.take(h));
    }
}

} // verus!
