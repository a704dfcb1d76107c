//! The string pool: every output string is stored once, null-terminated,
//! and a string that ends another shares the other's last bytes.
use crate::dict::{is_good_char, is_good_text};
use crate::pool_model::{
    ascii_bytes, ends_with, has_host, is_pool, layout_order, lemma_first_host_is,
    lemma_host_of_placed, lemma_host_stays, lemma_insert_position, lemma_layout_order_holds,
    lemma_start_of_bound, offset_in, offsets_of, placed_of, pool_bytes, pool_with, saturated,
    section_of, start_of, texts, total_length,
};
use vstd::hash_map::StringHashMap;
use vstd::prelude::*;
use vstd::string::StringSliceAdditionalSpecFns;

verus! {

/// A good text is ASCII, and its bytes are its characters.
pub proof fn lemma_good_text_bytes(s: &str)
    requires
        is_good_text(s@),
    ensures
        s.is_ascii(),
        s.spec_bytes() == ascii_bytes(s@),
{
    assert forall|i: int| 0 <= i < s@.len() implies '\0' <= #[trigger] s@[i] <= '\u{7f}' by {
        assert(is_good_char(s@[i]));
    }
    vstd::string::is_ascii_spec_bytes(s);
    assert(s.spec_bytes() =~= ascii_bytes(s@));
}

/// Two good characters with the same byte are the same character.
proof fn lemma_good_char_byte(a: char, b: char)
    requires
        is_good_char(a),
        is_good_char(b),
        a as u8 == b as u8,
    ensures
        a == b,
{
}

/// The number of characters of a good text.
fn text_len(s: &str) -> (n: usize)
    requires
        is_good_text(s@),
    ensures
        n == s@.len(),
{
    proof {
        lemma_good_text_bytes(s);
    }
    s.as_bytes().len()
}

/// Whether `long` ends with `short`.
fn text_ends_with(long: &str, short: &str) -> (r: bool)
    requires
        is_good_text(long@),
        is_good_text(short@),
    ensures
        r == ends_with(long@, short@),
{
    proof {
        lemma_good_text_bytes(long);
        lemma_good_text_bytes(short);
    }
    let a = long.as_bytes();
    let b = short.as_bytes();
    if b.len() > a.len() {
        return false;
    }
    let shift = a.len() - b.len();
    let ghost tail = long@.skip(shift as int);
    let mut i: usize = 0;
    while i < b.len()
        invariant
            i <= b.len(),
            shift + b.len() == a.len(),
            a@ == ascii_bytes(long@),
            b@ == ascii_bytes(short@),
            is_good_text(long@),
            is_good_text(short@),
            tail == long@.skip(shift as int),
            forall|k: int| 0 <= k < i ==> tail[k] == short@[k],
        decreases b.len() - i,
    {
        if a[shift + i] != b[i] {
            assert(tail[i as int] != short@[i as int]);
            return false;
        }
        proof {
            lemma_good_char_byte(long@[shift + i], short@[i as int]);
        }
        i = i + 1;
    }
    assert(tail =~= short@);
    true
}

/// Appends the bytes of `text` and a zero byte to `buf`.
pub fn append_terminated(buf: &mut Vec<u8>, text: &str)
    requires
        is_good_text(text@),
    ensures
        final(buf)@ == old(buf)@ + ascii_bytes(text@) + seq![0u8],
{
    proof {
        lemma_good_text_bytes(text);
    }
    let bytes = text.as_bytes();
    let mut i: usize = 0;
    while i < bytes.len()
        invariant
            i <= bytes.len(),
            bytes@ == ascii_bytes(text@),
            buf@ == old(buf)@ + bytes@.take(i as int),
        decreases bytes.len() - i,
    {
        buf.push(bytes[i]);
        assert(bytes@.take(i + 1) =~= bytes@.take(i as int).push(bytes@[i as int]));
        i = i + 1;
    }
    assert(bytes@.take(i as int) =~= bytes@);
    buf.push(0);
}

/// The offsets of the strings of a pool in its string section.
pub struct StringOffsets {
    map: StringHashMap<usize>,
}

impl View for StringOffsets {
    type V = Map<Seq<char>, nat>;

    closed spec fn view(&self) -> Map<Seq<char>, nat> {
        Map::new(|s: Seq<char>| self.map@.contains_key(s), |s: Seq<char>| self.map@[s] as nat)
    }
}

impl StringOffsets {
    /// A table that holds no string.
    pub fn new() -> (r: Self)
        ensures
            r@ == Map::<Seq<char>, nat>::empty(),
    {
        let r = StringOffsets { map: StringHashMap::new() };
        assert(r@ =~= Map::<Seq<char>, nat>::empty());
        r
    }

    /// Records that `s` lies at `offset`, whatever was recorded of it.
    pub fn insert(&mut self, s: &str, offset: usize)
        ensures
            final(self)@ == old(self)@.insert(s@, offset as nat),
    {
        self.map.insert(s.to_owned(), offset);
        assert(self@ =~= old(self)@.insert(s@, offset as nat));
    }

    /// The offset of `s`, if the table holds `s`.
    pub fn get(&self, s: &str) -> (r: Option<usize>)
        ensures
            match r {
                Some(offset) => self@.contains_key(s@) && self@[s@] == offset as nat,
                None => !self@.contains_key(s@),
            },
    {
        match self.map.get(s) {
            Some(offset) => Some(*offset),
            None => None,
        }
    }
}

/// Collects the distinct output strings of a dictionary and lays them out
/// in one buffer. Its view is the list of its strings in the order in which
/// they were added.
pub struct StringSectionBuilder {
    strings: Vec<String>,
    seen: StringHashMap<()>,
}

impl View for StringSectionBuilder {
    type V = Seq<Seq<char>>;

    closed spec fn view(&self) -> Seq<Seq<char>> {
        texts(self.strings@)
    }
}

impl StringSectionBuilder {
    /// The builder is well formed: it holds good texts, none twice, and it
    /// knows which ones it holds. This holds after `new` and after every
    /// `add_string`.
    pub closed spec fn wf(&self) -> bool {
        &&& is_pool(self@)
        &&& forall|t: Seq<char>| self.seen@.contains_key(t) <==> self@.contains(t)
    }

    /// A well-formed builder holds a pool.
    pub proof fn lemma_wf_is_pool(&self)
        requires
            self.wf(),
        ensures
            is_pool(self@),
    {
    }

    /// A pool that holds no string.
    pub fn new() -> (r: Self)
        ensures
            r.wf(),
            r@ == Seq::<Seq<char>>::empty(),
    {
        let r = StringSectionBuilder { strings: Vec::new(), seen: StringHashMap::new() };
        assert(r@ =~= Seq::<Seq<char>>::empty());
        r
    }

    /// Whether the pool holds `s`.
    pub fn contains(&self, s: &str) -> (r: bool)
        requires
            self.wf(),
        ensures
            r == self@.contains(s@),
    {
        self.seen.contains_key(s)
    }

    /// Adds `s` to the pool. Adding a string that the pool holds changes
    /// nothing.
    pub fn add_string(&mut self, s: &str)
        requires
            old(self).wf(),
            is_good_text(s@),
        ensures
            final(self).wf(),
            final(self)@ == pool_with(old(self)@, s@),
    {
        if !self.seen.contains_key(s) {
            let ghost before = self@;
            assert(!before.contains(s@));
            self.strings.push(s.to_owned());
            self.seen.insert(s.to_owned(), ());
            proof {
                assert(self@ =~= before.push(s@));
                assert forall|i: int, j: int|
                    0 <= i < self@.len() && 0 <= j < self@.len() && i != j implies self@[i]
                    != self@[j] by {
                    if i < before.len() {
                        assert(before[i] == self@[i]);
                    }
                    if j < before.len() {
                        assert(before[j] == self@[j]);
                    }
                }
                assert forall|t: Seq<char>| self.seen@.contains_key(t) <==> self@.contains(t) by {
                    if before.contains(t) {
                        let i = choose|i: int| 0 <= i < before.len() && before[i] == t;
                        assert(self@[i] == t);
                    }
                    if t == s@ {
                        assert(self@[before.len() as int] == t);
                    }
                    if self@.contains(t) {
                        let i = choose|i: int| 0 <= i < self@.len() && self@[i] == t;
                        if i < before.len() {
                            assert(before[i] == t);
                        }
                    }
                }
            }
        }
    }

    /// States that `s` may be added to a pool; it may be called on good
    /// texts only.
    pub fn verify_string_well_formed(&self, s: &str)
        requires
            is_good_text(s@),
    {
    }

    /// The number of bytes that the strings take when none shares its bytes
    /// with another: `usize::MAX` if the number is larger than that.
    pub fn get_total_string_length(&self) -> (n: usize)
        requires
            self.wf(),
        ensures
            n == saturated(total_length(self@)),
    {
        let mut n: usize = 0;
        let mut i: usize = 0;
        assert(self@.take(0) =~= Seq::<Seq<char>>::empty());
        while i < self.strings.len()
            invariant
                i <= self.strings.len(),
                is_pool(self@),
                self@ == texts(self.strings@),
                n == saturated(total_length(self@.take(i as int))),
            decreases self.strings.len() - i,
        {
            let text = self.strings[i].as_str();
            proof {
                assert(self@[i as int] == text@);
                assert(self@.take(i + 1).drop_last() =~= self@.take(i as int));
            }
            let len = text_len(text);
            if len >= usize::MAX - n {
                n = usize::MAX;
            } else {
                n = n + len + 1;
            }
            i = i + 1;
        }
        assert(self@.take(i as int) =~= self@);
        n
    }

    /// The strings in the order in which they are laid out.
    fn sorted_strings(&self) -> (order: Vec<String>)
        requires
            self.wf(),
        ensures
            texts(order@) == layout_order(self@),
    {
        let mut order: Vec<String> = Vec::new();
        let mut i: usize = 0;
        assert(self@.take(0) =~= Seq::<Seq<char>>::empty());
        assert(texts(order@) =~= Seq::<Seq<char>>::empty());
        while i < self.strings.len()
            invariant
                i <= self.strings.len(),
                is_pool(self@),
                self@ == texts(self.strings@),
                texts(order@) == layout_order(self@.take(i as int)),
                forall|k: int| 0 <= k < order.len() ==> is_good_text(#[trigger] order@[k]@),
            decreases self.strings.len() - i,
        {
            let text = self.strings[i].as_str();
            let ghost sorted = texts(order@);
            assert(self@[i as int] == text@);
            let mut p: usize = 0;
            let mut found = false;
            while p < order.len() && !found
                invariant
                    p <= order.len(),
                    sorted == texts(order@),
                    is_good_text(text@),
                    forall|k: int| 0 <= k < order.len() ==> is_good_text(#[trigger] order@[k]@),
                    forall|j: int| 0 <= j < p ==> sorted[j].len() >= text@.len(),
                    found ==> p < order.len() && sorted[p as int].len() < text@.len(),
                decreases order.len() - p + (if found { 0int } else { 1int }),
            {
                let other = order[p].as_str();
                assert(sorted[p as int] == other@);
                if text_len(other) < text_len(text) {
                    found = true;
                } else {
                    p = p + 1;
                }
            }
            proof {
                lemma_insert_position(sorted, text@, p as int);
                assert(self@.take(i + 1).drop_last() =~= self@.take(i as int));
            }
            order.insert(p, text.to_owned());
            assert(texts(order@) =~= sorted.insert(p as int, text@));
            i = i + 1;
        }
        assert(self@.take(i as int) =~= self@);
        order
    }

    /// Lays the strings out: the string section, and the offset of every
    /// string in it. The strings are taken longest first; one that ends a
    /// string already written lies in that string's bytes, and any other is
    /// written at the end with a zero byte behind it.
    pub fn layout_strings(&self) -> (r: (Vec<u8>, StringOffsets))
        requires
            self.wf(),
        ensures
            r.0@ == section_of(self@),
            r.1@ == offsets_of(self@),
    {
        let order = self.sorted_strings();
        let ghost order_texts = texts(order@);
        proof {
            assert forall|k: int| 0 <= k < order_texts.len() implies is_good_text(
                #[trigger] order_texts[k],
            ) by {
                lemma_layout_order_holds(self@, order_texts[k]);
                let i = choose|i: int| 0 <= i < self@.len() && self@[i] == order_texts[k];
                assert(is_good_text(self@[i]));
            }
        }
        let mut placed: Vec<usize> = Vec::new();
        let mut starts: Vec<usize> = Vec::new();
        let mut buf: Vec<u8> = Vec::new();
        let mut offsets = StringOffsets::new();
        let ghost mut placed_texts: Seq<Seq<char>> = Seq::empty();
        let mut idx: usize = 0;
        assert(order_texts.take(0) =~= Seq::<Seq<char>>::empty());
        assert(offsets@ =~= Map::new(
            |t: Seq<char>| order_texts.take(0).contains(t),
            |t: Seq<char>| offset_in(placed_texts, t),
        ));
        while idx < order.len()
            invariant
                idx <= order.len(),
                order_texts == texts(order@),
                forall|k: int| 0 <= k < order_texts.len() ==> is_good_text(#[trigger] order_texts[k]),
                placed_texts == placed_of(order_texts.take(idx as int)),
                placed.len() == placed_texts.len(),
                starts.len() == placed_texts.len(),
                forall|h: int|
                    #![trigger placed[h]]
                    #![trigger starts[h]]
                    0 <= h < placed.len() ==> placed[h] < order.len()
                        && order_texts[placed[h] as int] == placed_texts[h] && starts[h]
                        == start_of(placed_texts, h),
                buf@ == pool_bytes(placed_texts),
                forall|t: Seq<char>| #[trigger]
                    order_texts.take(idx as int).contains(t) ==> has_host(placed_texts, t),
                offsets@ == Map::new(
                    |t: Seq<char>| order_texts.take(idx as int).contains(t),
                    |t: Seq<char>| offset_in(placed_texts, t),
                ),
            decreases order.len() - idx,
        {
            let text = order[idx].as_str();
            let ghost done = order_texts.take(idx as int);
            let ghost next = order_texts.take(idx + 1);
            assert(order_texts[idx as int] == text@);
            assert(next.drop_last() =~= done);
            assert(next.last() == text@);
            assert(forall|t: Seq<char>| next.contains(t) <==> (t == text@ || done.contains(t))) by {
                assert(next =~= done.push(text@));
                assert forall|t: Seq<char>| next.contains(t) implies (t == text@ || done.contains(
                    t,
                )) by {
                    let i = choose|i: int| 0 <= i < next.len() && next[i] == t;
                    if i < done.len() {
                        assert(done[i] == t);
                    }
                }
                assert forall|t: Seq<char>| (t == text@ || done.contains(t)) implies next.contains(
                    t,
                ) by {
                    if done.contains(t) {
                        let i = choose|i: int| 0 <= i < done.len() && done[i] == t;
                        assert(next[i] == t);
                    } else {
                        assert(next[idx as int] == t);
                    }
                }
            }
            let mut h: usize = 0;
            let mut found = false;
            while h < placed.len() && !found
                invariant
                    h <= placed.len(),
                    placed.len() == placed_texts.len(),
                    is_good_text(text@),
                    order_texts == texts(order@),
                    forall|k: int|
                        0 <= k < order_texts.len() ==> is_good_text(#[trigger] order_texts[k]),
                    forall|k: int|
                        0 <= k < placed.len() ==> #[trigger] placed[k] < order.len()
                            && order_texts[placed[k] as int] == placed_texts[k],
                    forall|j: int| 0 <= j < h ==> !ends_with(placed_texts[j], text@),
                    found ==> h < placed.len() && ends_with(placed_texts[h as int], text@),
                decreases placed.len() - h + (if found { 0int } else { 1int }),
            {
                let other = order[placed[h]].as_str();
                assert(order_texts[placed[h as int] as int] == other@);
                if text_ends_with(other, text) {
                    found = true;
                } else {
                    h = h + 1;
                }
            }
            proof {
                lemma_first_host_is(placed_texts, text@, 0, h as int);
            }
            let end = buf.len();
            if found {
                let other = order[placed[h]].as_str();
                proof {
                    assert(order_texts[placed[h as int] as int] == other@);
                    lemma_start_of_bound(placed_texts, h as int);
                    assert(starts[h as int] + other@.len() < end);
                }
                let offset = starts[h] + (text_len(other) - text_len(text));
                offsets.insert(text, offset);
                assert(offsets@ =~= Map::new(
                    |t: Seq<char>| next.contains(t),
                    |t: Seq<char>| offset_in(placed_texts, t),
                ));
            } else {
                let ghost before = placed_texts;
                offsets.insert(text, end);
                append_terminated(&mut buf, text);
                placed.push(idx);
                starts.push(end);
                proof {
                    placed_texts = before.push(text@);
                    lemma_host_of_placed(before, text@);
                    assert(placed_texts.drop_last() =~= before);
                    assert forall|t: Seq<char>| done.contains(t) implies has_host(placed_texts, t)
                        && offset_in(placed_texts, t) == offset_in(before, t) by {
                        lemma_host_stays(before, text@, t);
                    }
                    assert forall|k: int| 0 <= k < placed.len() implies starts[k] == start_of(
                        placed_texts,
                        k,
                    ) by {
                        if k < before.len() {
                            assert(placed_texts.take(k) =~= before.take(k));
                        } else {
                            assert(placed_texts.take(k) =~= before);
                        }
                    }
                    assert(offsets@ =~= Map::new(
                        |t: Seq<char>| next.contains(t),
                        |t: Seq<char>| offset_in(placed_texts, t),
                    ));
                }
            }
            idx = idx + 1;
        }
        proof {
            assert(order_texts.take(idx as int) =~= order_texts);
            assert(offsets@ =~= offsets_of(self@)) by {
                assert forall|t: Seq<char>| order_texts.contains(t) <==> self@.contains(t) by {
                    lemma_layout_order_holds(self@, t);
                }
            }
        }
        (buf, offsets)
    }
}

} // verus!
