//! The chord codec: a stroke is a set of keys of the steno keyboard, packed
//! into the low 23 bits of an integer, one bit per key in keyboard order.
use crate::encoding::le_bytes;
use vstd::prelude::*;

verus! {

/// Number of keys on the keyboard.
pub const KEY_COUNT: usize = 23;

/// Index of the first key that a `-` in chord text skips to.
pub const MIDPOINT: usize = 11;

/// The keys in keyboard order, left to right. Bit `i` of a stroke stands for
/// `KEY_ORDER[i]`.
pub const KEY_ORDER: [char; 23] = [
    '#', 'S', 'T', 'K', 'P', 'W', 'H', 'R', 'A', 'O', '*', 'E', 'U', 'F', 'R', 'P', 'B', 'L', 'G',
    'T', 'S', 'D', 'Z',
];

/// The left-hand consonants `STKPWHR`.
pub const LEFT_HAND_MASK: u32 = 0x0000_00FE;

/// The vowel cluster `AO*EU`.
pub const VOWEL_MASK: u32 = 0x0000_1F00;

/// Every bit that stands for no key.
pub const UNUSED_MASK: u32 = 0xFF80_0000;

/// The key at index `i` of the keyboard order.
pub open spec fn key_char(i: int) -> char {
    KEY_ORDER@[i]
}

/// The bit that stands for key `p`.
pub open spec fn key_bit(p: nat) -> u32 {
    1u32 << (p as u32)
}

/// Whether key `p` is pressed in the stroke value `v`.
pub open spec fn has_key(v: u32, p: nat) -> bool {
    v & key_bit(p) != 0
}

/// The first index at or after `from` whose key is `c`, or `KEY_COUNT` if
/// there is none.
pub open spec fn find_key(c: char, from: nat) -> nat
    decreases KEY_COUNT - from,
{
    if from >= KEY_COUNT {
        KEY_COUNT as nat
    } else if key_char(from as int) == c {
        from
    } else {
        find_key(c, from + 1)
    }
}

/// Where the cursor stands after a `-`.
pub open spec fn after_separator(cursor: nat) -> nat {
    if cursor < MIDPOINT {
        MIDPOINT as nat
    } else {
        cursor
    }
}

/// Parses the characters `s` with the scan cursor at `cursor` and the keys
/// found so far in `acc`.
pub open spec fn parse_from(s: Seq<char>, cursor: nat, acc: u32) -> Option<u32>
    decreases s.len(),
{
    if s.len() == 0 {
        Some(acc)
    } else if s[0] == '-' {
        parse_from(s.drop_first(), after_separator(cursor), acc)
    } else {
        let p = find_key(s[0], cursor);
        if p >= KEY_COUNT {
            None
        } else {
            parse_from(s.drop_first(), p, acc | key_bit(p))
        }
    }
}

/// The stroke value that chord text `s` denotes, if it is well formed: every
/// key appears in keyboard order, and the text is not empty.
pub open spec fn parse_chord(s: Seq<char>) -> Option<u32> {
    if s.len() == 0 {
        None
    } else {
        parse_from(s, 0, 0)
    }
}

/// The keys of `v` with index in `lo..hi`, written out in keyboard order.
pub open spec fn render_range(v: u32, lo: nat, hi: nat) -> Seq<char>
    decreases hi - lo,
{
    if lo >= hi {
        Seq::empty()
    } else if has_key(v, lo) {
        seq![key_char(lo as int)] + render_range(v, lo + 1, hi)
    } else {
        render_range(v, lo + 1, hi)
    }
}

/// Whether the text of `v` needs a `-` to be read back unambiguously: it
/// does unless `v` holds left-hand consonants only, or holds a vowel.
pub open spec fn needs_separator(v: u32) -> bool {
    !(v & LEFT_HAND_MASK == v || v & VOWEL_MASK != 0)
}

/// The `-`, where it is needed.
pub open spec fn separator_text(v: u32) -> Seq<char> {
    if needs_separator(v) {
        seq!['-']
    } else {
        Seq::empty()
    }
}

/// The canonical chord text of the stroke value `v`: its keys in keyboard
/// order, with a `-` after the key at `MIDPOINT` where one is needed.
pub open spec fn render(v: u32) -> Seq<char> {
    render_range(v, 0, MIDPOINT as nat + 1) + separator_text(v) + render_range(
        v,
        MIDPOINT as nat + 1,
        KEY_COUNT as nat,
    )
}

/// What `render` has written once the keys below `n` are done.
pub open spec fn render_prefix(v: u32, n: nat) -> Seq<char> {
    if n <= MIDPOINT {
        render_range(v, 0, n)
    } else {
        render_range(v, 0, MIDPOINT as nat + 1) + separator_text(v) + render_range(
            v,
            MIDPOINT as nat + 1,
            n,
        )
    }
}

/// A range of keys can be written in two parts.
pub proof fn lemma_render_split(v: u32, lo: nat, mid: nat, hi: nat)
    requires
        lo <= mid <= hi,
    ensures
        render_range(v, lo, hi) == render_range(v, lo, mid) + render_range(v, mid, hi),
    decreases mid - lo,
{
    if lo < mid {
        lemma_render_split(v, lo + 1, mid, hi);
        assert(render_range(v, lo, hi) =~= render_range(v, lo, mid) + render_range(v, mid, hi));
    } else {
        assert(render_range(v, lo, hi) =~= render_range(v, lo, mid) + render_range(v, mid, hi));
    }
}

/// Index of the first `/` in `s`, or the length of `s` if it holds none.
pub open spec fn first_slash(s: Seq<char>) -> nat
    decreases s.len(),
{
    if s.len() == 0 || s[0] == '/' {
        0
    } else {
        1 + first_slash(s.drop_first())
    }
}

/// The stroke values that the chord sequence `s` denotes: `s` is cut at
/// each `/`, and every piece must be a well-formed chord.
pub open spec fn parse_sequence(s: Seq<char>) -> Option<Seq<u32>>
    decreases s.len(),
{
    let n = first_slash(s);
    match parse_chord(s.take(n as int)) {
        None => None,
        Some(v) => if n >= s.len() {
            Some(seq![v])
        } else {
            match parse_sequence(s.skip(n as int + 1)) {
                None => None,
                Some(rest) => Some(seq![v] + rest),
            }
        },
    }
}

/// The values of a list of strokes.
pub open spec fn stroke_values(strokes: Seq<Stroke>) -> Seq<u32> {
    strokes.map_values(|x: Stroke| x@)
}

/// `front`, followed by what `rest` holds, if it holds anything.
pub open spec fn prepend(front: Seq<u32>, rest: Option<Seq<u32>>) -> Option<Seq<u32>> {
    match rest {
        None => None,
        Some(r) => Some(front + r),
    }
}

/// The first `/` of a text stands where no `/` stands before it.
pub proof fn lemma_first_slash_at(s: Seq<char>, k: nat)
    requires
        k <= s.len(),
        forall|j: int| 0 <= j < k ==> s[j] != '/',
        k == s.len() || s[k as int] == '/',
    ensures
        first_slash(s) == k,
    decreases k,
{
    if k > 0 {
        lemma_first_slash_at(s.drop_first(), (k - 1) as nat);
    }
}

/// A parsed chord holds key bits only.
pub proof fn lemma_parse_from_valid(s: Seq<char>, cursor: nat, acc: u32)
    requires
        acc & UNUSED_MASK == 0,
    ensures
        parse_from(s, cursor, acc) matches Some(v) ==> v & UNUSED_MASK == 0,
    decreases s.len(),
{
    if s.len() > 0 {
        if s[0] == '-' {
            lemma_parse_from_valid(s.drop_first(), after_separator(cursor), acc);
        } else {
            let p = find_key(s[0], cursor);
            if p < KEY_COUNT {
                let b = p as u32;
                assert((acc | (1u32 << b)) & 0xFF80_0000u32 == 0) by (bit_vector)
                    requires
                        acc & 0xFF80_0000u32 == 0,
                        b < 23,
                ;
                lemma_parse_from_valid(s.drop_first(), p, acc | key_bit(p));
            }
        }
    }
}

/// Every stroke of a parsed chord sequence is valid, and there is at least
/// one.
pub proof fn lemma_parse_sequence_valid(s: Seq<char>)
    ensures
        parse_sequence(s) matches Some(vs) ==> vs.len() > 0 && forall|i: int|
            0 <= i < vs.len() ==> #[trigger] vs[i] & UNUSED_MASK == 0,
    decreases s.len(),
{
    let n = first_slash(s);
    assert(0u32 & 0xFF80_0000u32 == 0) by (bit_vector);
    lemma_parse_from_valid(s.take(n as int), 0, 0);
    if n < s.len() {
        lemma_parse_sequence_valid(s.skip(n as int + 1));
    }
}

/// One round of the scrambling hash.
pub open spec fn mix_round(x: u32) -> u32 {
    ((x >> 16) ^ x).wrapping_mul(0x045d_9f3b)
}

/// The scrambling hash of a stroke value: two multiplying rounds and a
/// last fold of the high half into the low half.
pub open spec fn mix(x: u32) -> u32 {
    let y = mix_round(mix_round(x));
    (y >> 16) ^ y
}

/// The standard library's `String::push`, which vstd leaves unspecified:
/// it appends the character to the end of the string. This is taken from
/// its documentation, not proved.
pub assume_specification[ String::push ](s: &mut String, c: char)
    ensures
        final(s)@ == old(s)@.push(c),
;

/// A stroke: the set of keys pressed together, as a bit mask over
/// `KEY_ORDER`.
#[derive(Copy, Clone, Debug, PartialEq, Eq, Structural, Hash, Ord)]
pub struct Stroke(pub u32);

impl View for Stroke {
    type V = u32;

    open spec fn view(&self) -> u32 {
        self.0
    }
}

impl From<u32> for Stroke {
    fn from(value: u32) -> (s: Stroke) {
        Stroke(value)
    }
}

impl vstd::std_specs::convert::FromSpecImpl<u32> for Stroke {
    open spec fn obeys_from_spec() -> bool {
        true
    }

    open spec fn from_spec(value: u32) -> Stroke {
        Stroke(value)
    }
}

impl Stroke {
    /// A stroke is valid when no bit above the last key is set.
    pub open spec fn is_valid(&self) -> bool {
        self.0 & UNUSED_MASK == 0
    }

    /// Parses one chord, such as `STKR-T`, into its stroke value. Keys must
    /// appear in keyboard order; `-` skips to the right-hand side.
    pub fn try_stroke_str_to_int(s: &str) -> (r: Option<u32>)
        ensures
            r == parse_chord(s@),
    {
        if s.is_empty() {
            return None;
        }
        let mut cursor: usize = 0;
        let mut result: u32 = 0;
        assert(s@.skip(0) =~= s@);
        for c in it: s.chars()
            invariant
                it.seq() == s@,
                cursor <= KEY_COUNT,
                parse_chord(s@) == parse_from(s@.skip(it.index()), cursor as nat, result),
        {
            let ghost rest = s@.skip(it.index());
            assert(rest.len() > 0 && rest[0] == c);
            assert(rest.drop_first() =~= s@.skip(it.index() + 1));
            if c == '-' {
                if cursor < MIDPOINT {
                    cursor = MIDPOINT;
                }
            } else {
                let ghost start = cursor;
                while cursor < KEY_COUNT && KEY_ORDER[cursor] != c
                    invariant
                        start <= cursor <= KEY_COUNT,
                        find_key(c, start as nat) == find_key(c, cursor as nat),
                    decreases KEY_COUNT - cursor,
                {
                    cursor = cursor + 1;
                }
                if cursor == KEY_COUNT {
                    return None;
                }
                result = result | (1u32 << (cursor as u32));
            }
        }
        Some(result)
    }

    /// The canonical chord text of this stroke, such as `STKR-T`.
    pub fn to_string(&self) -> (s: String)
        ensures
            s@ == render(self@),
    {
        let v = self.0;
        let has_hyphen = !(v & LEFT_HAND_MASK == v || v & VOWEL_MASK != 0);
        let mut res = String::new();
        let mut i: usize = 0;
        while i < KEY_COUNT
            invariant
                i <= KEY_COUNT,
                v == self@,
                has_hyphen == needs_separator(v),
                res@ == render_prefix(v, i as nat),
            decreases KEY_COUNT - i,
        {
            if v & (1u32 << (i as u32)) != 0 {
                res.push(KEY_ORDER[i]);
            }
            let ghost with_key = res@;
            if i == MIDPOINT && has_hyphen {
                res.push('-');
            }
            proof {
                let n = i as nat;
                assert(render_range(v, n, n + 1) =~= if has_key(v, n) {
                    seq![key_char(n as int)]
                } else {
                    Seq::empty()
                }) by {
                    assert(render_range(v, n + 1, n + 1) =~= Seq::empty());
                }
                if n <= MIDPOINT {
                    lemma_render_split(v, 0, n, n + 1);
                    assert(with_key =~= render_range(v, 0, n + 1));
                    if n == MIDPOINT {
                        assert(render_range(v, n + 1, n + 1) =~= Seq::empty());
                        assert(res@ =~= render_prefix(v, n + 1));
                    }
                } else {
                    lemma_render_split(v, MIDPOINT as nat + 1, n, n + 1);
                    assert(res@ =~= render_prefix(v, n + 1));
                }
            }
            i = i + 1;
        }
        res
    }

    /// The integer that holds the keys of this stroke.
    pub fn to_int(&self) -> (v: u32)
        ensures
            v == self@,
    {
        self.0
    }

    /// Whether no bit above the last key is set.
    pub fn check_valid(&self) -> (ok: bool)
        ensures
            ok == self.is_valid(),
    {
        self.0 & UNUSED_MASK == 0
    }

    /// States that this stroke is valid; it may be called on valid strokes
    /// only.
    pub fn assert_is_valid(&self)
        requires
            self.is_valid(),
    {
    }

    /// Parses one chord that is known to be well formed.
    pub fn stroke_str_to_int(s: &str) -> (v: u32)
        requires
            parse_chord(s@) is Some,
        ensures
            parse_chord(s@) == Some(v),
    {
        Self::try_stroke_str_to_int(s).unwrap()
    }

    /// A well-distributed hash of the stroke value, for hash tables.
    /// Multiplication wraps around.
    pub fn hash(&self) -> (h: u32)
        ensures
            h == mix(self@),
    {
        let mut x: u32 = self.0;
        x = ((x >> 16) ^ x).wrapping_mul(0x045d_9f3b);
        x = ((x >> 16) ^ x).wrapping_mul(0x045d_9f3b);
        x = (x >> 16) ^ x;
        x
    }

    /// The three low bytes of the stroke value, least significant first.
    /// A valid stroke has no others.
    pub fn to_bytes(&self) -> (bytes: [u8; 3])
        ensures
            bytes@ == le_bytes(self@ as nat, 3),
    {
        let v = self.0;
        let bytes = [(v % 256) as u8, ((v / 256) % 256) as u8, ((v / 65536) % 256) as u8];
        proof {
            reveal_with_fuel(le_bytes, 4);
            assert(bytes@ =~= le_bytes(v as nat, 3));
        }
        bytes
    }

    /// Parses a chord sequence, such as `STKR-T/-G`: the chords between the
    /// `/`s, in order. One chord that is not well formed spoils the whole.
    pub fn convert_str_to_stroke_vec(s: &str) -> (r: Option<Vec<Stroke>>)
        ensures
            match r {
                Some(strokes) => parse_sequence(s@) == Some(stroke_values(strokes@)),
                None => parse_sequence(s@) is None,
            },
    {
        let n = s.unicode_len();
        let mut res: Vec<Stroke> = Vec::new();
        let mut start: usize = 0;
        let mut i: usize = 0;
        assert(stroke_values(res@) + parse_sequence(s@)->0 =~= parse_sequence(s@)->0);
        assert(s@.skip(0) =~= s@);
        for c in it: s.chars()
            invariant
                it.seq() == s@,
                n == s@.len(),
                i == it.index(),
                start <= i,
                forall|k: int| start <= k < i ==> s@[k] != '/',
                parse_sequence(s@) == prepend(
                    stroke_values(res@),
                    parse_sequence(s@.skip(start as int)),
                ),
        {
            if c == '/' {
                let frag = s.substring_char(start, i);
                let ghost rest = s@.skip(start as int);
                let ghost done = stroke_values(res@);
                proof {
                    lemma_first_slash_at(rest, (i - start) as nat);
                    assert(rest.take(i - start) =~= frag@);
                    assert(rest.skip(i - start + 1) =~= s@.skip(i + 1));
                }
                match Self::try_stroke_str_to_int(frag) {
                    Some(v) => {
                        res.push(Stroke(v));
                        proof {
                            assert(stroke_values(res@) =~= done.push(v));
                            let tail = parse_sequence(s@.skip(i + 1));
                            if tail is Some {
                                assert(done.push(v) + tail->0 =~= done + (seq![v] + tail->0));
                            }
                        }
                    },
                    None => {
                        return None;
                    },
                }
                start = i + 1;
            }
            i = i + 1;
        }
        let frag = s.substring_char(start, i);
        let ghost rest = s@.skip(start as int);
        let ghost done = stroke_values(res@);
        proof {
            lemma_first_slash_at(rest, (i - start) as nat);
            assert(rest.take(i - start) =~= frag@);
        }
        match Self::try_stroke_str_to_int(frag) {
            Some(v) => {
                res.push(Stroke(v));
                assert(stroke_values(res@) =~= done + seq![v]);
                Some(res)
            },
            None => None,
        }
    }
}

} // verus!
