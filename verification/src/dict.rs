//! The dictionary model: entries grouped by their final stroke, and the
//! three byte sections they compile to.
use crate::ascending::{
    ascending_keys, lemma_ascending_list_is, lemma_increasing_is_ascending, lemma_u32_keys,
};
use crate::encoding::{append_le, le_bytes};
use crate::json::{json_object_pairs, pair_texts, parse_json_object};
use crate::pool_model::{ascii_bytes, offsets_of};
use crate::section_laws::{
    has_no_empty_group, has_valid_keys, lemma_entries_found, lemma_loaded_groups_hold_entries,
    lemma_loaded_keys_valid, lemma_pool_of_groups_holds, lemma_sections_error_stays,
};
use crate::section_model::{
    dict_pool, dict_with, emitted, emitted_sections, entries_bytes, entry_bytes, group_bytes,
    key_value_sections, loaded, parsable, pool_of_groups, pool_with_entries, sections_of,
    strokes_bytes, CapacityLimit, EmitError, EntryModel, GroupModel, MAX_GROUP_ENTRIES,
    MAX_PREV_STROKES, MAX_VALUE_OFFSET, STRING_OFFSET_LIMIT,
};
use crate::string_section_builder::{append_terminated, StringOffsets, StringSectionBuilder};
use crate::stroke::{lemma_parse_sequence_valid, stroke_values, Stroke};
use std::collections::BTreeMap;
use vstd::prelude::*;
use vstd::std_specs::iter::IteratorSpec;

verus! {

/// A character that an output string may hold: an ASCII letter, a space, or
/// one of the ASCII control characters that count as white space (tab, line
/// feed, vertical tab, form feed, carriage return).
pub open spec fn is_good_char(c: char) -> bool {
    ||| 'A' <= c <= 'Z'
    ||| 'a' <= c <= 'z'
    ||| c == ' '
    ||| '\t' <= c <= '\r'
}

/// A text that may be an output string: every character of it is good.
pub open spec fn is_good_text(s: Seq<char>) -> bool {
    forall|i: int| 0 <= i < s.len() ==> is_good_char(#[trigger] s[i])
}

/// Whether `s` holds ASCII letters and white space only.
pub fn is_good_string(s: &str) -> (good: bool)
    ensures
        good == is_good_text(s@),
{
    for c in it: s.chars()
        invariant
            it.seq() == s@,
            forall|i: int| 0 <= i < it.index() ==> is_good_char(#[trigger] s@[i]),
    {
        let good = ('A' <= c && c <= 'Z') || ('a' <= c && c <= 'z') || c == ' ' || ('\t' <= c && c
            <= '\r');
        if !good {
            return false;
        }
    }
    true
}

/// One of the four attributes of an entry.
#[derive(Copy, Clone, Debug, PartialEq, Eq, Structural)]
pub enum EntryFlag {
    IsPrefix,
    IsSuffix,
    DoCapitalize,
    DoNotCapitalize,
}

impl EntryFlag {
    /// The bit of the flag byte that stands for this attribute.
    pub open spec fn bits(&self) -> u8 {
        match self {
            EntryFlag::IsPrefix => 1,
            EntryFlag::IsSuffix => 2,
            EntryFlag::DoCapitalize => 4,
            EntryFlag::DoNotCapitalize => 8,
        }
    }

    /// The bit of the flag byte that stands for this attribute.
    pub fn to_bits(&self) -> (b: u8)
        ensures
            b == self.bits(),
    {
        match self {
            EntryFlag::IsPrefix => 1,
            EntryFlag::IsSuffix => 2,
            EntryFlag::DoCapitalize => 4,
            EntryFlag::DoNotCapitalize => 8,
        }
    }
}

/// The attributes of an entry, one bit each. The four high bits are
/// reserved and stay zero.
#[derive(Copy, Clone, Debug)]
pub struct EntryFlags(u8);

impl View for EntryFlags {
    type V = u8;

    closed spec fn view(&self) -> u8 {
        self.0
    }
}

impl EntryFlags {
    #[verifier::type_invariant]
    closed spec fn reserved_bits_clear(&self) -> bool {
        self.0 & 0xF0 == 0
    }

    /// No attribute.
    pub fn new() -> (r: Self)
        ensures
            r@ == 0,
    {
        assert(0u8 & 0xF0 == 0) by (bit_vector);
        EntryFlags(0)
    }

    /// Gives the entry the attribute `f`.
    pub fn set(&mut self, f: EntryFlag)
        ensures
            final(self)@ == old(self)@ | f.bits(),
    {
        proof {
            use_type_invariant(&*self);
        }
        let bits = f.to_bits();
        let v = self.0;
        assert((v | bits) & 0xF0 == 0) by (bit_vector)
            requires
                v & 0xF0 == 0,
                bits == 1 || bits == 2 || bits == 4 || bits == 8,
        ;
        self.0 = v | bits;
    }

    /// Takes the attribute `f` from the entry.
    pub fn unset(&mut self, f: EntryFlag)
        ensures
            final(self)@ == old(self)@ & !f.bits(),
    {
        proof {
            use_type_invariant(&*self);
        }
        let bits = f.to_bits();
        let v = self.0;
        assert((v & !bits) & 0xF0 == 0) by (bit_vector)
            requires
                v & 0xF0 == 0,
        ;
        self.0 = v & !bits;
    }

    /// The flag byte. Its four high bits are zero.
    pub fn to_byte(&self) -> (b: u8)
        ensures
            b == self@,
            b & 0xF0 == 0,
    {
        proof {
            use_type_invariant(self);
        }
        self.0
    }
}

/// The output text of an entry: a good text.
#[derive(Debug)]
pub struct StrokeStringOutput {
    s: String,
}

impl View for StrokeStringOutput {
    type V = Seq<char>;

    closed spec fn view(&self) -> Seq<char> {
        self.s@
    }
}

impl StrokeStringOutput {
    #[verifier::type_invariant]
    closed spec fn holds_good_text(&self) -> bool {
        is_good_text(self.s@)
    }

    /// The output text `s`, if `s` is a good text.
    pub fn new(s: String) -> (r: Option<Self>)
        ensures
            match r {
                Some(out) => is_good_text(s@) && out@ == s@,
                None => !is_good_text(s@),
            },
    {
        if is_good_string(s.as_str()) {
            Some(StrokeStringOutput { s })
        } else {
            None
        }
    }

    /// The text.
    pub fn as_str(&self) -> (r: &str)
        ensures
            r@ == self@,
            is_good_text(self@),
    {
        proof {
            use_type_invariant(self);
        }
        self.s.as_str()
    }

    /// The text as it stands in a string section: its bytes and a zero
    /// byte.
    pub fn to_bytes(&self) -> (bytes: Vec<u8>)
        ensures
            bytes@ == ascii_bytes(self@) + seq![0u8],
    {
        let mut res: Vec<u8> = Vec::new();
        append_terminated(&mut res, self.as_str());
        assert(res@ =~= ascii_bytes(self@) + seq![0u8]);
        res
    }
}

/// One entry of the dictionary: the strokes before the final one, the
/// output text, and the flags.
#[derive(Debug)]
pub struct StrokeEntry {
    prev_strokes: Vec<Stroke>,
    string_output: StrokeStringOutput,
    flags: EntryFlags,
}

impl View for StrokeEntry {
    type V = EntryModel;

    closed spec fn view(&self) -> EntryModel {
        EntryModel {
            prev: stroke_values(self.prev_strokes@),
            text: self.string_output@,
            flags: self.flags@,
        }
    }
}

impl StrokeEntry {
    /// The entry with these parts.
    pub fn new(prev_strokes: Vec<Stroke>, string_output: StrokeStringOutput, flags: EntryFlags) -> (r:
        Self)
        ensures
            r@ == (EntryModel {
                prev: stroke_values(prev_strokes@),
                text: string_output@,
                flags: flags@,
            }),
    {
        StrokeEntry { prev_strokes, string_output, flags }
    }

    /// The strokes before the final one.
    pub fn prev_strokes(&self) -> (r: &Vec<Stroke>)
        ensures
            stroke_values(r@) == self@.prev,
    {
        &self.prev_strokes
    }

    /// The flags of the entry.
    pub fn flags(&self) -> (r: EntryFlags)
        ensures
            r@ == self@.flags,
    {
        self.flags
    }

    /// The output text of the entry.
    pub fn output(&self) -> (r: &str)
        ensures
            r@ == self@.text,
            is_good_text(r@),
    {
        self.string_output.as_str()
    }

    /// The bytes of the entry in the value section, with the offset of its
    /// output string taken from `offsets`.
    pub fn to_bytes(&self, offsets: &StringOffsets) -> (r: Result<Vec<u8>, EmitError>)
        ensures
            emitted(r) == entry_bytes(self@, offsets@),
    {
        let n = self.prev_strokes.len();
        if n > MAX_PREV_STROKES {
            return Err(EmitError::CapacityExceeded(CapacityLimit::PrevStrokes));
        }
        let offset = match offsets.get(self.string_output.as_str()) {
            Some(offset) => offset,
            None => {
                return Err(EmitError::LookupInvariantViolation);
            },
        };
        if offset >= STRING_OFFSET_LIMIT {
            return Err(EmitError::CapacityExceeded(CapacityLimit::StringOffset));
        }
        let mut res: Vec<u8> = Vec::new();
        res.push(n as u8);
        let ghost prev = stroke_values(self.prev_strokes@);
        let mut i: usize = 0;
        assert(prev.take(0) =~= Seq::<u32>::empty());
        while i < n
            invariant
                i <= n,
                n == self.prev_strokes.len(),
                prev == stroke_values(self.prev_strokes@),
                res@ == seq![n as u8] + strokes_bytes(prev.take(i as int)),
            decreases n - i,
        {
            let bytes = self.prev_strokes[i].to_bytes();
            res.push(bytes[0]);
            res.push(bytes[1]);
            res.push(bytes[2]);
            proof {
                assert(prev.take(i + 1).drop_last() =~= prev.take(i as int));
                assert(prev.take(i + 1).last() == self.prev_strokes@[i as int]@);
                assert(le_bytes(prev[i as int] as nat, 3) =~= seq![bytes[0], bytes[1], bytes[2]]);
                assert(res@ =~= seq![n as u8] + strokes_bytes(prev.take(i + 1)));
            }
            i = i + 1;
        }
        assert(prev.take(i as int) =~= prev);
        res.push(self.flags.to_byte());
        append_le(&mut res, offset as u64, 3);
        assert(res@ =~= seq![n as u8] + strokes_bytes(prev) + seq![self@.flags] + le_bytes(
            offset as nat,
            3,
        ));
        Ok(res)
    }
}

/// The entries that share a final stroke, in the order in which they were
/// loaded.
#[derive(Debug)]
pub struct StrokeEntryList {
    entries: Vec<StrokeEntry>,
}

/// The models of a list of entries.
pub open spec fn entry_models(entries: Seq<StrokeEntry>) -> Seq<EntryModel> {
    entries.map_values(|e: StrokeEntry| e@)
}

impl View for StrokeEntryList {
    type V = GroupModel;

    closed spec fn view(&self) -> GroupModel {
        entry_models(self.entries@)
    }
}

impl StrokeEntryList {
    /// A list without entries.
    pub fn empty() -> (r: Self)
        ensures
            r@ == Seq::<EntryModel>::empty(),
    {
        let r = StrokeEntryList { entries: Vec::new() };
        assert(r@ =~= Seq::<EntryModel>::empty());
        r
    }

    /// Adds `entry` behind the entries of the list.
    pub fn push(&mut self, entry: StrokeEntry)
        ensures
            final(self)@ == old(self)@.push(entry@),
    {
        self.entries.push(entry);
        assert(self@ =~= old(self)@.push(entry@));
    }

    /// The number of entries.
    pub fn len(&self) -> (n: usize)
        ensures
            n == self@.len(),
    {
        self.entries.len()
    }

    /// The entry with index `i`, if there is one.
    pub fn get(&self, i: usize) -> (r: Option<&StrokeEntry>)
        ensures
            match r {
                Some(entry) => i < self@.len() && entry@ == self@[i as int],
                None => i >= self@.len(),
            },
    {
        if i < self.entries.len() {
            Some(&self.entries[i])
        } else {
            None
        }
    }

    /// The bytes of the group in the value section: the number of entries
    /// and the entries in order.
    pub fn to_bytes(&self, offsets: &StringOffsets) -> (r: Result<Vec<u8>, EmitError>)
        ensures
            emitted(r) == group_bytes(self@, offsets@),
    {
        let n = self.entries.len();
        if n > MAX_GROUP_ENTRIES {
            return Err(EmitError::CapacityExceeded(CapacityLimit::GroupEntries));
        }
        let mut res: Vec<u8> = Vec::new();
        append_le(&mut res, n as u64, 2);
        let ghost head = res@;
        let ghost group = self@;
        let mut i: usize = 0;
        assert(group.take(0) =~= Seq::<EntryModel>::empty());
        assert(res@ =~= head + Seq::<u8>::empty());
        while i < n
            invariant
                i <= n,
                n == self.entries.len(),
                n <= MAX_GROUP_ENTRIES,
                group == self@,
                group == entry_models(self.entries@),
                head == le_bytes(n as nat, 2),
                entries_bytes(group.take(i as int), offsets@) is Ok,
                res@ == head + entries_bytes(group.take(i as int), offsets@)->Ok_0,
            decreases n - i,
        {
            proof {
                assert(group.take(i + 1).drop_last() =~= group.take(i as int));
                assert(group.take(i + 1).last() == self.entries@[i as int]@);
            }
            match self.entries[i].to_bytes(offsets) {
                Err(e) => {
                    proof {
                        assert(entry_bytes(group.take(i + 1).last(), offsets@) == Err::<
                            Seq<u8>,
                            EmitError,
                        >(e));
                        assert(entries_bytes(group.take(i + 1), offsets@) == Err::<
                            Seq<u8>,
                            EmitError,
                        >(e));
                        lemma_entries_error_stays(group, offsets@, i + 1);
                    }
                    return Err(e);
                },
                Ok(mut bytes) => {
                    res.append(&mut bytes);
                    assert(res@ =~= head + entries_bytes(group.take(i + 1), offsets@)->Ok_0);
                },
            }
            i = i + 1;
        }
        assert(group.take(i as int) =~= group);
        Ok(res)
    }
}

/// An error among the first entries is the error of the whole list.
pub proof fn lemma_entries_error_stays(
    entries: Seq<EntryModel>,
    offsets: Map<Seq<char>, nat>,
    n: int,
)
    requires
        0 <= n <= entries.len(),
        entries_bytes(entries.take(n), offsets) is Err,
    ensures
        entries_bytes(entries, offsets) == entries_bytes(entries.take(n), offsets),
    decreases entries.len() - n,
{
    if n < entries.len() {
        assert(entries.take(n + 1).drop_last() =~= entries.take(n));
        lemma_entries_error_stays(entries, offsets, n + 1);
    } else {
        assert(entries.take(n) =~= entries);
    }
}

/// The compiled dictionary in memory: the group of every final stroke. The
/// key of a group is the value of its stroke.
#[derive(Debug)]
pub struct Dict {
    pub entries: BTreeMap<u32, StrokeEntryList>,
}

impl View for Dict {
    type V = Map<u32, GroupModel>;

    open spec fn view(&self) -> Map<u32, GroupModel> {
        Map::new(|k: u32| self.entries@.contains_key(k), |k: u32| self.entries@[k]@)
    }
}

impl Dict {
    /// A dictionary without entries.
    pub fn new() -> (r: Self)
        ensures
            r@ == Map::<u32, GroupModel>::empty(),
    {
        let r = Dict { entries: BTreeMap::new() };
        assert(r@ =~= Map::<u32, GroupModel>::empty());
        r
    }

    /// Adds `entry` behind the entries whose final stroke is `stroke`.
    pub fn insert(&mut self, stroke: Stroke, entry: StrokeEntry)
        ensures
            final(self)@ == dict_with(old(self)@, stroke@, entry@),
    {
        broadcast use vstd::std_specs::btree::group_btree_axioms;

        proof {
            lemma_u32_keys();
        }
        let key = stroke.to_int();
        let mut group = match self.entries.remove(&key) {
            Some(group) => group,
            None => StrokeEntryList::empty(),
        };
        group.push(entry);
        self.entries.insert(key, group);
        assert(self@ =~= dict_with(old(self)@, stroke@, entry@));
    }

    /// The groups in ascending order of their strokes.
    fn sorted_groups(&self) -> (out: Vec<(u32, &StrokeEntryList)>)
        ensures
            out@.len() == ascending_keys(self@.dom()).len(),
            forall|i: int|
                0 <= i < out@.len() ==> (#[trigger] out@[i]).0 == ascending_keys(self@.dom())[i]
                    && self@.contains_key(out@[i].0) && out@[i].1@ == self@[out@[i].0],
    {
        broadcast use vstd::std_specs::btree::group_btree_axioms;

        proof {
            lemma_u32_keys();
        }
        let mut out: Vec<(u32, &StrokeEntryList)> = Vec::new();
        let walk = self.entries.iter();
        let ghost all = walk.remaining();
        let ghost keys = all.map_values(|kv: (&u32, &StrokeEntryList)| *kv.0);
        for kv in it: walk
            invariant
                it.seq() == all,
                out@.len() == it.index(),
                forall|i: int|
                    0 <= i < out@.len() ==> (#[trigger] out@[i]).0 == *all[i].0 && out@[i].1
                        == all[i].1,
        {
            let (key, group) = kv;
            out.push((*key, group));
        }
        proof {
            lemma_increasing_is_ascending(keys);
            assert forall|i: int| 0 <= i < keys.len() implies self@.dom().contains(
                #[trigger] keys[i],
            ) && keys[i] < 0x1_0000_0000 by {
                assert(self.entries@.contains_key(*all[i].0));
            }
            assert forall|k: u32| self@.dom().contains(k) && k < 0x1_0000_0000 implies keys.contains(
                k,
            ) by {
                let kv = (&k, &self.entries@[k]);
                assert(all.contains(kv));
                let i = choose|i: int| 0 <= i < all.len() && all[i] == kv;
                assert(keys[i] == k);
            }
            lemma_ascending_list_is(self@.dom(), 0x1_0000_0000, keys);
            assert forall|i: int| 0 <= i < out@.len() implies (#[trigger] out@[i]).0
                == ascending_keys(self@.dom())[i] && self@.contains_key(out@[i].0) && out@[i].1@
                == self@[out@[i].0] by {
                assert(keys[i] == *all[i].0);
                assert(self.entries@.contains_key(*all[i].0));
            }
        }
        out
    }
}

impl Dict {
    /// The pool of the output strings of all entries, added in ascending
    /// order of the strokes and then in the order of the entries.
    fn string_pool(groups: &Vec<(u32, &StrokeEntryList)>, Ghost(dict): Ghost<Map<u32, GroupModel>>) -> (pool:
        StringSectionBuilder)
        requires
            groups@.len() == ascending_keys(dict.dom()).len(),
            forall|i: int|
                0 <= i < groups@.len() ==> (#[trigger] groups@[i]).0 == ascending_keys(dict.dom())[i]
                    && groups@[i].1@ == dict[groups@[i].0],
        ensures
            pool@ == dict_pool(dict),
            pool.wf(),
    {
        let ghost keys = ascending_keys(dict.dom());
        let mut pool = StringSectionBuilder::new();
        let mut g: usize = 0;
        assert(keys.take(0) =~= Seq::<u32>::empty());
        while g < groups.len()
            invariant
                g <= groups.len(),
                keys == ascending_keys(dict.dom()),
                groups@.len() == keys.len(),
                forall|i: int|
                    0 <= i < groups@.len() ==> (#[trigger] groups@[i]).0 == keys[i]
                        && groups@[i].1@ == dict[groups@[i].0],
                pool@ == pool_of_groups(dict, keys.take(g as int)),
                pool.wf(),
            decreases groups.len() - g,
        {
            let list = groups[g].1;
            let ghost before = pool@;
            let ghost group = list@;
            let mut j: usize = 0;
            assert(group.take(0) =~= Seq::<EntryModel>::empty());
            while j < list.entries.len()
                invariant
                    j <= list.entries.len(),
                    group == list@,
                    group == entry_models(list.entries@),
                    pool@ == pool_with_entries(before, group.take(j as int)),
                    pool.wf(),
                decreases list.entries.len() - j,
            {
                proof {
                    assert(group.take(j + 1).drop_last() =~= group.take(j as int));
                    assert(group.take(j + 1).last() == list.entries@[j as int]@);
                }
                pool.add_string(list.entries[j].output());
                j = j + 1;
            }
            proof {
                assert(group.take(j as int) =~= group);
                assert(keys.take(g + 1).drop_last() =~= keys.take(g as int));
                assert(keys.take(g + 1).last() == groups@[g as int].0);
            }
            g = g + 1;
        }
        assert(keys.take(g as int) =~= keys);
        pool
    }

    /// Compiles the dictionary into its key section, value section and
    /// string section. The groups stand in ascending order of their
    /// strokes; a key record holds the stroke and the offset of its group
    /// in the value section. Fails when the dictionary outgrows a field of
    /// the compiled form, and never for want of a string's offset.
    pub fn to_sections(&self) -> (r: Result<(Vec<u8>, Vec<u8>, Vec<u8>), EmitError>)
        ensures
            emitted_sections(r) == sections_of(self@),
            r != Err::<(Vec<u8>, Vec<u8>, Vec<u8>), EmitError>(EmitError::LookupInvariantViolation),
    {
        let groups = self.sorted_groups();
        let ghost dict = self@;
        let ghost keys = ascending_keys(dict.dom());
        let pool = Self::string_pool(&groups, Ghost(dict));
        let (string_section, offsets) = pool.layout_strings();
        let mut key_section: Vec<u8> = Vec::new();
        let mut value_section: Vec<u8> = Vec::new();
        let mut g: usize = 0;
        assert(keys.take(0) =~= Seq::<u32>::empty());
        while g < groups.len()
            invariant
                g <= groups.len(),
                dict == self@,
                keys == ascending_keys(dict.dom()),
                groups@.len() == keys.len(),
                forall|i: int|
                    0 <= i < groups@.len() ==> (#[trigger] groups@[i]).0 == keys[i]
                        && dict.contains_key(groups@[i].0) && groups@[i].1@ == dict[groups@[i].0],
                offsets@ == offsets_of(dict_pool(dict)),
                key_value_sections(dict, keys.take(g as int), offsets@) == Ok::<
                    (Seq<u8>, Seq<u8>),
                    EmitError,
                >((key_section@, value_section@)),
            decreases groups.len() - g,
        {
            let key = groups[g].0;
            let list = groups[g].1;
            let offset = value_section.len();
            proof {
                assert(keys.take(g + 1).drop_last() =~= keys.take(g as int));
                assert(keys.take(g + 1).last() == key);
                assert forall|j: int| 0 <= j < list@.len() implies offsets@.contains_key(
                    (#[trigger] list@[j]).text,
                ) by {
                    lemma_pool_of_groups_holds(dict, keys, g as int, j);
                }
                lemma_entries_found(list@, offsets@);
            }
            if offset > MAX_VALUE_OFFSET {
                proof {
                    lemma_sections_error_stays(dict, keys, offsets@, g + 1);
                }
                return Err(EmitError::CapacityExceeded(CapacityLimit::ValueOffset));
            }
            match list.to_bytes(&offsets) {
                Err(e) => {
                    proof {
                        assert(group_bytes(list@, offsets@) == Err::<Seq<u8>, EmitError>(e));
                        lemma_sections_error_stays(dict, keys, offsets@, g + 1);
                    }
                    return Err(e);
                },
                Ok(mut bytes) => {
                    let stroke_bytes = Stroke(key).to_bytes();
                    let ghost keys_before = key_section@;
                    key_section.push(stroke_bytes[0]);
                    key_section.push(stroke_bytes[1]);
                    key_section.push(stroke_bytes[2]);
                    assert(key_section@ =~= keys_before + le_bytes(key as nat, 3));
                    append_le(&mut key_section, offset as u64, 4);
                    value_section.append(&mut bytes);
                },
            }
            g = g + 1;
        }
        assert(keys.take(g as int) =~= keys);
        Ok((key_section, value_section, string_section))
    }
}

impl Dict {
    /// Loads the raw pairs of chord text and output text, in order. A pair
    /// whose chord text does not parse, or whose output is no good text, is
    /// dropped. Any other becomes an entry without flags in the group of
    /// its last stroke.
    pub fn load(pairs: Vec<(String, String)>) -> (dict: Dict)
        ensures
            dict@ == loaded(pair_texts(pairs@)),
            has_valid_keys(dict@),
            has_no_empty_group(dict@),
    {
        proof {
            lemma_loaded_keys_valid(pair_texts(pairs@));
            lemma_loaded_groups_hold_entries(pair_texts(pairs@));
        }
        let ghost all = pair_texts(pairs@);
        let mut dict = Dict::new();
        assert(all.take(0) =~= Seq::<(Seq<char>, Seq<char>)>::empty());
        for pair in it: pairs.into_iter()
            invariant
                it.seq() == pairs@,
                all == pair_texts(pairs@),
                dict@ == loaded(all.take(it.index() as int)),
        {
            let ghost i = it.index() as int;
            let (chords, output) = pair;
            proof {
                assert(all.take(i + 1).drop_last() =~= all.take(i));
                assert(all.take(i + 1).last() == (chords@, output@));
                lemma_parse_sequence_valid(chords@);
            }
            match Stroke::convert_str_to_stroke_vec(chords.as_str()) {
                None => {},
                Some(mut strokes) => {
                    let ghost parsed = stroke_values(strokes@);
                    match StrokeStringOutput::new(output) {
                        None => {},
                        Some(text) => {
                            let last = strokes.pop().unwrap();
                            assert(stroke_values(strokes@) =~= parsed.drop_last());
                            dict.insert(last, StrokeEntry::new(strokes, text, EntryFlags::new()));
                        },
                    }
                },
            }
        }
        assert(all.take(pairs@.len() as int) =~= all);
        dict
    }
}

/// Why a raw dictionary cannot be loaded.
#[derive(Copy, Clone, Debug, PartialEq, Eq, Structural)]
pub enum LoadError {
    /// The text is not a JSON object of strings.
    InvalidJson,
}

impl From<serde_json::Error> for LoadError {
    fn from(e: serde_json::Error) -> (r: LoadError) {
        LoadError::InvalidJson
    }
}

impl vstd::std_specs::convert::FromSpecImpl<serde_json::Error> for LoadError {
    open spec fn obeys_from_spec() -> bool {
        true
    }

    open spec fn from_spec(e: serde_json::Error) -> LoadError {
        LoadError::InvalidJson
    }
}

/// The pairs whose chord text parses, each with its strokes, in order.
pub fn keep_parsable(pairs: Vec<(String, String)>) -> (kept: Vec<(Vec<Stroke>, String)>)
    ensures
        kept@.map_values(|p: (Vec<Stroke>, String)| (stroke_values(p.0@), p.1@)) == parsable(
            pair_texts(pairs@),
        ),
{
    let ghost all = pair_texts(pairs@);
    let ghost view = |p: (Vec<Stroke>, String)| (stroke_values(p.0@), p.1@);
    let mut kept: Vec<(Vec<Stroke>, String)> = Vec::new();
    assert(all.take(0) =~= Seq::<(Seq<char>, Seq<char>)>::empty());
    assert(kept@.map_values(view) =~= parsable(all.take(0)));
    for pair in it: pairs.into_iter()
        invariant
            it.seq() == pairs@,
            all == pair_texts(pairs@),
            view == |p: (Vec<Stroke>, String)| (stroke_values(p.0@), p.1@),
            kept@.map_values(view) == parsable(all.take(it.index() as int)),
    {
        let ghost i = it.index() as int;
        let ghost before = kept@.map_values(view);
        let (chords, output) = pair;
        proof {
            assert(all.take(i + 1).drop_last() =~= all.take(i));
            assert(all.take(i + 1).last() == (chords@, output@));
        }
        match Stroke::convert_str_to_stroke_vec(chords.as_str()) {
            None => {},
            Some(strokes) => {
                kept.push((strokes, output));
                assert(kept@.map_values(view) =~= before.push((stroke_values(strokes@), output@)));
            },
        }
    }
    assert(all.take(pairs@.len() as int) =~= all);
    kept
}

/// Reads the raw dictionary `text`, a JSON object that maps chord text to
/// output text, and keeps the members whose chord text parses.
pub fn load_dictionary_as_hashmap(text: &str) -> (r: Result<Vec<(Vec<Stroke>, String)>, LoadError>)
    ensures
        match r {
            Ok(kept) => json_object_pairs(text@) matches Some(pairs) && kept@.map_values(
                |p: (Vec<Stroke>, String)| (stroke_values(p.0@), p.1@),
            ) == parsable(pairs),
            Err(e) => json_object_pairs(text@) is None && e == LoadError::InvalidJson,
        },
{
    match parse_json_object(text) {
        Ok(pairs) => Ok(keep_parsable(pairs)),
        Err(e) => Err(LoadError::from(e)),
    }
}

/// Reads the raw dictionary `text`, a JSON object that maps chord text to
/// output text, and loads its members in ascending order of the chord
/// text.
pub fn generate_dictionary(text: &str) -> (r: Result<Dict, LoadError>)
    ensures
        match r {
            Ok(dict) => json_object_pairs(text@) matches Some(pairs) && dict@ == loaded(pairs)
                && has_valid_keys(dict@) && has_no_empty_group(dict@),
            Err(e) => json_object_pairs(text@) is None && e == LoadError::InvalidJson,
        },
{
    match parse_json_object(text) {
        Ok(pairs) => Ok(Dict::load(pairs)),
        Err(e) => Err(LoadError::from(e)),
    }
}

} // verus!
