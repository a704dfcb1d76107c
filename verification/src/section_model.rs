//! What the dictionary compiles to, stated over plain values: the bytes of
//! an entry, of a group, and of the key and value sections.
use crate::ascending::ascending_keys;
use crate::encoding::le_bytes;
use crate::dict::is_good_text;
use crate::pool_model::{offsets_of, pool_with, section_of};
use crate::stroke::parse_sequence;
use vstd::prelude::*;

verus! {

/// A fixed-width field of the compiled form that an input can outgrow.
#[derive(Copy, Clone, Debug, PartialEq, Eq, Structural)]
pub enum CapacityLimit {
    /// A group holds at most 65535 entries.
    GroupEntries,
    /// An entry holds at most 255 previous strokes.
    PrevStrokes,
    /// A string offset is below 2^24.
    StringOffset,
    /// A group starts below 2^32 in the value section.
    ValueOffset,
}

/// Why a dictionary cannot be compiled.
#[derive(Copy, Clone, Debug, PartialEq, Eq, Structural)]
pub enum EmitError {
    /// The input outgrows the named field.
    CapacityExceeded(CapacityLimit),
    /// An output string has no offset in the string section.
    LookupInvariantViolation,
}

/// What an entry says: the strokes before the final one, the output text,
/// and the flag bits.
pub struct EntryModel {
    pub prev: Seq<u32>,
    pub text: Seq<char>,
    pub flags: u8,
}

/// A group: the entries that share a final stroke, in the order in which
/// they were loaded.
pub type GroupModel = Seq<EntryModel>;

/// The largest number of previous strokes of an entry.
pub const MAX_PREV_STROKES: usize = 255;

/// The largest number of entries of a group.
pub const MAX_GROUP_ENTRIES: usize = 65535;

/// The first string offset that does not fit in three bytes.
pub const STRING_OFFSET_LIMIT: usize = 0x0100_0000;

/// The largest offset into the value section.
pub const MAX_VALUE_OFFSET: usize = 0xFFFF_FFFF;

/// The outcome of an emitting function, with the bytes as a sequence.
pub open spec fn emitted(r: Result<Vec<u8>, EmitError>) -> Result<Seq<u8>, EmitError> {
    match r {
        Ok(bytes) => Ok(bytes@),
        Err(e) => Err(e),
    }
}

/// The outcome of compiling a dictionary, with the sections as sequences.
pub open spec fn emitted_sections(r: Result<(Vec<u8>, Vec<u8>, Vec<u8>), EmitError>) -> Result<
    (Seq<u8>, Seq<u8>, Seq<u8>),
    EmitError,
> {
    match r {
        Ok((key_section, value_section, string_section)) => Ok(
            (key_section@, value_section@, string_section@),
        ),
        Err(e) => Err(e),
    }
}

/// The compact forms of the strokes, one after the other.
pub open spec fn strokes_bytes(strokes: Seq<u32>) -> Seq<u8>
    decreases strokes.len(),
{
    if strokes.len() == 0 {
        Seq::empty()
    } else {
        strokes_bytes(strokes.drop_last()) + le_bytes(strokes.last() as nat, 3)
    }
}

/// The bytes of an entry: the number of previous strokes, those strokes,
/// the flags, and the offset of the output string.
pub open spec fn entry_bytes(e: EntryModel, offsets: Map<Seq<char>, nat>) -> Result<
    Seq<u8>,
    EmitError,
> {
    if e.prev.len() > MAX_PREV_STROKES {
        Err(EmitError::CapacityExceeded(CapacityLimit::PrevStrokes))
    } else if !offsets.contains_key(e.text) {
        Err(EmitError::LookupInvariantViolation)
    } else if offsets[e.text] >= STRING_OFFSET_LIMIT {
        Err(EmitError::CapacityExceeded(CapacityLimit::StringOffset))
    } else {
        Ok(
            seq![e.prev.len() as u8] + strokes_bytes(e.prev) + seq![e.flags] + le_bytes(
                offsets[e.text],
                3,
            ),
        )
    }
}

/// The bytes of the entries, one after the other; the error of the first
/// entry that has one.
pub open spec fn entries_bytes(entries: Seq<EntryModel>, offsets: Map<Seq<char>, nat>) -> Result<
    Seq<u8>,
    EmitError,
>
    decreases entries.len(),
{
    if entries.len() == 0 {
        Ok(Seq::empty())
    } else {
        match entries_bytes(entries.drop_last(), offsets) {
            Err(e) => Err(e),
            Ok(front) => match entry_bytes(entries.last(), offsets) {
                Err(e) => Err(e),
                Ok(last) => Ok(front + last),
            },
        }
    }
}

/// The bytes of a group: the number of its entries, and the entries.
pub open spec fn group_bytes(group: GroupModel, offsets: Map<Seq<char>, nat>) -> Result<
    Seq<u8>,
    EmitError,
> {
    if group.len() > MAX_GROUP_ENTRIES {
        Err(EmitError::CapacityExceeded(CapacityLimit::GroupEntries))
    } else {
        match entries_bytes(group, offsets) {
            Err(e) => Err(e),
            Ok(bytes) => Ok(le_bytes(group.len(), 2) + bytes),
        }
    }
}

/// The key section and the value section of the groups `keys`, in that
/// order: a key record holds the stroke and where its group starts in the
/// value section.
pub open spec fn key_value_sections(
    dict: Map<u32, GroupModel>,
    keys: Seq<u32>,
    offsets: Map<Seq<char>, nat>,
) -> Result<(Seq<u8>, Seq<u8>), EmitError>
    decreases keys.len(),
{
    if keys.len() == 0 {
        Ok((Seq::empty(), Seq::empty()))
    } else {
        match key_value_sections(dict, keys.drop_last(), offsets) {
            Err(e) => Err(e),
            Ok((key_section, value_section)) => if value_section.len() > MAX_VALUE_OFFSET {
                Err(EmitError::CapacityExceeded(CapacityLimit::ValueOffset))
            } else {
                match group_bytes(dict[keys.last()], offsets) {
                    Err(e) => Err(e),
                    Ok(group) => Ok(
                        (
                            key_section + le_bytes(keys.last() as nat, 3) + le_bytes(
                                value_section.len(),
                                4,
                            ),
                            value_section + group,
                        ),
                    ),
                }
            },
        }
    }
}

/// The group of the stroke `key`: empty if the dictionary has none.
pub open spec fn group_of(dict: Map<u32, GroupModel>, key: u32) -> GroupModel {
    if dict.contains_key(key) {
        dict[key]
    } else {
        Seq::empty()
    }
}

/// The dictionary after `entry` is added behind the entries of the stroke
/// `key`.
pub open spec fn dict_with(dict: Map<u32, GroupModel>, key: u32, entry: EntryModel) -> Map<
    u32,
    GroupModel,
> {
    dict.insert(key, group_of(dict, key).push(entry))
}

/// The pool after the output strings of `entries` are added to it, in
/// order.
pub open spec fn pool_with_entries(pool: Seq<Seq<char>>, entries: Seq<EntryModel>) -> Seq<
    Seq<char>,
>
    decreases entries.len(),
{
    if entries.len() == 0 {
        pool
    } else {
        pool_with(pool_with_entries(pool, entries.drop_last()), entries.last().text)
    }
}

/// The pool of the output strings of the groups `keys`, added group by
/// group.
pub open spec fn pool_of_groups(dict: Map<u32, GroupModel>, keys: Seq<u32>) -> Seq<Seq<char>>
    decreases keys.len(),
{
    if keys.len() == 0 {
        Seq::empty()
    } else {
        pool_with_entries(pool_of_groups(dict, keys.drop_last()), dict[keys.last()])
    }
}

/// The string pool of a dictionary: its output strings, taken in ascending
/// order of the strokes and then in the order of the entries.
pub open spec fn dict_pool(dict: Map<u32, GroupModel>) -> Seq<Seq<char>> {
    pool_of_groups(dict, ascending_keys(dict.dom()))
}

/// The three sections that a dictionary compiles to: keys, values, strings.
pub open spec fn sections_of(dict: Map<u32, GroupModel>) -> Result<
    (Seq<u8>, Seq<u8>, Seq<u8>),
    EmitError,
> {
    let pool = dict_pool(dict);
    match key_value_sections(dict, ascending_keys(dict.dom()), offsets_of(pool)) {
        Err(e) => Err(e),
        Ok((key_section, value_section)) => Ok((key_section, value_section, section_of(pool))),
    }
}

/// The dictionary after one raw pair is loaded: the pair is dropped if its
/// chord text does not parse or its output is no good text; else its last
/// stroke names the group that gets a new entry, which holds the strokes
/// before the last, the output, and no flag.
pub open spec fn dict_with_pair(dict: Map<u32, GroupModel>, chords: Seq<char>, output: Seq<char>) -> Map<
    u32,
    GroupModel,
> {
    match parse_sequence(chords) {
        None => dict,
        Some(strokes) => if is_good_text(output) {
            dict_with(
                dict,
                strokes.last(),
                EntryModel { prev: strokes.drop_last(), text: output, flags: 0 },
            )
        } else {
            dict
        },
    }
}

/// The dictionary that the raw pairs load to, taken in order.
pub open spec fn loaded(pairs: Seq<(Seq<char>, Seq<char>)>) -> Map<u32, GroupModel>
    decreases pairs.len(),
{
    if pairs.len() == 0 {
        Map::empty()
    } else {
        dict_with_pair(loaded(pairs.drop_last()), pairs.last().0, pairs.last().1)
    }
}

/// The raw pairs whose chord text parses, each with its strokes.
pub open spec fn parsable(pairs: Seq<(Seq<char>, Seq<char>)>) -> Seq<(Seq<u32>, Seq<char>)>
    decreases pairs.len(),
{
    if pairs.len() == 0 {
        Seq::empty()
    } else {
        let front = parsable(pairs.drop_last());
        match parse_sequence(pairs.last().0) {
            None => front,
            Some(strokes) => front.push((strokes, pairs.last().1)),
        }
    }
}

} // verus!
