//! What holds of the sections of every dictionary.
use crate::ascending::{ascending_keys, lemma_keys_below};
use crate::dict::is_good_text;
use crate::encoding::{le_bytes, le_limit, le_value, lemma_le_bytes_len, lemma_le_round_trip};
use crate::section_model::{
    dict_pool, dict_with, entries_bytes, group_bytes, key_value_sections, loaded, pool_of_groups,
    pool_with_entries, sections_of, EmitError, EntryModel, GroupModel,
};
use crate::pool_model::{offsets_of, pool_with};
use crate::stroke::{lemma_parse_sequence_valid, parse_sequence, Stroke, UNUSED_MASK};
use vstd::prelude::*;

verus! {

/// Adding a string to a pool keeps the strings that the pool holds.
pub proof fn lemma_pool_with_holds(pool: Seq<Seq<char>>, s: Seq<char>, t: Seq<char>)
    ensures
        pool_with(pool, s).contains(t) <==> (t == s || pool.contains(t)),
{
    let out = pool_with(pool, s);
    if !pool.contains(s) {
        assert(out[pool.len() as int] == s);
        if pool.contains(t) {
            let i = choose|i: int| 0 <= i < pool.len() && pool[i] == t;
            assert(out[i] == t);
        }
        if out.contains(t) {
            let i = choose|i: int| 0 <= i < out.len() && out[i] == t;
            if i < pool.len() {
                assert(pool[i] == t);
            }
        }
    }
}

/// The pool of some entries holds the output string of each of them, and
/// what the pool held before.
pub proof fn lemma_pool_with_entries_holds(
    pool: Seq<Seq<char>>,
    entries: Seq<EntryModel>,
    t: Seq<char>,
)
    ensures
        pool_with_entries(pool, entries).contains(t) <==> (pool.contains(t) || exists|j: int|
            0 <= j < entries.len() && (#[trigger] entries[j]).text == t),
    decreases entries.len(),
{
    if entries.len() > 0 {
        let front = entries.drop_last();
        lemma_pool_with_entries_holds(pool, front, t);
        lemma_pool_with_holds(pool_with_entries(pool, front), entries.last().text, t);
        if exists|j: int| 0 <= j < front.len() && (#[trigger] front[j]).text == t {
            let j = choose|j: int| 0 <= j < front.len() && (#[trigger] front[j]).text == t;
            assert(entries[j].text == t);
        }
        if exists|j: int| 0 <= j < entries.len() && (#[trigger] entries[j]).text == t {
            let j = choose|j: int| 0 <= j < entries.len() && (#[trigger] entries[j]).text == t;
            if j < front.len() {
                assert(front[j].text == t);
            }
        }
    }
}

/// The pool of some groups holds the output string of every entry of each
/// of them.
pub proof fn lemma_pool_of_groups_holds(
    dict: Map<u32, GroupModel>,
    keys: Seq<u32>,
    i: int,
    j: int,
)
    requires
        0 <= i < keys.len(),
        0 <= j < dict[keys[i]].len(),
    ensures
        pool_of_groups(dict, keys).contains(dict[keys[i]][j].text),
    decreases keys.len(),
{
    let t = dict[keys[i]][j].text;
    let before = pool_of_groups(dict, keys.drop_last());
    lemma_pool_with_entries_holds(before, dict[keys.last()], t);
    if i < keys.len() - 1 {
        lemma_pool_of_groups_holds(dict, keys.drop_last(), i, j);
    } else {
        assert(dict[keys.last()][j].text == t);
    }
}

/// Entries whose output strings all have an offset are emitted without a
/// lookup failure.
pub proof fn lemma_entries_found(entries: Seq<EntryModel>, offsets: Map<Seq<char>, nat>)
    requires
        forall|j: int| 0 <= j < entries.len() ==> offsets.contains_key((#[trigger] entries[j]).text),
    ensures
        entries_bytes(entries, offsets) != Err::<Seq<u8>, EmitError>(
            EmitError::LookupInvariantViolation,
        ),
        group_bytes(entries, offsets) != Err::<Seq<u8>, EmitError>(
            EmitError::LookupInvariantViolation,
        ),
    decreases entries.len(),
{
    if entries.len() > 0 {
        let front = entries.drop_last();
        assert forall|j: int| 0 <= j < front.len() implies offsets.contains_key(
            (#[trigger] front[j]).text,
        ) by {
            assert(front[j] == entries[j]);
        }
        lemma_entries_found(front, offsets);
        assert(offsets.contains_key(entries[entries.len() - 1].text));
    }
}

/// An error among the first groups is the error of the whole.
pub proof fn lemma_sections_error_stays(
    dict: Map<u32, GroupModel>,
    keys: Seq<u32>,
    offsets: Map<Seq<char>, nat>,
    n: int,
)
    requires
        0 <= n <= keys.len(),
        key_value_sections(dict, keys.take(n), offsets) is Err,
    ensures
        key_value_sections(dict, keys, offsets) == key_value_sections(dict, keys.take(n), offsets),
    decreases keys.len() - n,
{
    if n < keys.len() {
        assert(keys.take(n + 1).drop_last() =~= keys.take(n));
        lemma_sections_error_stays(dict, keys, offsets, n + 1);
    } else {
        assert(keys.take(n) =~= keys);
    }
}

/// The number of bytes of a key record: a stroke and an offset.
pub const KEY_RECORD_LEN: usize = 7;

/// The stroke of the key record with index `i`.
pub open spec fn key_record_stroke(key_section: Seq<u8>, i: int) -> nat {
    le_value(key_section.subrange(KEY_RECORD_LEN * i, KEY_RECORD_LEN * i + 3))
}

/// The offset into the value section of the key record with index `i`.
pub open spec fn key_record_offset(key_section: Seq<u8>, i: int) -> nat {
    le_value(key_section.subrange(KEY_RECORD_LEN * i + 3, KEY_RECORD_LEN * i + 7))
}

/// Whether every stroke that has a group is valid.
pub open spec fn has_valid_keys(dict: Map<u32, GroupModel>) -> bool {
    forall|k: u32| dict.contains_key(k) ==> #[trigger] Stroke(k).is_valid()
}

/// The key section holds one record for each group; each record holds the
/// stroke of its group and the place in the value section where the bytes
/// of the group stand.
pub proof fn lemma_key_records(
    dict: Map<u32, GroupModel>,
    keys: Seq<u32>,
    offsets: Map<Seq<char>, nat>,
    i: int,
)
    requires
        key_value_sections(dict, keys, offsets) is Ok,
        0 <= i < keys.len(),
        forall|j: int| 0 <= j < keys.len() ==> #[trigger] Stroke(keys[j]).is_valid(),
    ensures
        ({
            let (key_section, value_section) = key_value_sections(dict, keys, offsets)->Ok_0;
            let start = key_record_offset(key_section, i);
            let group = group_bytes(dict[keys[i]], offsets);
            &&& key_section.len() == KEY_RECORD_LEN * keys.len()
            &&& key_record_stroke(key_section, i) == keys[i]
            &&& group is Ok
            &&& start + group->Ok_0.len() <= value_section.len()
            &&& value_section.subrange(start as int, (start + group->Ok_0.len()) as int)
                == group->Ok_0
        }),
    decreases keys.len(),
{
    let front = keys.drop_last();
    let (front_keys, front_values) = key_value_sections(dict, front, offsets)->Ok_0;
    let (key_section, value_section) = key_value_sections(dict, keys, offsets)->Ok_0;
    let last = keys.last();
    let group = group_bytes(dict[last], offsets)->Ok_0;
    assert forall|j: int| 0 <= j < front.len() implies #[trigger] Stroke(front[j]).is_valid() by {
        assert(Stroke(keys[j]).is_valid());
    }
    lemma_key_section_len(dict, front, offsets);
    lemma_le_bytes_len(last as nat, 3);
    lemma_le_bytes_len(front_values.len(), 4);
    if i < keys.len() - 1 {
        lemma_key_records(dict, front, offsets, i);
        let start = key_record_offset(front_keys, i);
        let g = group_bytes(dict[keys[i]], offsets)->Ok_0;
        assert(front[i] == keys[i]);
        assert(key_section.subrange(KEY_RECORD_LEN * i, KEY_RECORD_LEN * i + 3)
            =~= front_keys.subrange(KEY_RECORD_LEN * i, KEY_RECORD_LEN * i + 3));
        assert(key_section.subrange(KEY_RECORD_LEN * i + 3, KEY_RECORD_LEN * i + 7)
            =~= front_keys.subrange(KEY_RECORD_LEN * i + 3, KEY_RECORD_LEN * i + 7));
        assert(value_section.subrange(start as int, (start + g.len()) as int)
            =~= front_values.subrange(start as int, (start + g.len()) as int));
    } else {
        assert(key_section.subrange(KEY_RECORD_LEN * i, KEY_RECORD_LEN * i + 3) =~= le_bytes(
            last as nat,
            3,
        ));
        assert(key_section.subrange(KEY_RECORD_LEN * i + 3, KEY_RECORD_LEN * i + 7) =~= le_bytes(
            front_values.len(),
            4,
        ));
        assert(Stroke(keys[i]).is_valid());
        lemma_valid_stroke_fits(last);
        assert(le_limit(3) == 0x0100_0000 && le_limit(4) == 0x1_0000_0000) by {
            reveal_with_fuel(le_limit, 5);
        }
        lemma_le_round_trip(last as nat, 3);
        lemma_le_round_trip(front_values.len(), 4);
        assert(value_section.subrange(
            front_values.len() as int,
            (front_values.len() + group.len()) as int,
        ) =~= group);
    }
}

/// The key section holds seven bytes for each group.
pub proof fn lemma_key_section_len(
    dict: Map<u32, GroupModel>,
    keys: Seq<u32>,
    offsets: Map<Seq<char>, nat>,
)
    requires
        key_value_sections(dict, keys, offsets) is Ok,
    ensures
        key_value_sections(dict, keys, offsets)->Ok_0.0.len() == KEY_RECORD_LEN * keys.len(),
    decreases keys.len(),
{
    if keys.len() > 0 {
        let front = keys.drop_last();
        let front_values = key_value_sections(dict, front, offsets)->Ok_0.1;
        lemma_key_section_len(dict, front, offsets);
        lemma_le_bytes_len(keys.last() as nat, 3);
        lemma_le_bytes_len(front_values.len(), 4);
    }
}

/// A valid stroke fits in three bytes.
pub proof fn lemma_valid_stroke_fits(v: u32)
    requires
        Stroke(v).is_valid(),
    ensures
        v < 0x0080_0000,
{
    assert(v < 0x0080_0000) by (bit_vector)
        requires
            v & 0xFF80_0000u32 == 0,
    ;
}

/// Ordering of the key section: when every stroke is valid, the key
/// records of a compiled dictionary hold the strokes that have a group,
/// each once, in strictly ascending order.
pub proof fn lemma_key_section_ascending(dict: Map<u32, GroupModel>)
    requires
        sections_of(dict) is Ok,
        has_valid_keys(dict),
    ensures
        ({
            let key_section = sections_of(dict)->Ok_0.0;
            let keys = ascending_keys(dict.dom());
            &&& key_section.len() == KEY_RECORD_LEN * keys.len()
            &&& forall|i: int|
                0 <= i < keys.len() ==> #[trigger] key_record_stroke(key_section, i) == keys[i]
                    && dict.contains_key(keys[i])
            &&& forall|k: u32| dict.contains_key(k) ==> keys.contains(k)
            &&& forall|i: int, j: int|
                0 <= i < j < keys.len() ==> key_record_stroke(key_section, i) < key_record_stroke(
                    key_section,
                    j,
                )
        }),
{
    let keys = ascending_keys(dict.dom());
    let offsets = offsets_of(dict_pool(dict));
    let key_section = sections_of(dict)->Ok_0.0;
    lemma_keys_below(dict.dom(), 0x1_0000_0000);
    lemma_key_section_len(dict, keys, offsets);
    assert forall|j: int| 0 <= j < keys.len() implies #[trigger] Stroke(keys[j]).is_valid() by {
        assert(dict.dom().contains(keys[j]));
    }
    assert forall|i: int| 0 <= i < keys.len() implies #[trigger] key_record_stroke(key_section, i)
        == keys[i] && dict.contains_key(keys[i]) by {
        lemma_key_records(dict, keys, offsets, i);
        assert(dict.dom().contains(keys[i]));
    }
    assert forall|i: int, j: int| 0 <= i < j < keys.len() implies key_record_stroke(key_section, i)
        < key_record_stroke(key_section, j) by {
        assert(key_record_stroke(key_section, i) == keys[i]);
        assert(key_record_stroke(key_section, j) == keys[j]);
    }
}

/// Drop on malformed: a pair whose chord text does not parse, or whose
/// output is no good text, leaves no trace, wherever it stands among the
/// pairs.
pub proof fn lemma_malformed_pair_is_dropped(pairs: Seq<(Seq<char>, Seq<char>)>, i: int)
    requires
        0 <= i < pairs.len(),
        parse_sequence(pairs[i].0) is None || !is_good_text(pairs[i].1),
    ensures
        loaded(pairs) == loaded(pairs.remove(i)),
    decreases pairs.len(),
{
    let front = pairs.drop_last();
    if i == pairs.len() - 1 {
        assert(pairs.remove(i) =~= front);
    } else {
        lemma_malformed_pair_is_dropped(front, i);
        assert(pairs.remove(i).drop_last() =~= front.remove(i));
        assert(pairs.remove(i).last() == pairs.last());
    }
}

/// The number of entries in the groups of the strokes below `bound`.
pub open spec fn entries_below(dict: Map<u32, GroupModel>, bound: nat) -> nat
    decreases bound,
{
    if bound == 0 {
        0
    } else if bound - 1 <= u32::MAX && dict.contains_key((bound - 1) as u32) {
        entries_below(dict, (bound - 1) as nat) + dict[(bound - 1) as u32].len()
    } else {
        entries_below(dict, (bound - 1) as nat)
    }
}

/// The number of entries of a dictionary.
pub open spec fn entry_count(dict: Map<u32, GroupModel>) -> nat {
    entries_below(dict, 0x1_0000_0000)
}

/// The number of pairs that load to an entry: those whose chord text
/// parses and whose output is a good text.
pub open spec fn well_formed_pairs(pairs: Seq<(Seq<char>, Seq<char>)>) -> nat
    decreases pairs.len(),
{
    if pairs.len() == 0 {
        0
    } else if parse_sequence(pairs.last().0) is Some && is_good_text(pairs.last().1) {
        well_formed_pairs(pairs.drop_last()) + 1
    } else {
        well_formed_pairs(pairs.drop_last())
    }
}

/// One more entry is counted below every bound above its stroke.
pub proof fn lemma_entries_below_with(
    dict: Map<u32, GroupModel>,
    key: u32,
    entry: EntryModel,
    bound: nat,
)
    ensures
        entries_below(dict_with(dict, key, entry), bound) == entries_below(dict, bound) + (if key
            < bound {
            1nat
        } else {
            0nat
        }),
    decreases bound,
{
    if bound > 0 {
        lemma_entries_below_with(dict, key, entry, (bound - 1) as nat);
    }
}

/// A load yields one entry for each well-formed pair, and none for any
/// other.
pub proof fn lemma_loaded_entry_count(pairs: Seq<(Seq<char>, Seq<char>)>)
    ensures
        entry_count(loaded(pairs)) == well_formed_pairs(pairs),
    decreases pairs.len(),
{
    if pairs.len() > 0 {
        let front = pairs.drop_last();
        lemma_loaded_entry_count(front);
        let last = pairs.last();
        if parse_sequence(last.0) is Some && is_good_text(last.1) {
            let strokes = parse_sequence(last.0)->0;
            lemma_entries_below_with(
                loaded(front),
                strokes.last(),
                EntryModel { prev: strokes.drop_last(), text: last.1, flags: 0 },
                0x1_0000_0000,
            );
        }
    } else {
        lemma_no_entries(0x1_0000_0000);
    }
}

/// The empty dictionary has no entries.
pub proof fn lemma_no_entries(bound: nat)
    ensures
        entries_below(Map::<u32, GroupModel>::empty(), bound) == 0,
    decreases bound,
{
    if bound > 0 {
        lemma_no_entries((bound - 1) as nat);
    }
}

/// Every stroke of a loaded dictionary is valid.
pub proof fn lemma_loaded_keys_valid(pairs: Seq<(Seq<char>, Seq<char>)>)
    ensures
        has_valid_keys(loaded(pairs)),
    decreases pairs.len(),
{
    if pairs.len() > 0 {
        lemma_loaded_keys_valid(pairs.drop_last());
        lemma_parse_sequence_valid(pairs.last().0);
        let dict = loaded(pairs);
        let before = loaded(pairs.drop_last());
        assert forall|k: u32| dict.contains_key(k) implies #[trigger] Stroke(k).is_valid() by {
            if !before.contains_key(k) {
                let strokes = parse_sequence(pairs.last().0)->0;
                assert(k == strokes[strokes.len() - 1]);
                assert(strokes[strokes.len() - 1] & UNUSED_MASK == 0);
            } else {
                assert(Stroke(k).is_valid());
            }
        }
    }
}

/// Whether every group holds an entry.
pub open spec fn has_no_empty_group(dict: Map<u32, GroupModel>) -> bool {
    forall|k: u32| dict.contains_key(k) ==> (#[trigger] dict[k]).len() > 0
}

/// Adding an entry leaves no group empty.
pub proof fn lemma_dict_with_keeps_groups(dict: Map<u32, GroupModel>, key: u32, entry: EntryModel)
    requires
        has_no_empty_group(dict),
    ensures
        has_no_empty_group(dict_with(dict, key, entry)),
{
    let after = dict_with(dict, key, entry);
    assert forall|k: u32| after.contains_key(k) implies (#[trigger] after[k]).len() > 0 by {
        if k != key {
            assert(dict[k].len() > 0);
        }
    }
}

/// Every group of a loaded dictionary holds an entry.
pub proof fn lemma_loaded_groups_hold_entries(pairs: Seq<(Seq<char>, Seq<char>)>)
    ensures
        has_no_empty_group(loaded(pairs)),
    decreases pairs.len(),
{
    if pairs.len() > 0 {
        let last = pairs.last();
        lemma_loaded_groups_hold_entries(pairs.drop_last());
        if parse_sequence(last.0) is Some && is_good_text(last.1) {
            let strokes = parse_sequence(last.0)->0;
            lemma_dict_with_keeps_groups(
                loaded(pairs.drop_last()),
                strokes.last(),
                EntryModel { prev: strokes.drop_last(), text: last.1, flags: 0 },
            );
        }
    }
}

} // verus!
