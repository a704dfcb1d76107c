use steno_dict::dict::{
    generate_dictionary, is_good_string, keep_parsable, load_dictionary_as_hashmap, Dict,
    EntryFlag, EntryFlags, LoadError, StrokeEntry, StrokeEntryList, StrokeStringOutput,
};
use steno_dict::encoding::append_le;
use steno_dict::section_model::{CapacityLimit, EmitError};
use steno_dict::string_section_builder::StringOffsets;
use steno_dict::stroke::Stroke;

fn entry(prev: &[u32], text: &str) -> StrokeEntry {
    let prev = prev.iter().map(|v| Stroke(*v)).collect();
    StrokeEntry::new(prev, StrokeStringOutput::new(text.to_string()).unwrap(), EntryFlags::new())
}

fn pairs(raw: &[(&str, &str)]) -> Vec<(String, String)> {
    raw.iter().map(|(k, v)| (k.to_string(), v.to_string())).collect()
}

fn count_entries(dict: &Dict) -> usize {
    dict.entries.values().map(|g| g.len()).sum()
}

#[test]
fn good_strings() {
    assert!(is_good_string(""));
    assert!(is_good_string("hello World"));
    assert!(is_good_string("a\tb\nc\rd\x0be\x0cf"));
    assert!(!is_good_string("it's"));
    assert!(!is_good_string("abc1"));
    assert!(!is_good_string("caf\u{e9}"));
    assert!(!is_good_string("a\u{a0}b"));
    assert!(!is_good_string("a\0b"));
    assert!(!is_good_string("{^ing}"));
    assert!(is_good_string("AZaz"));
    assert!(!is_good_string("@"));
    assert!(!is_good_string("["));
    assert!(!is_good_string("`"));
    assert!(!is_good_string("{"));
}

#[test]
fn flag_bits() {
    assert_eq!(EntryFlag::IsPrefix.to_bits(), 1);
    assert_eq!(EntryFlag::IsSuffix.to_bits(), 2);
    assert_eq!(EntryFlag::DoCapitalize.to_bits(), 4);
    assert_eq!(EntryFlag::DoNotCapitalize.to_bits(), 8);
}

#[test]
fn flags_are_set_and_unset() {
    let mut flags = EntryFlags::new();
    assert_eq!(flags.to_byte(), 0);
    flags.set(EntryFlag::IsSuffix);
    flags.set(EntryFlag::DoNotCapitalize);
    assert_eq!(flags.to_byte(), 0b1010);
    flags.set(EntryFlag::IsSuffix);
    assert_eq!(flags.to_byte(), 0b1010);
    flags.unset(EntryFlag::IsPrefix);
    assert_eq!(flags.to_byte(), 0b1010);
    flags.unset(EntryFlag::IsSuffix);
    assert_eq!(flags.to_byte(), 0b1000);
    flags.set(EntryFlag::IsPrefix);
    flags.set(EntryFlag::DoCapitalize);
    assert_eq!(flags.to_byte(), 0b1101);
}

#[test]
fn output_string_bytes() {
    let out = StrokeStringOutput::new("run".to_string()).unwrap();
    assert_eq!(out.to_bytes(), vec![b'r', b'u', b'n', 0]);
    assert_eq!(out.as_str(), "run");
    assert_eq!(StrokeStringOutput::new(String::new()).unwrap().to_bytes(), vec![0]);
    assert!(StrokeStringOutput::new("r2".to_string()).is_none());
}

#[test]
fn entry_bytes() {
    let mut offsets = StringOffsets::new();
    offsets.insert("fun", 0x0012_3456);
    let mut flags = EntryFlags::new();
    flags.set(EntryFlag::DoCapitalize);
    let e = StrokeEntry::new(
        vec![Stroke(4), Stroke(0x0040_0102)],
        StrokeStringOutput::new("fun".to_string()).unwrap(),
        flags,
    );
    assert_eq!(e.output(), "fun");
    assert_eq!(
        e.to_bytes(&offsets),
        Ok(vec![2, 4, 0, 0, 0x02, 0x01, 0x40, 4, 0x56, 0x34, 0x12])
    );
}

#[test]
fn entry_without_offset_is_a_lookup_violation() {
    let offsets = StringOffsets::new();
    assert_eq!(entry(&[], "run").to_bytes(&offsets), Err(EmitError::LookupInvariantViolation));
}

#[test]
fn entry_with_too_many_previous_strokes() {
    let mut offsets = StringOffsets::new();
    offsets.insert("run", 0);
    let prev = vec![2u32; 256];
    assert_eq!(
        entry(&prev, "run").to_bytes(&offsets),
        Err(EmitError::CapacityExceeded(CapacityLimit::PrevStrokes))
    );
    let prev = vec![2u32; 255];
    let bytes = entry(&prev, "run").to_bytes(&offsets).unwrap();
    assert_eq!(bytes.len(), 1 + 255 * 3 + 1 + 3);
    assert_eq!(bytes[0], 255);
    let offsets = StringOffsets::new();
    let prev = vec![2u32; 256];
    assert_eq!(
        entry(&prev, "run").to_bytes(&offsets),
        Err(EmitError::CapacityExceeded(CapacityLimit::PrevStrokes))
    );
}

#[test]
fn string_offset_must_fit_three_bytes() {
    let mut offsets = StringOffsets::new();
    offsets.insert("run", 0x00FF_FFFF);
    offsets.insert("fun", 0x0100_0000);
    assert_eq!(entry(&[], "run").to_bytes(&offsets), Ok(vec![0, 0, 0xFF, 0xFF, 0xFF]));
    assert_eq!(
        entry(&[], "fun").to_bytes(&offsets),
        Err(EmitError::CapacityExceeded(CapacityLimit::StringOffset))
    );
}

#[test]
fn group_bytes() {
    let mut offsets = StringOffsets::new();
    offsets.insert("run", 0);
    offsets.insert("fun", 4);
    let mut list = StrokeEntryList::empty();
    assert_eq!(list.to_bytes(&offsets), Ok(vec![0, 0]));
    list.push(entry(&[], "run"));
    list.push(entry(&[4], "fun"));
    assert_eq!(list.len(), 2);
    assert_eq!(
        list.to_bytes(&offsets),
        Ok(vec![2, 0, 0, 0, 0, 0, 0, 1, 4, 0, 0, 0, 4, 0, 0])
    );
    list.push(entry(&[], "sun"));
    assert_eq!(list.to_bytes(&offsets), Err(EmitError::LookupInvariantViolation));
}

#[test]
fn group_with_too_many_entries() {
    let mut dict = Dict::new();
    for _ in 0..70000 {
        dict.insert(Stroke(2), entry(&[], "run"));
    }
    assert_eq!(count_entries(&dict), 70000);
    assert_eq!(
        dict.to_sections(),
        Err(EmitError::CapacityExceeded(CapacityLimit::GroupEntries))
    );
}

#[test]
fn group_with_most_entries() {
    let mut list = StrokeEntryList::empty();
    for _ in 0..65535 {
        list.push(entry(&[], "a"));
    }
    let mut offsets = StringOffsets::new();
    offsets.insert("a", 0);
    let bytes = list.to_bytes(&offsets).unwrap();
    assert_eq!(bytes.len(), 2 + 65535 * 5);
    assert_eq!(&bytes[..2], &[0xFF, 0xFF]);
    list.push(entry(&[], "a"));
    assert_eq!(
        list.to_bytes(&offsets),
        Err(EmitError::CapacityExceeded(CapacityLimit::GroupEntries))
    );
}

#[test]
fn empty_dictionary_compiles_to_nothing() {
    let dict = Dict::new();
    assert_eq!(dict.to_sections(), Ok((vec![], vec![], vec![])));
}

#[test]
fn sections_of_a_small_dictionary() {
    let dict = Dict::load(pairs(&[("S", "run"), ("T/S", "fun"), ("T", "un")]));
    let (keys, values, strings) = dict.to_sections().unwrap();
    assert_eq!(strings, b"run\0fun\0".to_vec());
    assert_eq!(
        values,
        vec![2, 0, 0, 0, 0, 0, 0, 1, 4, 0, 0, 0, 4, 0, 0, 1, 0, 0, 0, 1, 0, 0]
    );
    assert_eq!(keys, vec![2, 0, 0, 0, 0, 0, 0, 4, 0, 0, 15, 0, 0, 0]);
}

#[test]
fn key_section_is_ascending_whatever_the_order_of_loading() {
    let raw = [("-Z", "z"), ("S", "s"), ("#", "n"), ("-T", "t"), ("T", "tt"), ("S", "ss")];
    let mut reversed = raw;
    reversed.reverse();
    for input in [raw, reversed] {
        let dict = Dict::load(pairs(&input));
        let (keys, _, _) = dict.to_sections().unwrap();
        assert_eq!(keys.len(), 5 * 7);
        let strokes: Vec<u32> = keys
            .chunks(7)
            .map(|r| r[0] as u32 | (r[1] as u32) << 8 | (r[2] as u32) << 16)
            .collect();
        assert_eq!(strokes, vec![1, 2, 4, 1 << 19, 1 << 22]);
    }
}

#[test]
fn key_records_point_at_their_groups() {
    let dict = Dict::load(pairs(&[("S", "a"), ("T", "b"), ("T", "c"), ("K", "d")]));
    let (keys, values, strings) = dict.to_sections().unwrap();
    assert_eq!(strings, b"a\0b\0c\0d\0".to_vec());
    assert_eq!(
        keys,
        vec![2, 0, 0, 0, 0, 0, 0, 4, 0, 0, 7, 0, 0, 0, 8, 0, 0, 19, 0, 0, 0]
    );
    assert_eq!(
        values,
        vec![1, 0, 0, 0, 0, 0, 0, 2, 0, 0, 0, 2, 0, 0, 0, 0, 4, 0, 0, 1, 0, 0, 0, 6, 0, 0]
    );
}

#[test]
fn malformed_pairs_are_dropped() {
    let good = [("S", "run"), ("T/S", "fun"), ("T", "un")];
    let with_bad = [("S", "run"), ("ZS", "bad"), ("T/S", "fun"), ("T", "un"), ("K", "no1")];
    let a = Dict::load(pairs(&good));
    let b = Dict::load(pairs(&with_bad));
    assert_eq!(count_entries(&a), 3);
    assert_eq!(count_entries(&b), 3);
    assert_eq!(b.entries.len(), 2);
    assert_eq!(a.to_sections(), b.to_sections());
    let none = Dict::load(pairs(&[("", "a"), ("S/", "b"), ("s", "c")]));
    assert_eq!(count_entries(&none), 0);
    assert_eq!(none.to_sections(), Ok((vec![], vec![], vec![])));
}

#[test]
fn dictionary_from_json() {
    let text = r#"{"T/S": "fun", "XX": "bad", "S": "run", "K": "not good 1", "T": "un"}"#;
    let dict = generate_dictionary(text).unwrap();
    assert_eq!(count_entries(&dict), 3);
    let (keys, values, strings) = dict.to_sections().unwrap();
    assert_eq!(strings, b"run\0fun\0".to_vec());
    assert_eq!(
        values,
        vec![2, 0, 0, 0, 0, 0, 0, 1, 4, 0, 0, 0, 4, 0, 0, 1, 0, 0, 0, 1, 0, 0]
    );
    assert_eq!(keys, vec![2, 0, 0, 0, 0, 0, 0, 4, 0, 0, 15, 0, 0, 0]);
}

#[test]
fn json_members_are_loaded_in_order_of_their_names() {
    let a = generate_dictionary(r#"{"S/T": "b", "T": "a"}"#).unwrap();
    let b = generate_dictionary(r#"{"T": "a", "S/T": "b"}"#).unwrap();
    let expected = Dict::load(pairs(&[("S/T", "b"), ("T", "a")]));
    assert_eq!(a.to_sections(), expected.to_sections());
    assert_eq!(b.to_sections(), expected.to_sections());
    let (_, values, _) = a.to_sections().unwrap();
    assert_eq!(values, vec![2, 0, 1, 2, 0, 0, 0, 0, 0, 0, 0, 0, 2, 0, 0]);
}

#[test]
fn text_that_is_no_json_object_is_refused() {
    assert!(matches!(generate_dictionary("not json"), Err(LoadError::InvalidJson)));
    assert!(matches!(generate_dictionary(""), Err(LoadError::InvalidJson)));
    assert!(matches!(generate_dictionary(r#"{"S": 1}"#), Err(LoadError::InvalidJson)));
    assert!(matches!(generate_dictionary(r#"["S"]"#), Err(LoadError::InvalidJson)));
    assert!(matches!(generate_dictionary(r#"{"S": "a"} x"#), Err(LoadError::InvalidJson)));
    assert_eq!(load_dictionary_as_hashmap("{").err(), Some(LoadError::InvalidJson));
    assert_eq!(count_entries(&generate_dictionary("{}").unwrap()), 0);
}

#[test]
fn parsable_pairs_are_kept() {
    let kept = load_dictionary_as_hashmap(r#"{"T/S": "fun!", "XX": "bad", "S": "run"}"#).unwrap();
    assert_eq!(
        kept,
        vec![(vec![Stroke(2)], "run".to_string()), (vec![Stroke(4), Stroke(2)], "fun!".to_string())]
    );
    let kept = keep_parsable(pairs(&[("T", "b"), ("", "c"), ("S", "a")]));
    assert_eq!(kept, vec![(vec![Stroke(4)], "b".to_string()), (vec![Stroke(2)], "a".to_string())]);
}

#[test]
fn little_endian_fields() {
    let mut buf = vec![9u8];
    append_le(&mut buf, 0x0102_0304, 4);
    append_le(&mut buf, 0x0102_0304, 2);
    append_le(&mut buf, 5, 3);
    append_le(&mut buf, 7, 0);
    assert_eq!(buf, vec![9, 4, 3, 2, 1, 4, 3, 5, 0, 0]);
}

#[test]
fn entry_parts_are_handed_out() {
    let mut flags = EntryFlags::new();
    flags.set(EntryFlag::IsPrefix);
    let e = StrokeEntry::new(
        vec![Stroke(4), Stroke(8)],
        StrokeStringOutput::new("pre".to_string()).unwrap(),
        flags,
    );
    assert_eq!(e.prev_strokes(), &vec![Stroke(4), Stroke(8)]);
    assert_eq!(e.flags().to_byte(), 1);
    assert_eq!(e.output(), "pre");
    let mut list = StrokeEntryList::empty();
    assert!(list.get(0).is_none());
    list.push(e);
    assert_eq!(list.get(0).unwrap().output(), "pre");
    assert!(list.get(1).is_none());
}

#[test]
fn entries_of_one_stroke_keep_their_order() {
    let mut dict = Dict::new();
    dict.insert(Stroke(4), entry(&[], "b"));
    dict.insert(Stroke(2), entry(&[], "a"));
    dict.insert(Stroke(4), entry(&[2], "c"));
    assert_eq!(dict.entries.len(), 2);
    let group = &dict.entries[&4];
    assert_eq!(group.len(), 2);
    assert_eq!(group.get(0).unwrap().output(), "b");
    assert_eq!(group.get(1).unwrap().output(), "c");
    assert_eq!(dict.entries[&2].get(0).unwrap().output(), "a");
}
