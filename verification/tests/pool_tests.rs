use steno_dict::string_section_builder::{append_terminated, StringOffsets, StringSectionBuilder};

fn read_from(bytes: &[u8], offset: usize) -> String {
    let mut out = String::new();
    let mut i = offset;
    while bytes[i] != 0 {
        out.push(bytes[i] as char);
        i += 1;
    }
    out
}

fn pool_of(strings: &[&str]) -> StringSectionBuilder {
    let mut pool = StringSectionBuilder::new();
    for s in strings {
        pool.add_string(s);
    }
    pool
}

#[test]
fn empty_pool_lays_out_to_nothing() {
    let pool = StringSectionBuilder::new();
    let (bytes, offsets) = pool.layout_strings();
    assert!(bytes.is_empty());
    assert_eq!(offsets.get("RUN"), None);
    assert_eq!(pool.get_total_string_length(), 0);
}

#[test]
fn single_string_is_written_with_terminator() {
    let pool = pool_of(&["RUN"]);
    let (bytes, offsets) = pool.layout_strings();
    assert_eq!(bytes, vec![b'R', b'U', b'N', 0]);
    assert_eq!(offsets.get("RUN"), Some(0));
    assert_eq!(offsets.get("UN"), None);
}

#[test]
fn shared_suffix_lies_in_the_first_placed_host() {
    let pool = pool_of(&["RUN", "FUN", "UN"]);
    let (bytes, offsets) = pool.layout_strings();
    assert_eq!(bytes, b"RUN\0FUN\0".to_vec());
    assert_eq!(offsets.get("RUN"), Some(0));
    assert_eq!(offsets.get("FUN"), Some(4));
    assert_eq!(offsets.get("UN"), Some(1));
    assert_eq!(read_from(&bytes, 1), "UN");
}

#[test]
fn order_of_adding_breaks_ties_only() {
    let pool = pool_of(&["UN", "FUN", "RUN"]);
    let (bytes, offsets) = pool.layout_strings();
    assert_eq!(bytes, b"FUN\0RUN\0".to_vec());
    assert_eq!(offsets.get("FUN"), Some(0));
    assert_eq!(offsets.get("RUN"), Some(4));
    assert_eq!(offsets.get("UN"), Some(1));
}

#[test]
fn longest_strings_come_first() {
    let pool = pool_of(&["a", "running", "sun", "ing", "g", "bun"]);
    let (bytes, offsets) = pool.layout_strings();
    assert_eq!(bytes, b"running\0sun\0bun\0a\0".to_vec());
    assert_eq!(offsets.get("running"), Some(0));
    assert_eq!(offsets.get("sun"), Some(8));
    assert_eq!(offsets.get("ing"), Some(4));
    assert_eq!(offsets.get("bun"), Some(12));
    assert_eq!(offsets.get("a"), Some(16));
    assert_eq!(offsets.get("g"), Some(6));
}

#[test]
fn every_string_reads_back_from_its_offset() {
    let strings = ["the", "he", "e", "other", "her", "mother", "moth", "", "The", "a b", "b"];
    let pool = pool_of(&strings);
    let (bytes, offsets) = pool.layout_strings();
    for s in strings {
        let offset = offsets.get(s).unwrap();
        assert_eq!(read_from(&bytes, offset), s);
    }
    assert_eq!(bytes, b"mother\0moth\0the\0The\0a b\0".to_vec());
    assert_eq!(offsets.get(""), Some(6));
    assert_eq!(offsets.get("other"), Some(1));
    assert_eq!(offsets.get("her"), Some(3));
    assert_eq!(offsets.get("the"), Some(12));
    assert_eq!(offsets.get("he"), Some(13));
    assert_eq!(offsets.get("e"), Some(14));
    assert_eq!(offsets.get("b"), Some(22));
}

#[test]
fn suffix_is_not_written_twice() {
    let with_suffix = pool_of(&["walking", "king"]);
    let without = pool_of(&["walking"]);
    let (a, offsets) = with_suffix.layout_strings();
    let (b, _) = without.layout_strings();
    assert_eq!(a, b);
    assert_eq!(offsets.get("king"), Some(3));
    assert_eq!(with_suffix.get_total_string_length(), 13);
    assert_eq!(a.len(), 8);
}

#[test]
fn adding_twice_is_adding_once() {
    let once = pool_of(&["RUN", "UN"]);
    let twice = pool_of(&["RUN", "UN", "RUN", "UN", "UN"]);
    let (a, a_offsets) = once.layout_strings();
    let (b, b_offsets) = twice.layout_strings();
    assert_eq!(a, b);
    assert_eq!(a_offsets.get("RUN"), b_offsets.get("RUN"));
    assert_eq!(a_offsets.get("UN"), b_offsets.get("UN"));
    assert_eq!(once.get_total_string_length(), twice.get_total_string_length());
    assert_eq!(twice.get_total_string_length(), 7);
    assert!(twice.contains("RUN"));
    assert!(!twice.contains("FUN"));
}

#[test]
fn strings_differ_by_case() {
    let pool = pool_of(&["Run", "run"]);
    let (bytes, offsets) = pool.layout_strings();
    assert_eq!(bytes, b"Run\0run\0".to_vec());
    assert_eq!(offsets.get("run"), Some(4));
}

#[test]
fn well_formed_strings_are_accepted() {
    let pool = StringSectionBuilder::new();
    pool.verify_string_well_formed("hello world");
}

#[test]
fn offsets_table_records_and_finds() {
    let mut offsets = StringOffsets::new();
    assert_eq!(offsets.get("a"), None);
    offsets.insert("a", 7);
    offsets.insert("b", 9);
    offsets.insert("a", 11);
    assert_eq!(offsets.get("a"), Some(11));
    assert_eq!(offsets.get("b"), Some(9));
}

#[test]
fn terminated_text_is_appended() {
    let mut buf = vec![1u8, 2];
    append_terminated(&mut buf, "ab");
    assert_eq!(buf, vec![1, 2, b'a', b'b', 0]);
}
