use steno_dict::stroke::Stroke;

#[test]
fn stroke_stroke_parsing_test() {
    assert_eq!(Stroke::stroke_str_to_int("S"), 2);
    assert_eq!(Stroke::stroke_str_to_int("#"), 1);
    assert_eq!(Stroke::stroke_str_to_int("T"), 4);
    assert_eq!(Stroke::stroke_str_to_int("-T"), 1 << 19);

    assert_eq!(Stroke::stroke_str_to_int("-Z"), 1 << 22);

    assert_eq!(
        Stroke::stroke_str_to_int("-PBT"),
        1 << 15 | 1 << 16 | 1 << 19
    );
}

#[test]
fn stroke_all_nums_to_stroke_and_back() {
    for i in 1..(1 << 23) {
        let stroke = Stroke(i);
        let s = stroke.to_string();

        let n = Stroke::stroke_str_to_int(&s);
        assert_eq!(n, i);
    }
}

#[test]
fn chord_with_separator_round_trips() {
    let v = Stroke::try_stroke_str_to_int("STKR-T").unwrap();
    assert_eq!(v, 1 << 1 | 1 << 2 | 1 << 3 | 1 << 7 | 1 << 19);
    assert_eq!(Stroke(v).to_string(), "STKR-T");
}

#[test]
fn render_examples() {
    assert_eq!(Stroke::from(1 << 18).to_string(), "-G");
    assert_eq!(Stroke::from(2).to_string(), "S");
    assert_eq!(Stroke::from(1).to_string(), "#-");
    assert_eq!(Stroke::from(0).to_string(), "");
    let v = Stroke::stroke_str_to_int("STKRO*EUD");
    assert_eq!(Stroke(v).to_string(), "STKRO*EUD");
    assert_eq!(Stroke(1 << 12 | 1 << 14).to_string(), "UR");
    assert_eq!(Stroke::stroke_str_to_int("UR"), 1 << 12 | 1 << 14);
}

#[test]
fn malformed_chords_are_rejected() {
    assert_eq!(Stroke::try_stroke_str_to_int(""), None);
    assert_eq!(Stroke::try_stroke_str_to_int("TS-"), Some(1 << 2 | 1 << 20));
    assert_eq!(Stroke::try_stroke_str_to_int("ZS"), None);
    assert_eq!(Stroke::try_stroke_str_to_int("s"), None);
    assert_eq!(Stroke::try_stroke_str_to_int("S T"), None);
    assert_eq!(Stroke::try_stroke_str_to_int("-"), Some(0));
    assert_eq!(Stroke::try_stroke_str_to_int("SS"), Some(2));
    assert_eq!(Stroke::try_stroke_str_to_int("\u{e9}"), None);
}

#[test]
fn chord_sequences() {
    let v = Stroke::convert_str_to_stroke_vec("STKR-T/-G").unwrap();
    assert_eq!(v, vec![Stroke(1 << 1 | 1 << 2 | 1 << 3 | 1 << 7 | 1 << 19), Stroke(1 << 18)]);
    assert_eq!(Stroke::convert_str_to_stroke_vec("S").unwrap(), vec![Stroke(2)]);
    assert_eq!(Stroke::convert_str_to_stroke_vec(""), None);
    assert_eq!(Stroke::convert_str_to_stroke_vec("S/"), None);
    assert_eq!(Stroke::convert_str_to_stroke_vec("/S"), None);
    assert_eq!(Stroke::convert_str_to_stroke_vec("S//T"), None);
    assert_eq!(Stroke::convert_str_to_stroke_vec("S/x/T"), None);
}

#[test]
fn compact_bytes_are_little_endian() {
    assert_eq!(Stroke(0x0012_3456).to_bytes(), [0x56, 0x34, 0x12]);
    assert_eq!(Stroke(1 << 22).to_bytes(), [0, 0, 0x40]);
    assert_eq!(Stroke(0xAB12_3456).to_bytes(), [0x56, 0x34, 0x12]);
}

#[test]
fn hash_values() {
    assert_eq!(Stroke(0).hash(), 0);
    let mut x: u32 = 1;
    x = ((x >> 16) ^ x).wrapping_mul(0x45d9f3b);
    x = ((x >> 16) ^ x).wrapping_mul(0x45d9f3b);
    x = (x >> 16) ^ x;
    assert_eq!(Stroke(1).hash(), x);
    assert_eq!(Stroke(1).hash(), 824515495);
}

#[test]
fn strokes_order_as_their_values() {
    assert!(Stroke(1) < Stroke(2));
    assert!(Stroke(1 << 22) > Stroke(1 << 21));
    assert_eq!(Stroke(5).partial_cmp(&Stroke(5)), Some(std::cmp::Ordering::Equal));
    assert_eq!(Stroke(5).cmp(&Stroke(6)), std::cmp::Ordering::Less);
    let mut v = vec![Stroke(9), Stroke(3), Stroke(7)];
    v.sort();
    assert_eq!(v, vec![Stroke(3), Stroke(7), Stroke(9)]);
}

#[test]
fn validity() {
    assert!(Stroke(0x007F_FFFF).check_valid());
    assert!(!Stroke(0x0080_0000).check_valid());
    Stroke(5).assert_is_valid();
    assert_eq!(Stroke(17).to_int(), 17);
}
