use mc_nbt_viewer::edit::{
    commit_i16_text, commit_i32_text, commit_i64_text, commit_i8_text, commit_parsed, int_string,
    IntTextError,
};

fn commit8(old: i8, text: &str) -> (i8, String) {
    let mut v = old;
    let mut b = String::from(text);
    commit_i8_text(&mut v, &mut b);
    (v, b)
}

#[test]
fn committed_text_becomes_the_value() {
    assert_eq!(commit8(1, "42"), (42, String::from("42")));
    assert_eq!(commit8(1, "+7"), (7, String::from("7")));
    assert_eq!(commit8(1, "-0"), (0, String::from("0")));
    assert_eq!(commit8(1, "007"), (7, String::from("7")));
    assert_eq!(commit8(1, "-128"), (-128, String::from("-128")));
}

#[test]
fn out_of_range_text_saturates() {
    assert_eq!(commit8(1, "128"), (127, String::from("127")));
    assert_eq!(commit8(1, "99999999999999999999999"), (127, String::from("127")));
    assert_eq!(commit8(1, "-129"), (-128, String::from("-128")));
    let mut v: i16 = 5;
    let mut b = String::from("40000");
    commit_i16_text(&mut v, &mut b);
    assert_eq!((v, b.as_str()), (i16::MAX, "32767"));
    let mut v: i32 = 5;
    let mut b = String::from("-3000000000");
    commit_i32_text(&mut v, &mut b);
    assert_eq!((v, b.as_str()), (i32::MIN, "-2147483648"));
    let mut v: i64 = 5;
    let mut b = String::from("9223372036854775808");
    commit_i64_text(&mut v, &mut b);
    assert_eq!((v, b.as_str()), (i64::MAX, "9223372036854775807"));
}

#[test]
fn empty_text_is_zero_and_other_text_keeps_the_value() {
    assert_eq!(commit8(9, ""), (0, String::from("0")));
    assert_eq!(commit8(9, "abc"), (9, String::from("9")));
    assert_eq!(commit8(9, "-"), (9, String::from("9")));
    assert_eq!(commit8(9, " 1"), (9, String::from("9")));
    assert_eq!(commit8(9, "1_0"), (9, String::from("9")));
    let mut v: i64 = -4;
    let mut b = String::from("1.5");
    commit_i64_text(&mut v, &mut b);
    assert_eq!((v, b.as_str()), (-4, "-4"));
}

#[test]
fn parse_results_map_to_values() {
    assert_eq!(commit_parsed(3, Ok(-8), -128, 127), -8);
    assert_eq!(commit_parsed(3, Err(IntTextError::PosOverflow), -128, 127), 127);
    assert_eq!(commit_parsed(3, Err(IntTextError::NegOverflow), -128, 127), -128);
    assert_eq!(commit_parsed(3, Err(IntTextError::Empty), -128, 127), 0);
    assert_eq!(commit_parsed(3, Err(IntTextError::InvalidDigit), -128, 127), 3);
}

#[test]
fn integers_as_text() {
    assert_eq!(int_string(0), "0");
    assert_eq!(int_string(-1), "-1");
    assert_eq!(int_string(1234567), "1234567");
    assert_eq!(int_string(i64::MIN), "-9223372036854775808");
    assert_eq!(int_string(i64::MAX), "9223372036854775807");
}

#[test]
fn committing_the_shown_text_keeps_the_value() {
    for v in i8::MIN..=i8::MAX {
        let shown = int_string(v as i64);
        assert_eq!(commit8(v, &shown), (v, shown.clone()));
    }
    for v in [i64::MIN, -1, 0, 1, i64::MAX] {
        let mut x = v;
        let mut b = int_string(v);
        commit_i64_text(&mut x, &mut b);
        assert_eq!(x, v);
        assert_eq!(b, int_string(v));
    }
}
