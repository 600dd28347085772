use field_puzzles::radix::{
    convert_from_base10_to_base65, convert_to_base10, parse_reading, part1, part2, part3, Base,
    DroneReading,
};

const INPUT: [&str; 8] = [
    "100011101111110010101101110011 2",
    "83546306 10",
    "1106744474 8",
    "170209FD 16",
    "2557172641 8",
    "2B290C15 16",
    "279222446 10",
    "6541027340 8",
];

fn readings() -> Vec<DroneReading> {
    INPUT
        .iter()
        .map(|x| DroneReading::from_str(x).unwrap())
        .collect()
}

#[test]
fn problem_3_test_part1() {
    let input = readings();
    assert_eq!(part1(input), 78);
}

#[test]
fn problem_3_test_part2() {
    let input = readings();
    assert_eq!(part2(input), 3487996082);
}

#[test]
fn problem_3_test_part3() {
    let input = readings();
    assert_eq!(part3(input), "30PzDC");
}

#[test]
fn base_names() {
    assert_eq!(Base::from_str("2"), Ok(Base::Base2));
    assert_eq!(Base::from_str("8"), Ok(Base::Base8));
    assert_eq!(Base::from_str("10"), Ok(Base::Base10));
    assert_eq!(Base::from_str("16"), Ok(Base::Base16));
    assert_eq!(Base::from_str("3"), Err(()));
    assert_eq!(Base::from_str(""), Err(()));
    assert_eq!(Base::from_str("010"), Err(()));
    assert_eq!(Base::Base2.radix(), 2);
    assert_eq!(Base::Base8.radix(), 8);
    assert_eq!(Base::Base10.radix(), 10);
    assert_eq!(Base::Base16.radix(), 16);
    assert_eq!(usize::from(Base::Base2), 2);
    assert_eq!(usize::from(Base::Base8), 8);
    assert_eq!(usize::from(Base::Base10), 10);
    assert_eq!(usize::from(Base::Base16), 16);
}

#[test]
fn reading_lines() {
    let r = DroneReading::from_str("170209FD 16").unwrap();
    assert_eq!(r.reading, "170209FD");
    assert_eq!(r.base, Base::Base16);
    assert!(DroneReading::from_str("170209FD").is_err());
    assert!(DroneReading::from_str("12 7").is_err());
    assert!(DroneReading::from_str("12 10 x").is_err());
    assert!(DroneReading::from_str("").is_err());
    let empty = DroneReading::from_str(" 2").unwrap();
    assert_eq!(empty.reading, "");
}

#[test]
fn values_in_each_base() {
    assert_eq!(convert_to_base10("101", Base::Base2), 5);
    assert_eq!(convert_to_base10("777", Base::Base8), 511);
    assert_eq!(convert_to_base10("0042", Base::Base10), 42);
    assert_eq!(convert_to_base10("fF", Base::Base16), 255);
    assert_eq!(convert_to_base10("+17", Base::Base10), 17);
    assert_eq!(convert_to_base10("0", Base::Base2), 0);
}

#[test]
fn parse_agrees_with_the_standard_library() {
    let texts = [
        "", "+", "-1", "12", "+12", "++12", "1 2", "102", "8", "g", "G", "z", "ff", "FF",
        "18446744073709551615", "18446744073709551616", "99999999999999999999999",
        "ffffffffffffffff", "10000000000000000", "1777777777777777777777",
        "2000000000000000000000", "12a", "a12", "0x10", "١٢",
    ];
    let bases = [
        (Base::Base2, 2u32),
        (Base::Base8, 8),
        (Base::Base10, 10),
        (Base::Base16, 16),
    ];
    for text in texts {
        for (base, radix) in bases {
            assert_eq!(
                parse_reading(text, base),
                usize::from_str_radix(text, radix).ok()
            );
        }
    }
}

#[test]
fn base65_symbols() {
    assert_eq!(convert_from_base10_to_base65(0), "");
    assert_eq!(convert_from_base10_to_base65(1), "1");
    assert_eq!(convert_from_base10_to_base65(10), "A");
    assert_eq!(convert_from_base10_to_base65(36), "a");
    assert_eq!(convert_from_base10_to_base65(62), "!");
    assert_eq!(convert_from_base10_to_base65(63), "@");
    assert_eq!(convert_from_base10_to_base65(64), "#");
    assert_eq!(convert_from_base10_to_base65(65), "10");
    assert_eq!(convert_from_base10_to_base65(65 * 65 + 2 * 65 + 3), "123");
    assert_eq!(convert_from_base10_to_base65(3487996082), "30PzDC");
}

#[test]
fn totals_of_no_readings() {
    assert_eq!(part1(Vec::new()), 0);
    assert_eq!(part2(Vec::new()), 0);
    assert_eq!(part3(Vec::new()), "");
}
