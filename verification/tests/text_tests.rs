use g2bf::text::push_decimal;

fn dec(n: isize) -> String {
    let mut s = String::new();
    push_decimal(&mut s, n);
    s
}

#[test]
fn decimal_of_small_numbers() {
    assert_eq!(dec(0), "0");
    assert_eq!(dec(7), "7");
    assert_eq!(dec(42), "42");
    assert_eq!(dec(-7), "-7");
    assert_eq!(dec(-128), "-128");
    assert_eq!(dec(1536), "1536");
}

#[test]
fn decimal_of_extremes() {
    assert_eq!(dec(isize::MAX), isize::MAX.to_string());
    assert_eq!(dec(isize::MIN), isize::MIN.to_string());
}

#[test]
fn decimal_appends_to_existing_text() {
    let mut s = String::from("x=");
    push_decimal(&mut s, -30);
    assert_eq!(s, "x=-30");
}

#[test]
fn decimal_round_trips() {
    for n in [-1000isize, -99, -10, -9, -1, 0, 1, 9, 10, 99, 100, 123456789] {
        assert_eq!(dec(n).parse::<isize>().unwrap(), n);
        assert_eq!(dec(n), format!("{}", n));
    }
}
