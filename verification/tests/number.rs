use scanlation::number::ChapterNumber;

fn number(text: &str) -> ChapterNumber {
    ChapterNumber::parse(text).unwrap()
}

#[test]
fn numbers_are_read_and_written() {
    assert_eq!(number("0012.500").to_decimal(), "12.5");
    assert_eq!(number("0").to_decimal(), "0");
    assert_eq!(number("0.0").to_decimal(), "0");
    assert_eq!(number("000.05").to_decimal(), "0.05");
    assert_eq!(number("12.0").to_decimal(), "12");
}

#[test]
fn anything_else_is_no_number() {
    for text in ["", ".", "1.", ".5", "1.2.3", "-1", "1e3", " 1", "1,5", "\u{661}"] {
        assert!(ChapterNumber::parse(text).is_none(), "{}", text);
    }
}

#[test]
fn numbers_are_ordered_by_value() {
    let ascending = ["0", "0.05", "0.1", "1", "1.09", "1.1", "9", "10", "10.01", "10.5", "100"];
    for i in 0..ascending.len() {
        for j in 0..ascending.len() {
            let (a, b) = (number(ascending[i]), number(ascending[j]));
            assert_eq!(a.less_than(&b), i < j, "{} {}", ascending[i], ascending[j]);
            assert_eq!(a.equals(&b), i == j);
        }
    }
}

#[test]
fn equal_values_are_one_number() {
    assert!(number("07.50").equals(&number("7.5")));
    assert_eq!(number("07.50"), number("7.5"));
    assert_eq!(number("7.5").clone(), number("7.5"));
}

#[test]
fn parts_make_a_number() {
    assert_eq!(ChapterNumber::from_parts("010", "20").unwrap().to_decimal(), "10.2");
    assert!(ChapterNumber::from_parts("", "2").is_none());
    assert!(ChapterNumber::from_parts("x", "2").is_none());
    assert!(ChapterNumber::from_parts("1", "y").is_none());
}

#[test]
fn hundredths_carry() {
    let with = |whole: &str, h: u8| ChapterNumber::from_hundredths(whole, h).unwrap().to_decimal();
    assert_eq!(with("10", 2), "10.02");
    assert_eq!(with("10", 0), "10");
    assert_eq!(with("10", 99), "10.99");
    assert_eq!(with("99", 101), "100.01");
    assert_eq!(with("0", 199), "1.99");
    assert_eq!(with("129", 150), "130.5");
    assert_eq!(with("98", 200), "100");
    assert_eq!(with("0", 255), "2.55");
    assert!(ChapterNumber::from_hundredths("", 1).is_none());
    assert!(ChapterNumber::from_hundredths("a", 1).is_none());
}
