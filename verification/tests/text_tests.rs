use blackjack::text::number_text;

#[test]
fn one_digit_numbers() {
    assert_eq!(number_text(0), "0");
    assert_eq!(number_text(7), "7");
    assert_eq!(number_text(9), "9");
}

#[test]
fn multi_digit_numbers() {
    assert_eq!(number_text(10), "10");
    assert_eq!(number_text(21), "21");
    assert_eq!(number_text(100), "100");
    assert_eq!(number_text(255), "255");
}
