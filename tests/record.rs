use pi_digits::record::Record;

#[test]
fn counts_start_at_zero() {
    let r: Record<10> = Record::default();
    assert_eq!(r.counts(), [0; 10]);
}

#[test]
fn digits_are_counted_and_others_ignored() {
    let mut r: Record<10> = Record::default();
    for b in b"3.14159 26535".iter() {
        r.record_byte(*b);
    }
    assert_eq!(r.counts(), [0, 2, 1, 2, 1, 3, 1, 0, 0, 1]);
}

#[test]
fn chars_are_counted() {
    let mut r: Record<10> = Record::default();
    r.record_char('7');
    r.record_char('x');
    r.record_char('\u{0667}');
    r.record_char('7');
    assert_eq!(r.counts(), [0, 0, 0, 0, 0, 0, 0, 2, 0, 0]);
}

#[test]
fn indices_are_counted() {
    let mut r: Record<4> = Record::default();
    r.record_index(3);
    r.record_index(0);
    r.record_index(3);
    assert_eq!(r.counts(), [1, 0, 0, 2]);
}
