use exact_cover::text::{digit_char, push_centered, push_decimal, push_spaces};

#[test]
fn decimal_writes_every_digit() {
    let mut out = vec!['#'];
    push_decimal(0, &mut out);
    push_decimal(1234567890, &mut out);
    let text: String = out.iter().collect();
    assert_eq!(text, "#01234567890");
    assert_eq!(digit_char(7), '7');
}

#[test]
fn centered_puts_the_larger_half_behind() {
    for (n, width) in [(1usize, 5usize), (12, 5), (123, 5), (1234, 5), (12345, 5), (123456, 5), (7, 0), (7, 2)] {
        let mut out = Vec::new();
        push_centered(n, width, &mut out);
        let text: String = out.iter().collect();
        assert_eq!(text, format!("{:^width$}", n, width = width));
    }
    let mut out = Vec::new();
    push_spaces(3, &mut out);
    assert_eq!(out, vec![' ', ' ', ' ']);
}
