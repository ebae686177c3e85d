use shell_flow::clock::{Elapsed, Instant};
use shell_flow::condition::Condition;
use shell_flow::text::{count_digits, decimal_string, holds, join, lines, overlap, write_digits, write_padded};

fn words(list: &[&str]) -> Vec<String> {
    list.iter().map(|s| s.to_string()).collect()
}

#[test]
fn decimal_of_small_and_large_numbers() {
    assert_eq!(decimal_string(0), "0");
    assert_eq!(decimal_string(7), "7");
    assert_eq!(decimal_string(10), "10");
    assert_eq!(decimal_string(-1), "-1");
    assert_eq!(decimal_string(1234567890), "1234567890");
    assert_eq!(decimal_string(i64::MAX), "9223372036854775807");
    assert_eq!(decimal_string(i64::MIN), "-9223372036854775808");
    assert_eq!(decimal_string(-100), "-100");
}

#[test]
fn decimal_agrees_with_the_standard_formatting() {
    let mut n: i64 = -5000;
    while n < 5000 {
        assert_eq!(decimal_string(n), format!("{}", n));
        n += 37;
    }
    let mut n: i64 = 1;
    while n < i64::MAX / 7 {
        assert_eq!(decimal_string(n), format!("{}", n));
        assert_eq!(decimal_string(-n), format!("{}", -n));
        n = n * 7 + 3;
    }
}

#[test]
fn digits_are_appended_to_what_is_there() {
    let mut out = String::from("n=");
    write_digits(&mut out, 0);
    assert_eq!(out, "n=0");
    write_digits(&mut out, u64::MAX);
    assert_eq!(out, "n=018446744073709551615");
}

#[test]
fn digits_are_counted() {
    assert_eq!(count_digits(0), 1);
    assert_eq!(count_digits(9), 1);
    assert_eq!(count_digits(10), 2);
    assert_eq!(count_digits(99), 2);
    assert_eq!(count_digits(100), 3);
    assert_eq!(count_digits(u64::MAX), 20);
}

#[test]
fn padding_fills_with_zeros_and_never_cuts() {
    let mut out = String::new();
    write_padded(&mut out, 5, 2);
    assert_eq!(out, "05");
    let mut out = String::new();
    write_padded(&mut out, 0, 9);
    assert_eq!(out, "000000000");
    let mut out = String::new();
    write_padded(&mut out, 123, 2);
    assert_eq!(out, "123");
    let mut out = String::new();
    write_padded(&mut out, 42, 0);
    assert_eq!(out, "42");
    let mut out = String::from("x");
    write_padded(&mut out, 999_999_999, 9);
    assert_eq!(out, "x999999999");
    let mut out = String::new();
    write_padded(&mut out, 7, 3);
    assert_eq!(out, format!("{:03}", 7));
}

#[test]
fn join_puts_the_separator_between_neighbours() {
    assert_eq!(join(&words(&[]), " "), "");
    assert_eq!(join(&words(&["a"]), " "), "a");
    assert_eq!(join(&words(&["a", "b", "c"]), " "), "a b c");
    assert_eq!(join(&words(&["", ""]), ", "), ", ");
    assert_eq!(join(&words(&["x", "", "y"]), "-"), "x--y");
    assert_eq!(join(&words(&["a", "b"]), ""), "ab");
}

#[test]
fn holds_finds_a_member() {
    assert!(holds(&words(&["a", "b"]), &"b".to_string()));
    assert!(!holds(&words(&["a", "b"]), &"c".to_string()));
    assert!(!holds(&words(&[]), &"".to_string()));
    assert!(holds(&words(&[""]), &"".to_string()));
    assert!(!holds(&words(&["ab"]), &"a".to_string()));
}

#[test]
fn overlap_needs_one_common_member() {
    assert!(overlap(&words(&["a", "b"]), &words(&["c", "b"])));
    assert!(overlap(&words(&["x"]), &words(&["x"])));
    assert!(!overlap(&words(&["a", "b"]), &words(&["c", "d"])));
    assert!(!overlap(&words(&[]), &words(&["c", "d"])));
    assert!(!overlap(&words(&["a"]), &words(&[])));
    assert!(!overlap(&words(&[]), &words(&[])));
    assert!(!overlap(&words(&["ab"]), &words(&["a", "b"])));
}

#[test]
fn lines_end_at_line_feeds() {
    assert_eq!(lines(""), words(&[]));
    assert_eq!(lines("a"), words(&["a"]));
    assert_eq!(lines("a\n"), words(&["a"]));
    assert_eq!(lines("a\nb"), words(&["a", "b"]));
    assert_eq!(lines("a\n\nb\n"), words(&["a", "", "b"]));
    assert_eq!(lines("\n"), words(&[""]));
    assert_eq!(lines("\n\n"), words(&["", ""]));
    assert_eq!(lines("one two\nthree"), words(&["one two", "three"]));
}

#[test]
fn lines_drop_a_carriage_return_before_a_line_feed_only() {
    assert_eq!(lines("a\r\nb"), words(&["a", "b"]));
    assert_eq!(lines("a\r\n"), words(&["a"]));
    assert_eq!(lines("a\rb\n"), words(&["a\rb"]));
    assert_eq!(lines("a\r\r\nb"), words(&["a\r", "b"]));
    assert_eq!(lines("\r\n"), words(&[""]));
    assert_eq!(lines("a\r"), words(&["a\r"]));
    assert_eq!(lines("\r"), words(&["\r"]));
    assert_eq!(lines("a\n\r"), words(&["a", "\r"]));
    assert_eq!(lines("é\r\nü"), words(&["é", "ü"]));
}

#[test]
fn lines_agree_with_the_standard_splitting() {
    let alphabet = ['a', '\n', '\r', ' '];
    let mut count = 0;
    for length in 0..7 {
        let total = 4usize.pow(length);
        for code in 0..total {
            let mut text = String::new();
            let mut rest = code;
            for _ in 0..length {
                text.push(alphabet[rest % 4]);
                rest /= 4;
            }
            let expected: Vec<String> = text.lines().map(|l| l.to_string()).collect();
            assert_eq!(lines(&text), expected, "for {:?}", text);
            count += 1;
        }
    }
    assert_eq!(count, 5461);
}

#[test]
fn elapsed_subtracts_with_borrow() {
    let start = Instant { seconds: 10, nanoseconds: 999_999_999 };
    let now = Instant { seconds: 12, nanoseconds: 5 };
    assert_eq!(start.elapsed(&now), Elapsed { seconds: 1, nanoseconds: 6 });
    let now = Instant { seconds: 10, nanoseconds: 999_999_999 };
    assert_eq!(start.elapsed(&now), Elapsed { seconds: 0, nanoseconds: 0 });
    let now = Instant { seconds: 11, nanoseconds: 999_999_999 };
    assert_eq!(start.elapsed(&now), Elapsed { seconds: 1, nanoseconds: 0 });
    let now = Instant { seconds: 10, nanoseconds: 999_999_998 };
    assert_eq!(start.elapsed(&now), Elapsed { seconds: 0, nanoseconds: 0 });
    let now = Instant { seconds: 9, nanoseconds: 999_999_999 };
    assert_eq!(start.elapsed(&now), Elapsed { seconds: 0, nanoseconds: 0 });
    let start = Instant { seconds: 0, nanoseconds: 0 };
    let now = Instant { seconds: u64::MAX, nanoseconds: 999_999_999 };
    assert_eq!(start.elapsed(&now), Elapsed { seconds: u64::MAX, nanoseconds: 999_999_999 });
}

#[test]
fn readings_are_valid_below_a_second_of_nanoseconds() {
    assert!(Instant { seconds: 0, nanoseconds: 0 }.is_valid());
    assert!(Instant { seconds: 5, nanoseconds: 999_999_999 }.is_valid());
    assert!(!Instant { seconds: 5, nanoseconds: 1_000_000_000 }.is_valid());
    assert!(!Instant { seconds: 5, nanoseconds: u32::MAX }.is_valid());
}

#[test]
fn report_has_seconds_and_nine_digits_below_a_minute() {
    assert_eq!(Elapsed { seconds: 0, nanoseconds: 0 }.report(), "real    0.000000000s");
    assert_eq!(Elapsed { seconds: 0, nanoseconds: 1 }.report(), "real    0.000000001s");
    assert_eq!(Elapsed { seconds: 59, nanoseconds: 999_999_999 }.report(), "real    59.999999999s");
    assert_eq!(Elapsed { seconds: 3, nanoseconds: 141_592_653 }.report(), "real    3.141592653s");
}

#[test]
fn report_has_minutes_from_a_minute_on() {
    assert_eq!(Elapsed { seconds: 60, nanoseconds: 0 }.report(), "real    1m 00.000000000s");
    assert_eq!(Elapsed { seconds: 61, nanoseconds: 5 }.report(), "real    1m 01.000000005s");
    assert_eq!(Elapsed { seconds: 3599, nanoseconds: 120 }.report(), "real    59m 59.000000120s");
    assert_eq!(Elapsed { seconds: 7325, nanoseconds: 999_999_999 }.report(), "real    122m 05.999999999s");
    assert_eq!(
        Elapsed { seconds: u64::MAX, nanoseconds: 0 }.report(),
        format!("real    {}m {:02}.{:09}s", u64::MAX / 60, u64::MAX % 60, 0)
    );
}

#[test]
fn loops_end_on_break_and_interrupt_only() {
    assert_eq!(Condition::Break.leaves_loop(), Some(Condition::NoOp));
    assert_eq!(Condition::SigInt.leaves_loop(), Some(Condition::SigInt));
    assert_eq!(Condition::Continue.leaves_loop(), None);
    assert_eq!(Condition::NoOp.leaves_loop(), None);
    assert!(Condition::NoOp.is_noop());
    assert!(!Condition::Break.is_noop());
    assert!(Condition::SigInt.is_sigint());
    assert!(!Condition::Continue.is_sigint());
}
