use toccata::sys::diag::{append_dec, usize_to_dec, write_msg_num};
use toccata::sys::default_num_cpus;
use toccata::sys::text::{chars_of, find_key, find_word, parse_usize, same_text};

#[test]
fn dec_formats() {
    let mut buf = [0u8; 20];
    assert_eq!(usize_to_dec(0, &mut buf), b"0");
    assert_eq!(usize_to_dec(7, &mut buf), b"7");
    assert_eq!(usize_to_dec(12345, &mut buf), b"12345");
    assert_eq!(usize_to_dec(usize::MAX, &mut buf), usize::MAX.to_string().as_bytes());
}

#[test]
fn messages_end_in_a_number() {
    let mut line = [7u8; 64];
    let n = write_msg_num(&mut line, b"left: ", 1234);
    assert_eq!(&line[..n], b"left: 1234\n");
    assert!(line[n..].iter().all(|b| *b == 7));
    let mut line = [0u8; 21];
    let n = write_msg_num(&mut line, b"", usize::MAX);
    assert_eq!(line[..n - 1], *usize::MAX.to_string().as_bytes());
}

#[test]
fn numbers_append_to_text() {
    let mut s = String::from("n = ");
    append_dec(&mut s, 0);
    append_dec(&mut s, 18446744073709551615);
    assert_eq!(s, "n = 018446744073709551615");
}

#[test]
fn sys_box_roundtrips() {
    let b = allocator_api2::boxed::Box::new_in(12345u64, std::alloc::System);
    assert_eq!(*b, 12345);
}

#[test]
fn sys_vec_grows() {
    let mut v: allocator_api2::vec::Vec<u32, std::alloc::System> =
        allocator_api2::vec::Vec::new_in(std::alloc::System);
    for i in 0..1000 {
        v.push(i);
    }
    assert_eq!(v.len(), 1000);
    assert_eq!(v.iter().sum::<u32>(), (0..1000u32).sum());
}

fn number(s: &str) -> Option<usize> {
    parse_usize(&chars_of(s))
}

#[test]
fn words_and_numbers_are_found() {
    let text = chars_of("  12 abc");
    assert_eq!(find_word(&text, 0), Some((2, 4)));
    assert_eq!(find_word(&text, 4), Some((5, 8)));
    assert_eq!(find_word(&chars_of("   "), 0), None);
    // White space is that of Unicode.
    let wide = chars_of("\u{2003}1\u{a0}2\u{3000}");
    assert_eq!(find_word(&wide, 0), Some((1, 2)));
    assert_eq!(find_word(&wide, 2), Some((3, 4)));
    assert_eq!(find_word(&wide, 4), None);
    for c in '\0'..=char::MAX {
        let found = find_word(&[c], 0);
        assert_eq!(found.is_none(), c.is_whitespace(), "{c:?}");
    }
    assert_eq!(number("2048"), Some(2048));
    assert_eq!(number("+7"), Some(7));
    assert_eq!(number("+"), None);
    assert_eq!(number(""), None);
    assert_eq!(number("20k"), None);
    assert_eq!(number("\u{664}"), None);
    assert_eq!(number("99999999999999999999"), None);
}

#[test]
fn keys_start_a_line() {
    let text = chars_of("MemTotal: 1 kB\nHugepagesize:    2048 kB\n");
    let at = find_key(&text, &chars_of("Hugepagesize:")).unwrap();
    let word = find_word(&text, at.0).map(|w| text[w.0..w.1].to_vec());
    assert_eq!(word, Some(chars_of("2048")));
    assert_eq!(find_key(&text, &chars_of("kB")), None);
}

#[test]
fn a_machine_may_not_say_how_many_cpus_it_has() {
    assert_eq!(default_num_cpus(12, Some(4)), 12);
    assert_eq!(default_num_cpus(-1, Some(6)), 6);
    assert_eq!(default_num_cpus(0, None), 4);
}

#[test]
fn text_is_compared_by_characters() {
    assert!(same_text("frag", "frag"));
    assert!(!same_text("frag", "frags"));
    assert!(!same_text("frag", "flag"));
    assert!(same_text("", ""));
}
