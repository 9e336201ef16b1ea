use pbox_speedtest::measure::{read_budget, read_step, ReadEvent, ReadStep};
use pbox_speedtest::text::{chars_of, split, split_once, trim, trim_end_chars, join_trimmed, string_from_chars, contains_char};

fn s(v: &Vec<char>) -> String {
    v.iter().collect()
}

#[test]
fn trimming_unicode_whitespace() {
    assert_eq!(s(&trim(&chars_of("\u{3000} a b\u{a0}\t\r\n"))), "a b");
    assert_eq!(s(&trim(&chars_of("   "))), "");
    assert_eq!(s(&trim(&chars_of("x"))), "x");
}

#[test]
fn splitting_keeps_empty_fields() {
    let f: Vec<String> = split(&chars_of(",a,,b,"), ',').iter().map(s).collect();
    assert_eq!(f, vec!["", "a", "", "b", ""]);
    let f: Vec<String> = split(&chars_of(""), ',').iter().map(s).collect();
    assert_eq!(f, vec![""]);
    let (a, b) = split_once(&chars_of("a/b/c"), '/').unwrap();
    assert_eq!((s(&a), s(&b)), ("a".to_string(), "b/c".to_string()));
    assert!(split_once(&chars_of("abc"), '/').is_none());
    assert!(contains_char(&chars_of("a/b"), '/'));
    assert_eq!(string_from_chars(&chars_of("héllo")), "héllo");
}

#[test]
fn download_steps() {
    assert_eq!(read_budget(1000, 400), Some(600));
    assert_eq!(read_budget(1000, 1000), None);
    assert_eq!(read_budget(1000, 2000), None);
    assert_eq!(read_step(10, ReadEvent::Chunk(5)), ReadStep::Continue(15));
    assert_eq!(read_step(10, ReadEvent::End), ReadStep::Finish(10));
    assert_eq!(read_step(10, ReadEvent::TimedOut), ReadStep::Finish(10));
    assert_eq!(read_step(10, ReadEvent::Failed), ReadStep::Abort);
}

#[test]
fn joining_read_lines() {
    let lines = vec!["1.1.1.1 \n".to_string(), "  1.0.0.1\r\n".to_string(), "x".to_string()];
    assert_eq!(join_trimmed(&lines), "1.1.1.1\n  1.0.0.1\nx");
    assert_eq!(join_trimmed(&vec![]), "");
    assert_eq!(join_trimmed(&vec!["\n".to_string()]), "");
    assert_eq!(s(&trim_end_chars(&chars_of(" a \t"))), " a");
}
