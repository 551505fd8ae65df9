use notebox::order::{lex_less, sorted_distinct};
use notebox::text::{
    ascii_alnum, contains_sub, from_chars, join_strings, nonempty_lines, parse_usize, path_push,
    path_push_all, same_text, split_chars, to_chars,
};

fn chars(s: &str) -> Vec<char> {
    s.chars().collect()
}

fn strings(v: &[&str]) -> Vec<String> {
    v.iter().map(|s| s.to_string()).collect()
}

#[test]
fn chars_round_trip() {
    let c = to_chars("héllo");
    assert_eq!(c, vec!['h', 'é', 'l', 'l', 'o']);
    assert_eq!(from_chars(&c), "héllo");
    assert!(same_text("abc", "abc"));
    assert!(!same_text("abc", "abd"));
    assert!(!same_text("abc", "ab"));
}

#[test]
fn ascii_alnum_accepts_letters_and_digits_only() {
    assert!(ascii_alnum('a'));
    assert!(ascii_alnum('Z'));
    assert!(ascii_alnum('7'));
    assert!(!ascii_alnum('-'));
    assert!(!ascii_alnum('é'));
}

#[test]
fn substring_search() {
    assert!(contains_sub(&chars("see https://x"), &chars("https://")));
    assert!(contains_sub(&chars("abc"), &chars("")));
    assert!(!contains_sub(&chars("ab"), &chars("abc")));
    assert!(!contains_sub(&chars("http:/"), &chars("http://")));
}

#[test]
fn split_keeps_empty_pieces() {
    assert_eq!(split_chars(&chars("a/b//c"), &['/']), strings(&["a", "b", "", "c"]));
    assert_eq!(split_chars(&chars(""), &['/']), strings(&[""]));
    assert_eq!(split_chars(&chars("a\\b/c"), &['/', '\\']), strings(&["a", "b", "c"]));
    assert_eq!(split_chars(&chars("/"), &['/']), strings(&["", ""]));
}

#[test]
fn join_then_split_round_trip() {
    let parts = strings(&["x", "", "yz"]);
    let joined = join_strings(&parts, '/');
    assert_eq!(joined, "x//yz");
    assert_eq!(split_chars(&chars(&joined), &['/']), parts);
    assert_eq!(join_strings(&[], '/'), "");
    assert_eq!(join_strings(&strings(&["one"]), '/'), "one");
}

#[test]
fn path_push_follows_pathbuf() {
    let mut p = String::from("/home/u");
    path_push(&mut p, "notes");
    assert_eq!(p, "/home/u/notes");
    let mut q = String::from("/home/u/");
    path_push(&mut q, "notes");
    assert_eq!(q, "/home/u/notes");
    let mut r = String::new();
    path_push(&mut r, "notes");
    assert_eq!(r, "notes");
    let mut s = String::from("/home/u");
    path_push(&mut s, "/etc");
    assert_eq!(s, "/etc");
    let mut t = String::from("/n");
    path_push_all(&mut t, &strings(&["a", "b"]));
    assert_eq!(t, "/n/a/b");
}

#[test]
fn parse_usize_follows_from_str() {
    assert_eq!(parse_usize(&chars("42")), Some(42));
    assert_eq!(parse_usize(&chars("+5")), Some(5));
    assert_eq!(parse_usize(&chars("")), None);
    assert_eq!(parse_usize(&chars("+")), None);
    assert_eq!(parse_usize(&chars("-1")), None);
    assert_eq!(parse_usize(&chars("1 ")), None);
    assert_eq!(
        parse_usize(&chars("18446744073709551615")),
        "18446744073709551615".parse::<usize>().ok()
    );
    assert_eq!(parse_usize(&chars("99999999999999999999999")), None);
}

#[test]
fn nonempty_lines_follow_str_lines() {
    assert_eq!(nonempty_lines("vim\n\n-p\r\n"), strings(&["vim", "-p"]));
    assert_eq!(nonempty_lines(""), Vec::<String>::new());
    assert_eq!(nonempty_lines("a\rb\nc\r"), strings(&["a\rb", "c\r"]));
    let text = "x\n\ny\r\nz";
    let expected: Vec<String> = text
        .lines()
        .filter(|l| !l.is_empty())
        .map(|l| l.to_owned())
        .collect();
    assert_eq!(nonempty_lines(text), expected);
}

#[test]
fn names_sorted_and_deduplicated() {
    let r = sorted_distinct(&strings(&["b", "a", "b", "", "ab"]));
    assert_eq!(r, strings(&["", "a", "ab", "b"]));
    assert!(lex_less(&chars("a"), &chars("ab")));
    assert!(!lex_less(&chars("b"), &chars("ab")));
    assert!(!lex_less(&chars("a"), &chars("a")));
}
