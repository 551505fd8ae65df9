use notebox::info::{
    add_auto_labels, attachment_rel, auto_label_list, keep_underscore_labels, InfoJsonElem,
    INFO_FN,
};
use notebox::timefmt::{millis2display, time_text_or_message};

fn strings(v: &[&str]) -> Vec<String> {
    v.iter().map(|s| s.to_string()).collect()
}

#[test]
fn info_file_name() {
    assert_eq!(INFO_FN, "info");
}

#[test]
fn web_addresses_earn_the_bookmark_label() {
    assert_eq!(auto_label_list("see http://example.org"), strings(&["_bm"]));
    assert_eq!(auto_label_list("see https://example.org"), strings(&["_bm"]));
    assert_eq!(auto_label_list("http:/ not quite"), Vec::<String>::new());
}

#[test]
fn fenced_code_earns_the_code_label() {
    assert_eq!(auto_label_list("intro\n```\nlet x = 1;\n```\n"), strings(&["_code"]));
    assert_eq!(auto_label_list("a\r```\rb"), strings(&["_code"]));
    assert_eq!(auto_label_list("```rust\nx\n"), Vec::<String>::new());
    assert_eq!(auto_label_list(" ```"), Vec::<String>::new());
}

#[test]
fn both_labels_bookmark_first() {
    assert_eq!(
        auto_label_list("```\nhttps://a.b\n"),
        strings(&["_bm", "_code"])
    );
    assert_eq!(auto_label_list(""), Vec::<String>::new());
}

#[test]
fn auto_labels_are_appended_after_saved_ones() {
    let mut e = InfoJsonElem::empty();
    e.lbls = strings(&["_old"]);
    e.content = "link https://x\n```\n".to_string();
    e.size = 9;
    add_auto_labels(&mut e);
    assert_eq!(e.lbls, strings(&["_old", "_bm", "_code"]));
    assert_eq!(e.size, 9);
    let d: InfoJsonElem = Default::default();
    assert!(d.lbls.is_empty() && d.att.is_empty() && d.rel.is_empty());
    assert_eq!((d.tmpid, d.size, d.mtime), (0, 0, 0));
}

#[test]
fn attachment_paths_are_relative_to_the_attachment_folder() {
    assert_eq!(
        attachment_rel("/n/a/att/pics/x.png", "/n/a/att"),
        Some("pics/x.png".to_string())
    );
    assert_eq!(attachment_rel("/n/a/att/y", "/n/a/att"), Some("y".to_string()));
    assert_eq!(attachment_rel("/n/a/attic/y", "/n/a/att"), None);
    assert_eq!(attachment_rel("/n/a/att", "/n/a/att"), None);
    assert_eq!(attachment_rel("/elsewhere/y", "/n/a/att"), None);
}

#[test]
fn only_underscore_labels_are_written_back() {
    assert_eq!(
        keep_underscore_labels(strings(&["work", "_bm", "", "_code", "x_"])),
        strings(&["_bm", "_code"])
    );
}

#[test]
fn epoch_is_shown_in_utc() {
    assert_eq!(millis2display(0), "1970-01-01 00:00:00 UTC");
    assert_eq!(millis2display(1_700_000_000_123), "2023-11-14 22:13:20.123 UTC");
}

#[test]
fn times_out_of_range_get_the_fixed_message() {
    assert_eq!(millis2display(i64::MAX), "FAILED TO CONV MS TO STR");
    assert_eq!(time_text_or_message(None), "FAILED TO CONV MS TO STR");
    assert_eq!(time_text_or_message(Some("t".to_string())), "t");
}
