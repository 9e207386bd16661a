use dnsblk::hash::deny_key;
use dnsblk::{domain_to_wire, fnv1a_64, load_deny_map};

#[test]
fn each_line_names_a_domain() {
    let plan = load_deny_map("example.com\nads.example.com\n");
    assert_eq!(plan.skipped, 0);
    assert_eq!(plan.entries.len(), 2);
    assert_eq!(plan.entries[0].line_no, 1);
    assert_eq!(plan.entries[0].line, "example.com");
    assert_eq!(plan.entries[0].key, 0x951d_f470_18d5_1fc6u64.to_be_bytes());
    assert_eq!(plan.entries[1].line_no, 2);
    assert_eq!(plan.entries[1].line, "ads.example.com");
    assert_eq!(plan.entries[1].key, 0x9350_b6ec_89ea_2f31u64.to_be_bytes());
}

#[test]
fn blank_lines_and_comments_name_none() {
    let plan = load_deny_map("# heading\n\n   \n  # indented\nexample.com # no comment here\n\r\n");
    assert_eq!(plan.skipped, 0);
    assert_eq!(plan.entries.len(), 1);
    assert_eq!(plan.entries[0].line_no, 5);
    assert_eq!(plan.entries[0].line, "example.com # no comment here");
    let empty = load_deny_map("");
    assert_eq!(empty.entries.len(), 0);
    assert_eq!(empty.skipped, 0);
}

#[test]
fn lines_are_trimmed() {
    let plan = load_deny_map("\tExample.COM.  \r\nlast");
    assert_eq!(plan.entries.len(), 2);
    assert_eq!(plan.entries[0].line, "Example.COM.");
    assert_eq!(plan.entries[0].key, 0x951d_f470_18d5_1fc6u64.to_be_bytes());
    assert_eq!(plan.entries[1].line_no, 2);
    assert_eq!(plan.entries[1].line, "last");
}

#[test]
fn domains_over_255_bytes_are_skipped() {
    // Four labels of 63 bytes are 257 bytes in wire format; with 61 in the last
    // they are 255.
    let x63 = "x".repeat(63);
    let long = format!("{x63}.{x63}.{x63}.{x63}");
    let fits = format!("{x63}.{x63}.{x63}.{}", "x".repeat(61));
    let over = format!("{x63}.{x63}.{x63}.{}", "x".repeat(62));
    assert_eq!(domain_to_wire(&fits).len(), 255);
    let plan = load_deny_map(&format!("{long}\nok.example\n{fits}\n{over}\n"));
    assert_eq!(plan.skipped, 2);
    assert_eq!(plan.entries.len(), 2);
    assert_eq!(plan.entries[0].line, "ok.example");
    assert_eq!(plan.entries[0].line_no, 2);
    assert_eq!(plan.entries[1].line_no, 3);
    assert_eq!(plan.entries[1].key, deny_key(fnv1a_64(&domain_to_wire(&fits))));
}

#[test]
fn a_domain_listed_twice_is_loaded_twice() {
    let plan = load_deny_map("a.b\nA.B.\n");
    assert_eq!(plan.entries.len(), 2);
    assert_eq!(plan.entries[0].key, plan.entries[1].key);
}

#[test]
fn every_line_is_loaded_skipped_or_names_none() {
    let content = format!("a\n\n#\n{}\nb", "y".repeat(63).as_str());
    let plan = load_deny_map(&content);
    assert_eq!(plan.entries.len() as u64 + plan.skipped + 2, 5);
    let numbers: Vec<u64> = plan.entries.iter().map(|entry| entry.line_no).collect();
    assert_eq!(numbers, vec![1, 4, 5]);
}

#[test]
fn a_line_without_a_usable_label_names_the_root() {
    let plan = load_deny_map("...\n");
    assert_eq!(plan.entries.len(), 1);
    assert_eq!(plan.entries[0].key, 0xaf63_bd4c_8601_b7dfu64.to_be_bytes());
}
