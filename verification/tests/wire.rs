use dnsblk::hash::{deny_key, fnv_round};
use dnsblk::wire::lower_to_wire;
use dnsblk::{domain_to_wire, fnv1a_64, wire_to_domain, FNV_OFFSET, FNV_PRIME};

fn wire_of(labels: &[&str]) -> Vec<u8> {
    let mut wire = Vec::new();
    for label in labels {
        wire.push(label.len() as u8);
        wire.extend_from_slice(label.as_bytes());
    }
    wire.push(0);
    wire
}

#[test]
fn a_name_becomes_its_labels() {
    assert_eq!(
        domain_to_wire("example.com"),
        vec![7, 101, 120, 97, 109, 112, 108, 101, 3, 99, 111, 109, 0]
    );
}

#[test]
fn the_root_is_a_zero_byte() {
    assert_eq!(domain_to_wire(""), vec![0]);
    assert_eq!(domain_to_wire("."), vec![0]);
    assert_eq!(domain_to_wire(" \t"), vec![0]);
}

#[test]
fn case_space_and_final_dots_do_not_matter() {
    let wire = wire_of(&["www", "example", "com"]);
    assert_eq!(domain_to_wire("www.example.com"), wire);
    assert_eq!(domain_to_wire("WWW.Example.COM"), wire);
    assert_eq!(domain_to_wire("  www.example.com\r\n"), wire);
    assert_eq!(domain_to_wire("www.example.com."), wire);
    assert_eq!(domain_to_wire("www.example.com..."), wire);
    assert_eq!(domain_to_wire("..www..example.com"), wire);
}

#[test]
fn only_letters_change_with_case() {
    assert_eq!(domain_to_wire("AZ@[`{_-09"), wire_of(&["az@[`{_-09"]));
}

#[test]
fn labels_may_have_63_bytes_and_no_more() {
    let fits = "x".repeat(63);
    let long = "x".repeat(64);
    assert_eq!(domain_to_wire(&fits), wire_of(&[fits.as_str()]));
    assert_eq!(domain_to_wire(&format!("{long}.com")), wire_of(&["com"]));
    // 32 characters of two bytes each are 64 bytes.
    assert_eq!(domain_to_wire(&"é".repeat(32)), vec![0]);
    assert_eq!(domain_to_wire(&"é".repeat(31)).len(), 64);
}

#[test]
fn lower_case_is_that_of_unicode() {
    assert_eq!(domain_to_wire("BÜCHER.DE"), wire_of(&["bücher", "de"]));
    // A capital sigma at the end of a word has a lower case of its own, and a
    // dotted capital I becomes two characters.
    assert_eq!(domain_to_wire("ΟΔΟΣ"), wire_of(&["οδος"]));
    assert_eq!(domain_to_wire("İ"), wire_of(&["i\u{307}"]));
}

#[test]
fn labels_are_encoded_as_they_are() {
    assert_eq!(lower_to_wire("a..b."), wire_of(&["a", "b"]));
    assert_eq!(lower_to_wire(" A.b"), wire_of(&[" A", "b"]));
    assert_eq!(lower_to_wire(""), vec![0]);
    assert_eq!(lower_to_wire(&"x".repeat(64)), vec![0]);
}

#[test]
fn a_cut_name_reads_as_its_first_labels() {
    let wire = domain_to_wire("ab.cde.f");
    let shown = ["", "", "", "ab", "ab", "ab", "ab", "ab.cde", "ab.cde", "ab.cde.f", "ab.cde.f"];
    for (n, text) in shown.iter().enumerate() {
        assert_eq!(wire_to_domain(&wire[..n]), *text);
    }
}

#[test]
fn white_space_is_that_of_unicode() {
    let mut spaces: Vec<char> = Vec::new();
    for v in 0..=0x10ffffu32 {
        if let Some(c) = char::from_u32(v) {
            let around = format!("{c}a{c}");
            if domain_to_wire(&around) == vec![1, 97, 0] && c != '.' {
                spaces.push(c);
            }
        }
    }
    let mut expected: Vec<char> = vec!['\u{9}', '\u{a}', '\u{b}', '\u{c}', '\u{d}', ' ', '\u{85}'];
    expected.push('\u{a0}');
    expected.push('\u{1680}');
    for v in 0x2000..=0x200au32 {
        expected.push(char::from_u32(v).unwrap());
    }
    for v in [0x2028u32, 0x2029, 0x202f, 0x205f, 0x3000] {
        expected.push(char::from_u32(v).unwrap());
    }
    assert_eq!(spaces, expected);
}

#[test]
fn wire_reads_back_as_text() {
    assert_eq!(wire_to_domain(&wire_of(&["ads", "example", "com"])), "ads.example.com");
    assert_eq!(wire_to_domain(&[]), "");
    assert_eq!(wire_to_domain(&[0]), "");
    assert_eq!(wire_to_domain(&[1, 97]), "a");
}

#[test]
fn reading_ends_at_the_zero_byte() {
    let mut wire = wire_of(&["a", "b"]);
    wire.extend_from_slice(&[3, 99, 111, 109, 0]);
    assert_eq!(wire_to_domain(&wire), "a.b");
}

#[test]
fn reading_ends_before_a_label_that_is_cut_off() {
    assert_eq!(wire_to_domain(&[1, 97, 5, 98, 99]), "a");
    assert_eq!(wire_to_domain(&[255, 97]), "");
    assert_eq!(wire_to_domain(&[5]), "");
}

#[test]
fn a_label_that_is_not_utf8_reads_as_a_question_mark() {
    assert_eq!(wire_to_domain(&[2, 0xff, 0xfe, 3, 99, 111, 109, 0]), "?.com");
    assert_eq!(wire_to_domain(&[2, 0xc3, 0xa9, 0]), "é");
    // The dots inside a label are text like any other.
    assert_eq!(wire_to_domain(&[3, 97, 46, 98, 1, 99, 0]), "a.b.c");
}

#[test]
fn a_name_in_normal_form_survives_the_round_trip() {
    for name in ["a", "example.com", "xn--bcher-kva.example", "bücher.de", "a.b.c.d.e.f"] {
        assert_eq!(wire_to_domain(&domain_to_wire(name)), name);
    }
    assert_eq!(wire_to_domain(&domain_to_wire("  Example..COM. ")), "example.com");
}

#[test]
fn hashes_of_known_inputs() {
    assert_eq!(FNV_OFFSET, 0xcbf2_9ce4_8422_2325);
    assert_eq!(FNV_PRIME, 0x0000_0100_0000_01b3);
    assert_eq!(fnv1a_64(&[]), 0xcbf2_9ce4_8422_2325);
    assert_eq!(fnv1a_64(b"a"), 0xaf63_dc4c_8601_ec8c);
    assert_eq!(fnv1a_64(b"foobar"), 0x8594_4171_f739_67e8);
    assert_eq!(fnv1a_64(&[0]), 0xaf63_bd4c_8601_b7df);
    assert_eq!(fnv1a_64(&domain_to_wire("example.com")), 0x951d_f470_18d5_1fc6);
    assert_eq!(fnv1a_64(&domain_to_wire("ads.example.com")), 0x9350_b6ec_89ea_2f31);
    assert_eq!(fnv_round(FNV_OFFSET, 97), 0xaf63_dc4c_8601_ec8c);
}

#[test]
fn the_hash_stops_at_the_zero_byte() {
    assert_eq!(fnv1a_64(b"a\0b"), 0x089b_e207_b544_f1e4);
    assert_eq!(fnv1a_64(b"a\0"), fnv1a_64(b"a\0and more"));
}

#[test]
fn a_key_is_the_hash_with_the_most_significant_byte_first() {
    assert_eq!(deny_key(0x0123_4567_89ab_cdef), [0x01, 0x23, 0x45, 0x67, 0x89, 0xab, 0xcd, 0xef]);
    assert_eq!(deny_key(u64::MAX), [0xff; 8]);
    assert_ne!(deny_key(1), deny_key(256));
}
