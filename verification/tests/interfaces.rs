use dnsblk::interfaces::{interfaces_or_default, text_at_most};
use dnsblk::list_interfaces;

fn raw(names: &[&str]) -> Vec<Vec<u8>> {
    names.iter().map(|name| name.as_bytes().to_vec()).collect()
}

#[test]
fn names_are_listed_in_order_without_the_loopback() {
    assert_eq!(
        list_interfaces(&raw(&["wlan0", "lo", "eth1", "docker0", "eth0"])),
        vec!["docker0", "eth0", "eth1", "wlan0"]
    );
    assert_eq!(list_interfaces(&raw(&["lo"])), Vec::<String>::new());
    assert_eq!(list_interfaces(&raw(&[])), Vec::<String>::new());
    assert_eq!(list_interfaces(&raw(&["lo0", "l"])), vec!["l", "lo0"]);
}

#[test]
fn the_order_of_entries_does_not_show() {
    let one = list_interfaces(&raw(&["b", "a", "c", "a"]));
    let two = list_interfaces(&raw(&["a", "c", "a", "b"]));
    assert_eq!(one, two);
    assert_eq!(one, vec!["a", "a", "b", "c"]);
}

#[test]
fn names_that_are_not_text_are_left_out() {
    let mut names = raw(&["eth0"]);
    names.push(vec![0x65, 0xff]);
    assert_eq!(list_interfaces(&names), vec!["eth0"]);
}

#[test]
fn order_is_by_bytes() {
    assert!(text_at_most("", ""));
    assert!(text_at_most("", "a"));
    assert!(!text_at_most("a", ""));
    assert!(text_at_most("Z", "a"));
    assert!(text_at_most("eth", "eth0"));
    assert!(!text_at_most("eth0", "eth"));
    assert!(text_at_most("eth10", "eth2"));
    assert!(text_at_most("z", "é"));
}

#[test]
fn eth0_is_used_where_none_is_chosen() {
    assert_eq!(interfaces_or_default(Vec::new()), vec!["eth0"]);
    assert_eq!(
        interfaces_or_default(vec!["wlan0".to_string(), "eth1".to_string()]),
        vec!["wlan0", "eth1"]
    );
}
