use ehosts::ports::{port_from_draw, random_port};
use ehosts::resolv::resolv_conf_lines;
use ehosts::text::{str_contains, str_starts_with};

fn lines(ls: &[&str]) -> Vec<String> {
    ls.iter().map(|s| s.to_string()).collect()
}

#[test]
fn the_local_server_goes_before_the_first_server() {
    let out = resolv_conf_lines(&lines(&["# x", "nameserver 8.8.8.8", "nameserver 1.1.1.1"]));
    assert_eq!(out, lines(&["# x", "nameserver 127.0.0.1", "nameserver 8.8.8.8", "nameserver 1.1.1.1"]));
}

#[test]
fn the_local_server_is_not_named_twice() {
    let input = lines(&["nameserver 127.0.0.1", "nameserver 8.8.8.8"]);
    assert_eq!(resolv_conf_lines(&input), input);
}

#[test]
fn the_local_server_is_added_where_no_server_is_named() {
    let out = resolv_conf_lines(&lines(&["search lan"]));
    assert_eq!(out, lines(&["search lan", "nameserver 127.0.0.1"]));
    assert_eq!(resolv_conf_lines(&vec![]), lines(&["nameserver 127.0.0.1"]));
}

#[test]
fn text_helpers_compare_characters() {
    assert!(str_starts_with("nameserver 1", "nameserver"));
    assert!(!str_starts_with("name", "nameserver"));
    assert!(str_contains("a 127.0.0.1 b", "127.0.0.1"));
    assert!(!str_contains("127.0.0.2", "127.0.0.1"));
    assert!(str_contains("x", ""));
}

#[test]
fn ports_are_drawn_from_the_dynamic_range() {
    assert_eq!(port_from_draw(0), 49152);
    assert_eq!(port_from_draw(16381), 65533);
    assert_eq!(port_from_draw(16382), 49152);
    assert_eq!(port_from_draw(65535), 65535 % 16382 + 49152);
    for _ in 0..100 {
        let p = random_port();
        assert!((49152..65534).contains(&p));
    }
}

#[test]
fn changing_the_configuration_twice_changes_nothing_more() {
    for input in [
        lines(&["# x", "nameserver 8.8.8.8", "nameserver 1.1.1.1"]),
        lines(&["search lan"]),
        vec![],
        lines(&["nameserver 127.0.0.1"]),
    ] {
        let once = resolv_conf_lines(&input);
        assert_eq!(resolv_conf_lines(&once), once);
    }
}

#[test]
fn a_server_that_only_resembles_the_local_one_is_not_it() {
    let out = resolv_conf_lines(&lines(&["nameserver 127.0.0.11"]));
    assert_eq!(out, lines(&["nameserver 127.0.0.1", "nameserver 127.0.0.11"]));
    let out = resolv_conf_lines(&lines(&["nameserver 8.8.8.8", "nameserver 127.0.0.1"]));
    assert_eq!(out, lines(&["nameserver 127.0.0.1", "nameserver 8.8.8.8", "nameserver 127.0.0.1"]));
}
