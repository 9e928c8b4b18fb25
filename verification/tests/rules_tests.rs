use ehosts::rules::{
    answer_query, char_is_white_space, join_labels, match_rule, rule_body, rule_fields, rules_for,
    Pattern, Rule,
};
use ehosts::{DnsMsg, Header, IpAddr, Question, Rdata};

fn query(labels: &[&str]) -> DnsMsg {
    DnsMsg {
        head: Header { id: 77, qe: 256, qdc: 1, anc: 0, nsc: 0, arc: 0 },
        ques: vec![Question {
            qname: labels.iter().map(|s| s.to_string()).collect(),
            qtype: 1,
            qclass: 1,
        }],
        ansr: vec![],
        auth: vec![],
        addi: vec![],
    }
}

fn rule(ip: [u8; 4], pattern: &str) -> Rule {
    Rule { ip: IpAddr::V4(ip), patt: Pattern::new(pattern).unwrap() }
}

#[test]
fn join_labels_puts_dots_between_labels() {
    let labels: Vec<String> = vec!["www".into(), "google".into(), "com".into()];
    assert_eq!(join_labels(&labels), "www.google.com");
    assert_eq!(join_labels(&vec![]), "");
    assert_eq!(join_labels(&vec!["one".to_string()]), "one");
}

#[test]
fn answer_query_makes_a_response() {
    let mut msg = query(&["a", "b"]);
    answer_query(&mut msg, &IpAddr::V4([10, 1, 2, 3]));
    assert_eq!(msg.head.qe, 0x8180);
    assert_eq!(msg.head.anc, 1);
    assert_eq!(msg.head.id, 77);
    assert_eq!(msg.ansr.len(), 1);
    let r = &msg.ansr[0];
    assert_eq!(r.name, msg.ques[0].qname);
    assert_eq!((r.tp, r.class, r.ttl, r.rdlen), (1, 1, 299, 4));
    assert_eq!(r.rdata, Rdata::Ipv4([10, 1, 2, 3]));
    let mut msg = query(&["a"]);
    answer_query(&mut msg, &IpAddr::V6([1, 2, 3, 4, 5, 6, 7, 8]));
    assert_eq!(msg.ansr[0].rdata, Rdata::Ipv6([1, 2, 3, 4, 5, 6, 7, 8]));
}

#[test]
fn match_rule_answers_with_the_first_matching_rule() {
    let rules = vec![
        rule([1, 1, 1, 1], r"^nothing$"),
        rule([2, 2, 2, 2], r".*\.google\.com"),
        rule([3, 3, 3, 3], r".*"),
    ];
    let mut msg = query(&["www", "google", "com"]);
    assert!(match_rule(&mut msg, &rules));
    assert_eq!(msg.ansr[0].rdata, Rdata::Ipv4([2, 2, 2, 2]));
    assert_eq!(msg.head.qe, 0x8180);
}

#[test]
fn match_rule_leaves_the_message_alone_when_nothing_matches() {
    let rules = vec![rule([1, 1, 1, 1], r"^example\.org$")];
    let mut msg = query(&["www", "google", "com"]);
    assert!(!match_rule(&mut msg, &rules));
    assert_eq!(msg, query(&["www", "google", "com"]));
    let mut empty = DnsMsg::default();
    assert!(!match_rule(&mut empty, &vec![]));
}

#[test]
fn rule_body_strips_the_mark_and_white_space() {
    assert_eq!(rule_body("#$ 192.168.0.1 .*\\.google\\.com"), Some("192.168.0.1 .*\\.google\\.com".to_string()));
    assert_eq!(rule_body("#$#$\t 1.2.3.4  a  \u{3000}"), Some("1.2.3.4  a".to_string()));
    assert_eq!(rule_body("#$"), Some(String::new()));
    assert_eq!(rule_body("# 1.2.3.4 a"), None);
    assert_eq!(rule_body("127.0.0.1 localhost"), None);
}

#[test]
fn rule_fields_splits_on_white_space() {
    let gm = Pattern::white_space().unwrap();
    assert_eq!(gm.as_str(), r"\s+");
    let fields = rule_fields("#$ 1.2.3.4 a.*  b\tc ", &gm).unwrap();
    assert_eq!(fields, vec!["1.2.3.4", "a.*", "b", "c"]);
    assert_eq!(rule_fields("1.2.3.4 a", &gm), None);
}

#[test]
fn rules_for_compiles_every_pattern() {
    let patterns = vec![r".*\.com".to_string(), "^x$".to_string()];
    let rules = rules_for(&IpAddr::V4([5, 6, 7, 8]), &patterns).unwrap();
    assert_eq!(rules.len(), 2);
    assert!(rules[0].patt.is_match("a.com"));
    assert!(!rules[1].patt.is_match("a.com"));
    assert!(rules.iter().all(|r| r.ip == IpAddr::V4([5, 6, 7, 8])));
    assert_eq!(rules[0].patt.as_str(), r".*\.com");
    assert_eq!(rules[1].patt.as_str(), "^x$");
    assert!(rules_for(&IpAddr::V4([0; 4]), &vec!["(".to_string()]).is_none());
}

#[test]
fn white_space_is_the_unicode_property() {
    for c in ['\t', '\n', '\r', ' ', '\u{85}', '\u{a0}', '\u{2009}', '\u{3000}'] {
        assert!(char_is_white_space(c));
        assert_eq!(char_is_white_space(c), c.is_whitespace());
    }
    for c in ['a', '#', '\u{200b}', '0'] {
        assert!(!char_is_white_space(c));
    }
}

#[test]
fn rule_fields_keeps_the_rest_in_the_last_field() {
    let gm = Pattern::white_space().unwrap();
    let line = format!("#$ 1.2.3.4 {}", vec!["p"; 120].join(" "));
    let fields = rule_fields(&line, &gm).unwrap();
    assert_eq!(fields.len(), 100);
    assert_eq!(fields[0], "1.2.3.4");
    assert_eq!(fields[99], vec!["p"; 22].join(" "));
}

#[test]
fn match_rule_answers_with_the_first_of_several_matching_rules() {
    let rules = vec![rule([9, 9, 9, 9], r"google"), rule([2, 2, 2, 2], r".*")];
    let mut msg = query(&["www", "google", "com"]);
    assert!(match_rule(&mut msg, &rules));
    assert_eq!(msg.ansr.len(), 1);
    assert_eq!(msg.ansr[0].rdata, Rdata::Ipv4([9, 9, 9, 9]));
}

#[test]
fn pattern_new_refuses_what_does_not_compile() {
    assert!(Pattern::new("(").is_none());
    let p = Pattern::new("a+b").unwrap();
    assert_eq!(p.as_str(), "a+b");
    assert!(p.is_match("xaab"));
    assert!(!p.is_match("b"));
}
