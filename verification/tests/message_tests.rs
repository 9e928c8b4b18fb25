use ehosts::decode::try_to_dns;
use ehosts::encode::encoded_len;
use ehosts::{decode_url, from_dns, from_rr, to_dns, to_rr};
use ehosts::{DnsMsg, Header, Question, Rdata, Reader, Writer, RR};

const PACKET: [u8; 90] = [
    205, 228, 129, 128, 0, 1, 0, 3, 0, 0, 0, 0, 3, 119, 119, 119, 5, 98, 97, 105, 100, 117, 3, 99,
    111, 109, 0, 0, 1, 0, 1, 192, 12, 0, 5, 0, 1, 0, 0, 4, 82, 0, 15, 3, 119, 119, 119, 1, 97, 6,
    115, 104, 105, 102, 101, 110, 192, 22, 192, 43, 0, 1, 0, 1, 0, 0, 0, 208, 0, 4, 119, 75, 218,
    70, 192, 43, 0, 1, 0, 1, 0, 0, 0, 208, 0, 4, 119, 75, 217, 109,
];

fn name(labels: &[&str]) -> Vec<String> {
    labels.iter().map(|s| s.to_string()).collect()
}

#[test]
fn test_to_dns() {
    let buf = PACKET;
    let msg = to_dns(&buf);
    let expected = DnsMsg {
        head: Header { id: 52708, qe: 33152, qdc: 1, anc: 3, nsc: 0, arc: 0 },
        ques: vec![Question { qname: name(&["www", "baidu", "com"]), qtype: 1, qclass: 1 }],
        ansr: vec![
            RR {
                name: name(&["www", "baidu", "com"]),
                tp: 5,
                class: 1,
                ttl: 1106,
                rdlen: 15,
                rdata: Rdata::Cname(name(&["www", "a", "shifen", "com"])),
            },
            RR {
                name: name(&["www", "a", "shifen", "com"]),
                tp: 1,
                class: 1,
                ttl: 208,
                rdlen: 4,
                rdata: Rdata::Ipv4([119, 75, 218, 70]),
            },
            RR {
                name: name(&["www", "a", "shifen", "com"]),
                tp: 1,
                class: 1,
                ttl: 208,
                rdlen: 4,
                rdata: Rdata::Ipv4([119, 75, 217, 109]),
            },
        ],
        auth: vec![],
        addi: vec![],
    };
    assert_eq!(msg, expected);
    assert_eq!(
        format!("{:?}", msg.head),
        "Header { id: 52708, qe: 33152, qdc: 1, anc: 3, nsc: 0, arc: 0 }"
    );
}

#[test]
fn decode_url_follows_a_pointer_and_stops_after_it() {
    let mut reader = Reader::new(&PACKET);
    reader.set_position(31);
    let labels = decode_url(&mut reader);
    assert_eq!(labels, name(&["www", "baidu", "com"]));
    assert_eq!(reader.position(), 33);
}

#[test]
fn decode_url_reads_labels_then_a_pointer() {
    let mut reader = Reader::new(&PACKET);
    reader.set_position(43);
    let labels = decode_url(&mut reader);
    assert_eq!(labels, name(&["www", "a", "shifen", "com"]));
    assert_eq!(reader.position(), 58);
}

#[test]
fn decode_url_of_the_root_name_is_empty() {
    let buf = [0u8, 7];
    let mut reader = Reader::new(&buf);
    assert_eq!(decode_url(&mut reader), Vec::<String>::new());
    assert_eq!(reader.position(), 1);
}

#[test]
fn to_rr_reads_an_ipv4_record() {
    let mut reader = Reader::new(&PACKET);
    reader.set_position(58);
    let r = to_rr(&mut reader);
    assert_eq!(r.name, name(&["www", "a", "shifen", "com"]));
    assert_eq!(r.tp, 1);
    assert_eq!(r.ttl, 208);
    assert_eq!(r.rdata, Rdata::Ipv4([119, 75, 218, 70]));
    assert_eq!(reader.position(), 74);
}

#[test]
fn to_rr_reads_an_ipv6_record_and_a_negative_ttl() {
    let mut buf = vec![0u8, 0, 28, 0, 1, 0xff, 0xff, 0xff, 0xfe, 0, 16];
    buf.extend_from_slice(&[0x20, 0x01, 0x0d, 0xb8, 0, 0, 0, 0, 0, 0, 0, 0, 0, 0, 0, 1]);
    let mut reader = Reader::new(&buf);
    let r = to_rr(&mut reader);
    assert_eq!(r.name, Vec::<String>::new());
    assert_eq!(r.tp, 28);
    assert_eq!(r.ttl, -2);
    assert_eq!(r.rdata, Rdata::Ipv6([0x2001, 0x0db8, 0, 0, 0, 0, 0, 1]));
    assert_eq!(reader.position(), 27);
}

#[test]
fn try_to_dns_refuses_a_short_header() {
    assert_eq!(try_to_dns(&PACKET[..11]), None);
    assert_eq!(try_to_dns(&[]), None);
}

#[test]
fn try_to_dns_refuses_a_truncated_message() {
    assert_eq!(try_to_dns(&PACKET[..89]), None);
    assert!(try_to_dns(&PACKET).is_some());
}

#[test]
fn try_to_dns_refuses_a_pointer_loop() {
    // one question whose name points at itself
    let buf = [0u8, 1, 0, 0, 0, 1, 0, 0, 0, 0, 0, 0, 0xc0, 12, 0, 1, 0, 1];
    assert_eq!(try_to_dns(&buf), None);
    // two pointers that point at each other
    let buf = [0u8, 1, 0, 0, 0, 1, 0, 0, 0, 0, 0, 0, 0xc0, 14, 0xc0, 12, 0, 1, 0, 1];
    assert_eq!(try_to_dns(&buf), None);
}

#[test]
fn try_to_dns_refuses_a_pointer_past_the_end() {
    let buf = [0u8, 1, 0, 0, 0, 1, 0, 0, 0, 0, 0, 0, 0xc0, 200, 0, 1, 0, 1];
    assert_eq!(try_to_dns(&buf), None);
}

#[test]
fn try_to_dns_refuses_a_label_that_is_not_utf8() {
    let buf = [0u8, 1, 0, 0, 0, 1, 0, 0, 0, 0, 0, 0, 1, 0xff, 0, 0, 1, 0, 1];
    assert_eq!(try_to_dns(&buf), None);
    let ok = [0u8, 1, 0, 0, 0, 1, 0, 0, 0, 0, 0, 0, 1, b'a', 0, 0, 1, 0, 1];
    assert_eq!(try_to_dns(&ok).unwrap().ques[0].qname, name(&["a"]));
}

#[test]
fn try_to_dns_refuses_an_unknown_record_type() {
    let buf = [
        0u8, 1, 0, 0, 0, 0, 0, 1, 0, 0, 0, 0, 0, 0, 16, 0, 1, 0, 0, 0, 1, 0, 1, 7,
    ];
    assert_eq!(try_to_dns(&buf), None);
}

#[test]
fn to_dns_skips_authority_and_additional_sections() {
    let buf = [0u8, 9, 0, 0, 0, 0, 0, 0, 0, 5, 0, 7];
    let msg = to_dns(&buf);
    assert_eq!(msg.head.nsc, 5);
    assert_eq!(msg.head.arc, 7);
    assert!(msg.auth.is_empty() && msg.addi.is_empty());
}

fn sample_message() -> DnsMsg {
    DnsMsg {
        head: Header { id: 0x1234, qe: 0x8180, qdc: 1, anc: 2, nsc: 0, arc: 0 },
        ques: vec![Question { qname: name(&["example", "org"]), qtype: 1, qclass: 1 }],
        ansr: vec![
            RR {
                name: name(&["example", "org"]),
                tp: 5,
                class: 1,
                ttl: -1,
                rdlen: 6,
                rdata: Rdata::Cname(name(&["h\u{e9}", "org"])),
            },
            RR {
                name: name(&["h\u{e9}", "org"]),
                tp: 1,
                class: 1,
                ttl: 299,
                rdlen: 4,
                rdata: Rdata::Ipv4([10, 0, 0, 1]),
            },
        ],
        auth: vec![],
        addi: vec![],
    }
}

#[test]
fn from_dns_writes_header_question_and_answers() {
    let msg = sample_message();
    let buf = from_dns(&msg);
    assert_eq!(&buf[..12], &[0x12, 0x34, 0x81, 0x80, 0, 1, 0, 2, 0, 0, 0, 0]);
    assert_eq!(&buf[12..29], &[7, b'e', b'x', b'a', b'm', b'p', b'l', b'e', 3, b'o', b'r', b'g', 0, 0, 1, 0, 1]);
    // the first answer: name, type 5, class 1, ttl -1, rdlen 6, then the alias
    assert_eq!(&buf[29..42], &[7, b'e', b'x', b'a', b'm', b'p', b'l', b'e', 3, b'o', b'r', b'g', 0]);
    assert_eq!(&buf[42..52], &[0, 5, 0, 1, 0xff, 0xff, 0xff, 0xff, 0, 6]);
    assert_eq!(&buf[52..61], &[3, b'h', 0xc3, 0xa9, 3, b'o', b'r', b'g', 0]);
    let n = encoded_len(&msg);
    assert_eq!(n, 61 + 9 + 10 + 4);
    assert_eq!(&buf[n - 4..n], &[10, 0, 0, 1]);
    assert!(buf[n..].iter().all(|b| *b == 0));
}

#[test]
fn to_dns_reads_back_what_from_dns_writes() {
    let msg = sample_message();
    let buf = from_dns(&msg);
    assert_eq!(to_dns(&buf), msg);
}

#[test]
fn from_dns_leaves_out_authority_records_and_ipv6_data() {
    let mut msg = sample_message();
    msg.auth.push(RR { name: name(&["x"]), tp: 1, class: 1, ttl: 1, rdlen: 4, rdata: Rdata::Ipv4([1, 2, 3, 4]) });
    let with_auth = from_dns(&msg);
    assert_eq!(with_auth, from_dns(&sample_message()));
    let v6 = RR { name: vec![], tp: 28, class: 1, ttl: 0, rdlen: 16, rdata: Rdata::Ipv6([1; 8]) };
    let mut w = Writer::new(64);
    from_rr(&mut w, &v6);
    assert_eq!(w.as_slice(), &[0, 0, 28, 0, 1, 0, 0, 0, 0, 0, 16]);
}

#[test]
fn from_dns_cuts_at_512_bytes() {
    let long = "a".repeat(60);
    let labels: Vec<String> = (0..8).map(|_| long.clone()).collect();
    let mut msg = DnsMsg::default();
    for _ in 0..3 {
        msg.ques.push(Question { qname: labels.clone(), qtype: 1, qclass: 1 });
    }
    msg.head.qdc = 3;
    assert_eq!(encoded_len(&msg), 512);
    let buf = from_dns(&msg);
    assert_eq!(buf.len(), 512);
    assert_eq!(buf[12], 60);
    assert_eq!(buf[511], b'a');
}

#[test]
fn from_dns_writes_the_label_length_modulo_256() {
    let mut msg = DnsMsg::default();
    msg.ques.push(Question { qname: vec!["b".repeat(300)], qtype: 1, qclass: 1 });
    let buf = from_dns(&msg);
    assert_eq!(buf[12], 44);
    assert_eq!(buf[13], b'b');
}

#[test]
fn from_rr_stops_at_the_capacity() {
    let r = RR { name: name(&["ab"]), tp: 1, class: 1, ttl: 5, rdlen: 4, rdata: Rdata::Ipv4([9, 9, 9, 9]) };
    let mut w = Writer::new(6);
    from_rr(&mut w, &r);
    assert_eq!(w.as_slice(), &[2, b'a', b'b', 0, 0, 1]);
    let mut w = Writer::new(100);
    from_rr(&mut w, &r);
    assert_eq!(w.as_slice(), &[2, b'a', b'b', 0, 0, 1, 0, 1, 0, 0, 0, 5, 0, 4, 9, 9, 9, 9]);
}

#[test]
fn rdata_default_is_a_private_address() {
    assert_eq!(Rdata::default(), Rdata::Ipv4([192, 168, 0, 1]));
    assert_eq!(RR::default().rdata, Rdata::Ipv4([192, 168, 0, 1]));
}
