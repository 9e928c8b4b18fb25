use ehosts::exchange::{prepare_response, read_query, reply_bytes};
use ehosts::{from_dns, DnsMsg, Header, Question};

fn query() -> DnsMsg {
    DnsMsg {
        head: Header { id: 5, qe: 0x0100, qdc: 1, anc: 3, nsc: 2, arc: 1 },
        ques: vec![Question { qname: vec!["a".to_string(), "b".to_string()], qtype: 1, qclass: 1 }],
        ansr: vec![],
        auth: vec![],
        addi: vec![],
    }
}

#[test]
fn prepare_response_clears_the_counts() {
    let mut msg = query();
    prepare_response(&mut msg);
    assert_eq!(msg.head, Header { id: 5, qe: 256, qdc: 1, anc: 0, nsc: 0, arc: 0 });
    assert_eq!(msg.ques, query().ques);
}

#[test]
fn reply_bytes_frames_tcp_with_the_length() {
    let mut msg = query();
    prepare_response(&mut msg);
    let udp = reply_bytes(&msg, false);
    assert_eq!(udp.len(), 12 + 5 + 4);
    assert_eq!(&udp[..], &from_dns(&msg)[..21]);
    let tcp = reply_bytes(&msg, true);
    assert_eq!(&tcp[..2], &[0, 21]);
    assert_eq!(&tcp[2..], &udp[..]);
}

#[test]
fn read_query_skips_the_tcp_length() {
    let mut msg = query();
    prepare_response(&mut msg);
    let tcp = reply_bytes(&msg, true);
    assert_eq!(read_query(&tcp, true), Some(msg));
    assert_eq!(read_query(&tcp, false), None);
    assert_eq!(read_query(&[0], true), None);
}
