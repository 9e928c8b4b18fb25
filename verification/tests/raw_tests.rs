use ehosts::dns::{as_dns, as_slice, DnsMsg, Header, Question, RR};

const PACKET: [u8; 90] = [
    205, 228, 129, 128, 0, 1, 0, 3, 0, 0, 0, 0, 3, 119, 119, 119, 5, 98, 97, 105, 100, 117, 3, 99,
    111, 109, 0, 0, 1, 0, 1, 192, 12, 0, 5, 0, 1, 0, 0, 4, 82, 0, 15, 3, 119, 119, 119, 1, 97, 6,
    115, 104, 105, 102, 101, 110, 192, 22, 192, 43, 0, 1, 0, 1, 0, 0, 0, 208, 0, 4, 119, 75, 218,
    70, 192, 43, 0, 1, 0, 1, 0, 0, 0, 208, 0, 4, 119, 75, 217, 109,
];

#[test]
fn as_dns_keeps_each_field_as_bytes() {
    let msg = as_dns(&PACKET);
    assert_eq!(msg.head.id, vec![205, 228]);
    assert_eq!(msg.head.anc, vec![0, 3]);
    assert_eq!(msg.ques.len(), 1);
    assert_eq!(msg.ques[0].qname, PACKET[12..27].to_vec());
    assert_eq!(msg.ques[0].qtype, vec![0, 1]);
    assert_eq!(msg.ansr.len(), 3);
    // a name that is only a pointer keeps the pointer's two bytes
    assert_eq!(msg.ansr[0].name, vec![192, 12]);
    assert_eq!(msg.ansr[0].rdlen, vec![0, 15]);
    assert_eq!(msg.ansr[0].rdata, PACKET[43..58].to_vec());
    assert_eq!(msg.ansr[2].rdata, vec![119, 75, 217, 109]);
    assert!(msg.auth.is_empty() && msg.addi.is_empty());
}

#[test]
fn as_slice_gives_back_the_bytes_as_dns_read() {
    let mut msg = as_dns(&PACKET);
    assert_eq!(as_slice(&mut msg), PACKET.to_vec());
    let mut longer = PACKET.to_vec();
    longer.extend_from_slice(&[1, 2, 3]);
    let mut msg = as_dns(&longer);
    assert_eq!(as_slice(&mut msg), PACKET.to_vec());
}

#[test]
fn as_dns_reads_back_what_as_slice_writes() {
    let mut msg = DnsMsg {
        head: Header {
            id: vec![0, 7],
            qe: vec![1, 0],
            qdc: vec![0, 1],
            anc: vec![0, 0],
            nsc: vec![0, 1],
            arc: vec![0, 0],
        },
        ques: vec![Question { qname: vec![1, b'a', 0], qtype: vec![0, 1], qclass: vec![0, 1] }],
        ansr: vec![],
        auth: vec![RR {
            name: vec![0xc0, 12],
            tp: vec![0, 2],
            class: vec![0, 1],
            ttl: vec![0, 0, 1, 0],
            rdlen: vec![0, 3],
            rdata: vec![9, 8, 7],
        }],
        addi: vec![],
    };
    let bytes = as_slice(&mut msg);
    let mut back = as_dns(&bytes);
    assert_eq!(back.auth[0].rdata, vec![9, 8, 7]);
    assert_eq!(back.auth[0].name, vec![0xc0, 12]);
    assert_eq!(back.ques[0].qname, vec![1, b'a', 0]);
    assert_eq!(as_slice(&mut back), bytes);
}
