//! Turning a query that arrived into a response, and the bytes that go over
//! UDP or, with a two-byte length in front, over TCP.

use vstd::prelude::*;
use crate::decode::{message_of, try_to_dns};
use crate::encode::{encoded_len, from_dns, message_bytes, padded512};
use crate::message::{DnsMsg, Header, MessageView};
use crate::text::copy_bytes;
use crate::writer::u16_bytes;

verus! {

/// The message made a response that answers nothing yet: flags 256, and no
/// answer, authority or additional record counted.
pub open spec fn cleared(m: MessageView) -> MessageView {
    MessageView {
        head: Header { id: m.head.id, qe: 256, qdc: m.head.qdc, anc: 0, nsc: 0, arc: 0 },
        ques: m.ques,
        ansr: m.ansr,
        auth: m.auth,
        addi: m.addi,
    }
}

/// The message part of what arrived: over TCP what follows the two-byte
/// length, over UDP all of it.
pub open spec fn payload(buf: Seq<u8>, tcp: bool) -> Seq<u8> {
    if !tcp {
        buf
    } else if buf.len() >= 2 {
        buf.skip(2)
    } else {
        Seq::empty()
    }
}

/// The bytes that answer with `m`: as much of it as fits in 512 bytes, over
/// TCP behind its two-byte length.
pub open spec fn reply_of(m: MessageView, tcp: bool) -> Seq<u8> {
    let all = message_bytes(m);
    let n: int = if all.len() <= 512 {
        all.len() as int
    } else {
        512
    };
    if tcp {
        u16_bytes(n as u16) + all.take(n)
    } else {
        all.take(n)
    }
}

/// Makes the query a response that answers nothing yet.
pub fn prepare_response(dns_msg: &mut DnsMsg)
    ensures
        final(dns_msg)@ == cleared(old(dns_msg)@),
{
    dns_msg.head.qe = 256;
    dns_msg.head.anc = 0;
    dns_msg.head.nsc = 0;
    dns_msg.head.arc = 0;
}

/// The query that arrived in `buf`, or `None` where no message can be read
/// from it.
pub fn read_query(buf: &[u8], tcp: bool) -> (r: Option<DnsMsg>)
    ensures
        match r {
            Some(msg) => message_of(payload(buf@, tcp)) == Some(msg@),
            None => message_of(payload(buf@, tcp)) is None,
        },
{
    if !tcp {
        return try_to_dns(buf);
    }
    if buf.len() < 2 {
        let empty: Vec<u8> = Vec::new();
        assert(empty@ =~= payload(buf@, tcp));
        return try_to_dns(empty.as_slice());
    }
    let body = copy_bytes(buf, 2, buf.len() - 2);
    assert(body@ =~= payload(buf@, tcp));
    try_to_dns(body.as_slice())
}

/// The bytes that answer with `msg`.
pub fn reply_bytes(msg: &DnsMsg, tcp: bool) -> (r: Vec<u8>)
    ensures
        r@ == reply_of(msg@, tcp),
{
    let buf = from_dns(msg);
    let n = encoded_len(msg);
    let ghost all = message_bytes(msg@);
    let mut out: Vec<u8> = Vec::new();
    if tcp {
        out.push((n / 0x100) as u8);
        out.push((n % 0x100) as u8);
        assert(out@ =~= u16_bytes(n as u16));
    }
    let ghost front = out@;
    let mut i: usize = 0;
    while i < n
        invariant
            i <= n,
            n <= 512,
            n <= all.len(),
            buf@ == padded512(all),
            out@ == front + all.take(i as int),
        decreases n - i,
    {
        out.push(buf[i]);
        i = i + 1;
        assert(all.take(i as int) =~= all.take(i - 1).push(all[i - 1]));
    }
    proof {
        if !tcp {
            assert(front =~= Seq::<u8>::empty());
        }
        assert(front + all.take(n as int) =~= reply_of(msg@, tcp));
    }
    out
}

} // verus!
