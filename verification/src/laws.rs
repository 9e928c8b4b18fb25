use vstd::prelude::*;
use vstd::set_lib::set_int_range;
use vstd::utf8::valid_utf8;
use crate::dns;
use crate::decode::{
    header_of, message_of, name_at, question_at, questions_at, raw_name_at, rdata_at, record_at,
    records_at,
};
use crate::encode::{
    header_bytes, label_bytes, labels_bytes, message_bytes, name_bytes, padded512, question_bytes,
    questions_bytes, rdata_bytes, record_bytes, records_bytes,
};
use crate::message::{Header, IpAddr, MessageView, QuestionView, RdataView, RecordView};
use crate::rules::{address_rdata, answered, joined};
use crate::decode::pointer_target;
use crate::reader::{be16, be32, i32_at, signed32, u16_at};
use crate::writer::{i32_bytes, u16_bytes};

verus! {

/// `bytes` stand in `buf` from `pos` on.
pub open spec fn holds_at(buf: Seq<u8>, pos: int, bytes: Seq<u8>) -> bool {
    0 <= pos && pos + bytes.len() <= buf.len() && buf.subrange(pos, pos + bytes.len()) == bytes
}

/// A name that is written without compression: each label 1 to 64 bytes of
/// UTF-8.
pub open spec fn plain_name(labels: Seq<Seq<u8>>) -> bool {
    forall|i: int|
        0 <= i < labels.len() ==> 1 <= (#[trigger] labels[i]).len() <= 64 && valid_utf8(labels[i])
}

/// A record whose data matches its type: an IPv4 address under type 1, a
/// name under type 5.
pub open spec fn plain_record(r: RecordView) -> bool {
    &&& plain_name(r.name)
    &&& match r.rdata {
        RdataView::Ipv4(octets) => r.tp == 1 && octets.len() == 4,
        RdataView::Cname(name) => r.tp == 5 && plain_name(name),
        RdataView::Ipv6(_) => false,
    }
}

/// A message that its own bytes describe: the counts in the header match the
/// sections, nothing stands in the sections that are not written, and every
/// name and record is plain.
pub open spec fn plain_message(m: MessageView) -> bool {
    &&& m.head.qdc == m.ques.len()
    &&& m.head.anc == m.ansr.len()
    &&& m.auth.len() == 0
    &&& m.addi.len() == 0
    &&& forall|i: int| 0 <= i < m.ques.len() ==> plain_name(#[trigger] m.ques[i].qname)
    &&& forall|i: int| 0 <= i < m.ansr.len() ==> plain_record(#[trigger] m.ansr[i])
}

proof fn lemma_holds_split(buf: Seq<u8>, pos: int, a: Seq<u8>, b: Seq<u8>)
    requires
        holds_at(buf, pos, a + b),
    ensures
        holds_at(buf, pos, a),
        holds_at(buf, pos + a.len(), b),
{
    let whole = buf.subrange(pos, pos + (a + b).len());
    assert(whole == a + b);
    assert(buf.subrange(pos, pos + a.len()) =~= whole.subrange(0, a.len() as int));
    assert(whole.subrange(0, a.len() as int) =~= a);
    assert(buf.subrange(pos + a.len(), pos + a.len() + b.len()) =~= whole.subrange(
        a.len() as int,
        (a + b).len() as int,
    ));
    assert(whole.subrange(a.len() as int, (a + b).len() as int) =~= b);
}

proof fn lemma_u16_roundtrip(buf: Seq<u8>, pos: int, v: u16)
    requires
        holds_at(buf, pos, u16_bytes(v)),
    ensures
        be16(buf[pos], buf[pos + 1]) == v,
{
    assert(buf[pos] == buf.subrange(pos, pos + 2)[0]);
    assert(buf[pos + 1] == buf.subrange(pos, pos + 2)[1]);
}

proof fn lemma_i32_roundtrip(buf: Seq<u8>, pos: int, v: i32)
    requires
        holds_at(buf, pos, i32_bytes(v)),
    ensures
        signed32(be32(buf[pos], buf[pos + 1], buf[pos + 2], buf[pos + 3])) == v,
{
    let s = buf.subrange(pos, pos + 4);
    assert(buf[pos] == s[0]);
    assert(buf[pos + 1] == s[1]);
    assert(buf[pos + 2] == s[2]);
    assert(buf[pos + 3] == s[3]);
    let n: int = if v >= 0 {
        v as int
    } else {
        v + 0x1_0000_0000
    };
    assert(0 <= n < 0x1_0000_0000);
    assert((n / 0x100_0000) * 0x100_0000 + (n / 0x1_0000 % 0x100) * 0x1_0000 + (n / 0x100 % 0x100)
        * 0x100 + n % 0x100 == n) by (nonlinear_arith)
        requires
            0 <= n < 0x1_0000_0000,
    ;
}

/// What `Writer::write_u16` writes, `Reader::read_u16` reads back.
pub proof fn lemma_u16_write_read(v: u16)
    ensures
        u16_at(u16_bytes(v), 0) == Some(v),
{
    assert(u16_bytes(v).subrange(0, 2) =~= u16_bytes(v));
    lemma_u16_roundtrip(u16_bytes(v), 0, v);
}

/// What `Writer::write_i32` writes, `Reader::read_i32` reads back.
pub proof fn lemma_i32_write_read(v: i32)
    ensures
        i32_at(i32_bytes(v), 0) == Some(v),
{
    assert(i32_bytes(v).subrange(0, 4) =~= i32_bytes(v));
    lemma_i32_roundtrip(i32_bytes(v), 0, v);
}

/// The labels of a name, the first one split off.
proof fn lemma_labels_bytes_front(labels: Seq<Seq<u8>>)
    requires
        labels.len() > 0,
    ensures
        labels_bytes(labels) == label_bytes(labels[0]) + labels_bytes(labels.drop_first()),
    decreases labels.len(),
{
    if labels.len() == 1 {
        assert(labels.drop_last() =~= Seq::empty());
        assert(labels.drop_first() =~= Seq::empty());
        assert(labels_bytes(labels) =~= label_bytes(labels[0]) + labels_bytes(labels.drop_first()));
    } else {
        lemma_labels_bytes_front(labels.drop_last());
        assert(labels.drop_last().drop_first() =~= labels.drop_first().drop_last());
        assert(labels.drop_first().last() == labels.last());
        assert(labels_bytes(labels) =~= label_bytes(labels[0]) + labels_bytes(labels.drop_first()));
    }
}

/// A plain name reads back as its labels, whatever was visited before.
proof fn lemma_raw_name_roundtrip(buf: Seq<u8>, pos: int, labels: Seq<Seq<u8>>, visited: Set<int>)
    requires
        plain_name(labels),
        holds_at(buf, pos, name_bytes(labels)),
        visited.subset_of(set_int_range(0, buf.len() as int)),
    ensures
        raw_name_at(buf, pos, visited) == Some((labels, pos + name_bytes(labels).len())),
    decreases labels.len(),
{
    if labels.len() == 0 {
        assert(name_bytes(labels) =~= seq![0u8]);
        assert(buf[pos] == buf.subrange(pos, pos + 1)[0]);
        assert(labels =~= Seq::<Seq<u8>>::empty());
    } else {
        let first = labels[0];
        let rest = labels.drop_first();
        lemma_labels_bytes_front(labels);
        assert(name_bytes(labels) =~= label_bytes(first) + name_bytes(rest));
        lemma_holds_split(buf, pos, label_bytes(first), name_bytes(rest));
        assert(buf[pos] == buf.subrange(pos, pos + label_bytes(first).len())[0]);
        assert(buf.subrange(pos + 1, pos + 1 + first.len()) =~= buf.subrange(
            pos,
            pos + label_bytes(first).len(),
        ).subrange(1, 1 + first.len() as int));
        assert(plain_name(rest)) by {
            assert forall|i: int| 0 <= i < rest.len() implies 1 <= (#[trigger] rest[i]).len() <= 64
                && valid_utf8(rest[i]) by {
                assert(rest[i] == labels[i + 1]);
            }
        }
        lemma_raw_name_roundtrip(buf, pos + label_bytes(first).len(), rest, visited);
        assert(label_bytes(first)[0] == first.len() as u8);
        assert(buf[pos] == first.len() as u8);
        assert(buf.subrange(pos + 1, pos + 1 + first.len()) =~= first);
        assert(seq![first] + rest =~= labels);
        assert(raw_name_at(buf, pos + 1 + first.len(), visited) == Some((rest, pos + name_bytes(labels).len())));
    }
}

/// A plain name reads back as its labels.
proof fn lemma_name_roundtrip(buf: Seq<u8>, pos: int, labels: Seq<Seq<u8>>)
    requires
        plain_name(labels),
        holds_at(buf, pos, name_bytes(labels)),
    ensures
        name_at(buf, pos) == Some((labels, pos + name_bytes(labels).len())),
{
    assert(set![pos].subset_of(set_int_range(0, buf.len() as int)));
    lemma_raw_name_roundtrip(buf, pos, labels, set![pos]);
}

proof fn lemma_question_roundtrip(buf: Seq<u8>, pos: int, q: QuestionView)
    requires
        plain_name(q.qname),
        holds_at(buf, pos, question_bytes(q)),
    ensures
        question_at(buf, pos) == Some((q, pos + question_bytes(q).len())),
{
    let n = name_bytes(q.qname);
    lemma_holds_split(buf, pos, n + u16_bytes(q.qtype), u16_bytes(q.qclass));
    lemma_holds_split(buf, pos, n, u16_bytes(q.qtype));
    lemma_name_roundtrip(buf, pos, q.qname);
    lemma_u16_roundtrip(buf, pos + n.len(), q.qtype);
    lemma_u16_roundtrip(buf, pos + n.len() + 2, q.qclass);
}

proof fn lemma_record_roundtrip(buf: Seq<u8>, pos: int, r: RecordView)
    requires
        plain_record(r),
        holds_at(buf, pos, record_bytes(r)),
    ensures
        record_at(buf, pos) == Some((r, pos + record_bytes(r).len())),
{
    let n = name_bytes(r.name);
    let a = n + u16_bytes(r.tp);
    let b = a + u16_bytes(r.class);
    let c = b + i32_bytes(r.ttl);
    let d = c + u16_bytes(r.rdlen);
    lemma_holds_split(buf, pos, d, rdata_bytes(r.rdata));
    lemma_holds_split(buf, pos, c, u16_bytes(r.rdlen));
    lemma_holds_split(buf, pos, b, i32_bytes(r.ttl));
    lemma_holds_split(buf, pos, a, u16_bytes(r.class));
    lemma_holds_split(buf, pos, n, u16_bytes(r.tp));
    lemma_name_roundtrip(buf, pos, r.name);
    let p = pos + n.len();
    lemma_u16_roundtrip(buf, p, r.tp);
    lemma_u16_roundtrip(buf, p + 2, r.class);
    lemma_i32_roundtrip(buf, p + 4, r.ttl);
    lemma_u16_roundtrip(buf, p + 8, r.rdlen);
    match r.rdata {
        RdataView::Ipv4(octets) => {
            assert(rdata_at(buf, r.tp, p + 10) == Some((r.rdata, p + 14)));
        },
        RdataView::Cname(name) => {
            lemma_name_roundtrip(buf, p + 10, name);
        },
        RdataView::Ipv6(_) => {},
    }
}

proof fn lemma_questions_roundtrip(buf: Seq<u8>, pos: int, qs: Seq<QuestionView>)
    requires
        forall|i: int| 0 <= i < qs.len() ==> plain_name(#[trigger] qs[i].qname),
        holds_at(buf, pos, questions_bytes(qs)),
    ensures
        questions_at(buf, pos, qs.len()) == Some((qs, pos + questions_bytes(qs).len())),
    decreases qs.len(),
{
    if qs.len() == 0 {
        assert(questions_at(buf, pos, 0) == Some((Seq::<QuestionView>::empty(), pos)));
        assert(qs =~= Seq::<QuestionView>::empty());
    } else {
        let front = qs.drop_last();
        lemma_holds_split(buf, pos, questions_bytes(front), question_bytes(qs.last()));
        lemma_questions_roundtrip(buf, pos, front);
        assert(plain_name(qs[qs.len() - 1].qname));
        lemma_question_roundtrip(buf, pos + questions_bytes(front).len(), qs.last());
        assert(front.len() == (qs.len() - 1) as nat);
        assert(front.push(qs.last()) =~= qs);
    }
}

proof fn lemma_records_roundtrip(buf: Seq<u8>, pos: int, rs: Seq<RecordView>)
    requires
        forall|i: int| 0 <= i < rs.len() ==> plain_record(#[trigger] rs[i]),
        holds_at(buf, pos, records_bytes(rs)),
    ensures
        records_at(buf, pos, rs.len()) == Some((rs, pos + records_bytes(rs).len())),
    decreases rs.len(),
{
    if rs.len() == 0 {
        assert(records_at(buf, pos, 0) == Some((Seq::<RecordView>::empty(), pos)));
        assert(rs =~= Seq::<RecordView>::empty());
    } else {
        let front = rs.drop_last();
        lemma_holds_split(buf, pos, records_bytes(front), record_bytes(rs.last()));
        lemma_records_roundtrip(buf, pos, front);
        assert(plain_record(rs[rs.len() - 1]));
        lemma_record_roundtrip(buf, pos + records_bytes(front).len(), rs.last());
        assert(front.len() == (rs.len() - 1) as nat);
        assert(front.push(rs.last()) =~= rs);
    }
}

proof fn lemma_header_roundtrip(buf: Seq<u8>, h: Header)
    requires
        holds_at(buf, 0, header_bytes(h)),
    ensures
        buf.len() >= 12,
        header_of(buf) == h,
{
    let hs = u16_bytes(h.id) + u16_bytes(h.qe) + u16_bytes(h.qdc) + u16_bytes(h.anc) + u16_bytes(
        h.nsc,
    );
    lemma_holds_split(buf, 0, hs, u16_bytes(h.arc));
    let hs4 = u16_bytes(h.id) + u16_bytes(h.qe) + u16_bytes(h.qdc) + u16_bytes(h.anc);
    lemma_holds_split(buf, 0, hs4, u16_bytes(h.nsc));
    let hs3 = u16_bytes(h.id) + u16_bytes(h.qe) + u16_bytes(h.qdc);
    lemma_holds_split(buf, 0, hs3, u16_bytes(h.anc));
    let hs2 = u16_bytes(h.id) + u16_bytes(h.qe);
    lemma_holds_split(buf, 0, hs2, u16_bytes(h.qdc));
    lemma_holds_split(buf, 0, u16_bytes(h.id), u16_bytes(h.qe));
    lemma_u16_roundtrip(buf, 0, h.id);
    lemma_u16_roundtrip(buf, 2, h.qe);
    lemma_u16_roundtrip(buf, 4, h.qdc);
    lemma_u16_roundtrip(buf, 6, h.anc);
    lemma_u16_roundtrip(buf, 8, h.nsc);
    lemma_u16_roundtrip(buf, 10, h.arc);
}

proof fn lemma_padded_holds(all: Seq<u8>)
    requires
        all.len() <= 512,
    ensures
        holds_at(padded512(all), 0, all),
{
    assert(padded512(all).subrange(0, all.len() as int) =~= all);
}

/// What `from_dns` writes, `to_dns` reads back: a plain message that fits in
/// 512 bytes comes back unchanged from the buffer that holds it.
pub proof fn lemma_from_dns_to_dns(m: MessageView)
    requires
        plain_message(m),
        message_bytes(m).len() <= 512,
    ensures
        message_of(padded512(message_bytes(m))) == Some(m),
{
    let all = message_bytes(m);
    let buf = padded512(all);
    let h = header_bytes(m.head);
    let q = questions_bytes(m.ques);
    lemma_padded_holds(all);
    assert(buf.len() == 512);
    lemma_holds_split(buf, 0, h + q, records_bytes(m.ansr));
    lemma_holds_split(buf, 0, h, q);
    lemma_header_roundtrip(buf, m.head);
    let p = 12 + q.len() as int;
    assert(h.len() == 12);
    assert(holds_at(buf, 12, q));
    assert(forall|i: int| 0 <= i < m.ques.len() ==> plain_name(#[trigger] m.ques[i].qname));
    lemma_questions_roundtrip(buf, 12, m.ques);
    assert(questions_at(buf, 12, m.head.qdc as nat) == Some((m.ques, p)));
    assert(holds_at(buf, p, records_bytes(m.ansr)));
    assert(forall|i: int| 0 <= i < m.ansr.len() ==> plain_record(#[trigger] m.ansr[i]));
    lemma_records_roundtrip(buf, p, m.ansr);
    assert(records_at(buf, p, m.head.anc as nat) == Some(
        (m.ansr, p + records_bytes(m.ansr).len()),
    ));
    assert(m.auth =~= Seq::<RecordView>::empty());
    assert(m.addi =~= Seq::<RecordView>::empty());
}

/// Where the name at `pos` ends lies past `pos`, within the buffer.
proof fn lemma_label_end_bounds(buf: Seq<u8>, pos: int)
    ensures
        dns::label_end(buf, pos) matches Some(e) ==> 0 <= pos < e <= buf.len(),
    decreases buf.len() - pos,
{
    if 0 <= pos < buf.len() {
        let j = buf[pos];
        if 1 <= j <= 64 && pos + 1 + j <= buf.len() {
            lemma_label_end_bounds(buf, pos + 1 + j);
        }
    }
}

/// Where a name ends depends only on its own bytes.
proof fn lemma_label_end_local(buf: Seq<u8>, pos: int, s: Seq<u8>, i: int)
    requires
        holds_at(buf, pos, s),
        0 <= i,
        dns::label_end(s, i) is Some,
    ensures
        dns::label_end(buf, pos + i) == Some(pos + dns::label_end(s, i).unwrap()),
    decreases s.len() - i,
{
    assert(buf[pos + i] == buf.subrange(pos, pos + s.len())[i]);
    let j = s[i];
    if 1 <= j <= 64 {
        lemma_label_end_local(buf, pos, s, i + 1 + j);
    } else if j != 0 {
        assert(buf[pos + i + 1] == buf.subrange(pos, pos + s.len())[i + 1]);
    }
}

/// The raw questions read between `pos` and `end` are those bytes.
proof fn lemma_raw_questions_bytes(buf: Seq<u8>, pos: int, n: nat)
    requires
        0 <= pos <= buf.len(),
    ensures
        dns::questions_at(buf, pos, n) matches Some((qs, end)) ==> pos <= end <= buf.len()
            && dns::questions_bytes(qs) == buf.subrange(pos, end),
    decreases n,
{
    if n == 0 {
        assert(buf.subrange(pos, pos) =~= Seq::<u8>::empty());
    } else {
        lemma_raw_questions_bytes(buf, pos, (n - 1) as nat);
        if let Some((qs, p)) = dns::questions_at(buf, pos, (n - 1) as nat) {
            lemma_label_end_bounds(buf, p);
            if let Some((q, end)) = dns::question_at(buf, p) {
                let all = qs.push(q);
                assert(all.drop_last() =~= qs);
                assert(buf.subrange(pos, end) =~= buf.subrange(pos, p) + dns::question_bytes(q));
            }
        }
    }
}

/// The raw records read between `pos` and `end` are those bytes.
proof fn lemma_raw_records_bytes(buf: Seq<u8>, pos: int, n: nat)
    requires
        0 <= pos <= buf.len(),
    ensures
        dns::records_at(buf, pos, n) matches Some((rs, end)) ==> pos <= end <= buf.len()
            && dns::records_bytes(rs) == buf.subrange(pos, end),
    decreases n,
{
    if n == 0 {
        assert(buf.subrange(pos, pos) =~= Seq::<u8>::empty());
    } else {
        lemma_raw_records_bytes(buf, pos, (n - 1) as nat);
        if let Some((rs, p)) = dns::records_at(buf, pos, (n - 1) as nat) {
            lemma_label_end_bounds(buf, p);
            if let Some((r, end)) = dns::record_at(buf, p) {
                let all = rs.push(r);
                assert(all.drop_last() =~= rs);
                assert(buf.subrange(pos, end) =~= buf.subrange(pos, p) + dns::record_bytes(r));
            }
        }
    }
}

/// What `as_slice` gives back of a message that `as_dns` read is exactly the
/// bytes that it was read from.
pub proof fn lemma_as_dns_as_slice(buf: Seq<u8>)
    ensures
        dns::message_at(buf) matches Some((m, end)) ==> 12 <= end <= buf.len()
            && dns::message_bytes(m) == buf.subrange(0, end),
{
    if let Some((m, end)) = dns::message_at(buf) {
        let head = dns::header_at(buf);
        assert(dns::header_bytes(head) =~= buf.subrange(0, 12));
        lemma_raw_questions_bytes(buf, 12, dns::count_of(head.qdc));
        let (_, p1) = dns::questions_at(buf, 12, dns::count_of(head.qdc)).unwrap();
        lemma_raw_records_bytes(buf, p1, dns::count_of(head.anc));
        let (_, p2) = dns::records_at(buf, p1, dns::count_of(head.anc)).unwrap();
        lemma_raw_records_bytes(buf, p2, dns::count_of(head.nsc));
        let (_, p3) = dns::records_at(buf, p2, dns::count_of(head.nsc)).unwrap();
        lemma_raw_records_bytes(buf, p3, dns::count_of(head.arc));
        assert(buf.subrange(0, end) =~= buf.subrange(0, 12) + buf.subrange(12, p1) + buf.subrange(
            p1,
            p2,
        ) + buf.subrange(p2, p3) + buf.subrange(p3, end));
    }
}

/// A name as it stands on the wire, ending where its own bytes say.
pub open spec fn raw_name_ok(name: Seq<u8>) -> bool {
    dns::label_end(name, 0) == Some(name.len() as int)
}

/// A raw question whose fields have their wire lengths.
pub open spec fn raw_question_ok(q: dns::QuestionView) -> bool {
    raw_name_ok(q.qname) && q.qtype.len() == 2 && q.qclass.len() == 2
}

/// A raw record whose fields have their wire lengths, its data as long as
/// its length field says.
pub open spec fn raw_record_ok(r: dns::RecordView) -> bool {
    &&& raw_name_ok(r.name)
    &&& r.tp.len() == 2
    &&& r.class.len() == 2
    &&& r.ttl.len() == 4
    &&& r.rdlen.len() == 2
    &&& r.rdata.len() == dns::count_of(r.rdlen)
}

/// A raw message whose header fields are two bytes each, whose counts match
/// its sections, and whose entries are all well formed.
pub open spec fn raw_message_ok(m: dns::MessageView) -> bool {
    &&& m.head.id.len() == 2
    &&& m.head.qe.len() == 2
    &&& m.head.qdc.len() == 2
    &&& m.head.anc.len() == 2
    &&& m.head.nsc.len() == 2
    &&& m.head.arc.len() == 2
    &&& dns::count_of(m.head.qdc) == m.ques.len()
    &&& dns::count_of(m.head.anc) == m.ansr.len()
    &&& dns::count_of(m.head.nsc) == m.auth.len()
    &&& dns::count_of(m.head.arc) == m.addi.len()
    &&& forall|i: int| 0 <= i < m.ques.len() ==> raw_question_ok(#[trigger] m.ques[i])
    &&& forall|i: int| 0 <= i < m.ansr.len() ==> raw_record_ok(#[trigger] m.ansr[i])
    &&& forall|i: int| 0 <= i < m.auth.len() ==> raw_record_ok(#[trigger] m.auth[i])
    &&& forall|i: int| 0 <= i < m.addi.len() ==> raw_record_ok(#[trigger] m.addi[i])
}

proof fn lemma_raw_question_read(buf: Seq<u8>, pos: int, q: dns::QuestionView)
    requires
        raw_question_ok(q),
        holds_at(buf, pos, dns::question_bytes(q)),
    ensures
        dns::question_at(buf, pos) == Some((q, pos + dns::question_bytes(q).len())),
{
    lemma_holds_split(buf, pos, q.qname + q.qtype, q.qclass);
    lemma_holds_split(buf, pos, q.qname, q.qtype);
    lemma_label_end_local(buf, pos, q.qname, 0);
}

proof fn lemma_raw_record_read(buf: Seq<u8>, pos: int, r: dns::RecordView)
    requires
        raw_record_ok(r),
        holds_at(buf, pos, dns::record_bytes(r)),
    ensures
        dns::record_at(buf, pos) == Some((r, pos + dns::record_bytes(r).len())),
{
    let a = r.name + r.tp;
    let b = a + r.class;
    let c = b + r.ttl;
    let d = c + r.rdlen;
    lemma_holds_split(buf, pos, d, r.rdata);
    lemma_holds_split(buf, pos, c, r.rdlen);
    lemma_holds_split(buf, pos, b, r.ttl);
    lemma_holds_split(buf, pos, a, r.class);
    lemma_holds_split(buf, pos, r.name, r.tp);
    lemma_label_end_local(buf, pos, r.name, 0);
}

proof fn lemma_raw_questions_read(buf: Seq<u8>, pos: int, qs: Seq<dns::QuestionView>)
    requires
        forall|i: int| 0 <= i < qs.len() ==> raw_question_ok(#[trigger] qs[i]),
        holds_at(buf, pos, dns::questions_bytes(qs)),
    ensures
        dns::questions_at(buf, pos, qs.len()) == Some((qs, pos + dns::questions_bytes(qs).len())),
    decreases qs.len(),
{
    if qs.len() == 0 {
        assert(qs =~= Seq::<dns::QuestionView>::empty());
    } else {
        let front = qs.drop_last();
        lemma_holds_split(buf, pos, dns::questions_bytes(front), dns::question_bytes(qs.last()));
        lemma_raw_questions_read(buf, pos, front);
        assert(raw_question_ok(qs[qs.len() - 1]));
        lemma_raw_question_read(buf, pos + dns::questions_bytes(front).len(), qs.last());
        assert(front.len() == (qs.len() - 1) as nat);
        assert(front.push(qs.last()) =~= qs);
    }
}

proof fn lemma_raw_records_read(buf: Seq<u8>, pos: int, rs: Seq<dns::RecordView>)
    requires
        forall|i: int| 0 <= i < rs.len() ==> raw_record_ok(#[trigger] rs[i]),
        holds_at(buf, pos, dns::records_bytes(rs)),
    ensures
        dns::records_at(buf, pos, rs.len()) == Some((rs, pos + dns::records_bytes(rs).len())),
    decreases rs.len(),
{
    if rs.len() == 0 {
        assert(rs =~= Seq::<dns::RecordView>::empty());
    } else {
        let front = rs.drop_last();
        lemma_holds_split(buf, pos, dns::records_bytes(front), dns::record_bytes(rs.last()));
        lemma_raw_records_read(buf, pos, front);
        assert(raw_record_ok(rs[rs.len() - 1]));
        lemma_raw_record_read(buf, pos + dns::records_bytes(front).len(), rs.last());
        assert(front.len() == (rs.len() - 1) as nat);
        assert(front.push(rs.last()) =~= rs);
    }
}

/// What `as_slice` writes of a well-formed message, `as_dns` reads back
/// unchanged, taking all of the bytes.
pub proof fn lemma_as_slice_as_dns(m: dns::MessageView)
    requires
        raw_message_ok(m),
    ensures
        dns::message_at(dns::message_bytes(m)) == Some((m, dns::message_bytes(m).len() as int)),
{
    let buf = dns::message_bytes(m);
    let h = dns::header_bytes(m.head);
    let q = dns::questions_bytes(m.ques);
    let a = dns::records_bytes(m.ansr);
    let t = dns::records_bytes(m.auth);
    let d = dns::records_bytes(m.addi);
    assert(buf.subrange(0, buf.len() as int) =~= buf);
    lemma_holds_split(buf, 0, h + q + a + t, d);
    lemma_holds_split(buf, 0, h + q + a, t);
    lemma_holds_split(buf, 0, h + q, a);
    lemma_holds_split(buf, 0, h, q);
    assert(h.len() == 12);
    let head = dns::header_at(buf);
    assert(head.id =~= m.head.id);
    assert(head.qe =~= m.head.qe);
    assert(head.qdc =~= m.head.qdc);
    assert(head.anc =~= m.head.anc);
    assert(head.nsc =~= m.head.nsc);
    assert(head.arc =~= m.head.arc);
    assert(head == m.head);
    let p1 = 12 + q.len() as int;
    let p2 = p1 + a.len() as int;
    let p3 = p2 + t.len() as int;
    assert(forall|i: int| 0 <= i < m.ques.len() ==> raw_question_ok(#[trigger] m.ques[i]));
    lemma_raw_questions_read(buf, 12, m.ques);
    assert(forall|i: int| 0 <= i < m.ansr.len() ==> raw_record_ok(#[trigger] m.ansr[i]));
    lemma_raw_records_read(buf, p1, m.ansr);
    assert(forall|i: int| 0 <= i < m.auth.len() ==> raw_record_ok(#[trigger] m.auth[i]));
    lemma_raw_records_read(buf, p2, m.auth);
    assert(forall|i: int| 0 <= i < m.addi.len() ==> raw_record_ok(#[trigger] m.addi[i]));
    lemma_raw_records_read(buf, p3, m.addi);
}

/// The 32-bit pattern of a time to live: the number itself, or 2^32 more
/// where it is negative.
pub open spec fn ttl_pattern(ttl: i32) -> int {
    if ttl >= 0 {
        ttl as int
    } else {
        ttl + 0x1_0000_0000
    }
}

/// A decoded question's type is the big-endian number in the two bytes right
/// after its name, and its class the number in the two bytes after those;
/// the question ends there.
pub proof fn lemma_question_fields(buf: Seq<u8>, pos: int)
    ensures
        question_at(buf, pos) matches Some((q, e)) ==> name_at(buf, pos) matches Some((name, p))
            && q.qname == name && e == p + 4 && p + 4 <= buf.len() && q.qtype as int == buf[p]
            as int * 256 + buf[p + 1] as int && q.qclass as int == buf[p + 2] as int * 256 + buf[p
            + 3] as int,
{
}

/// A decoded record's type, class, time to live and data length stand, in
/// that order and big-endian, in the ten bytes right after its name; the
/// time to live is the four bytes read as a two's-complement number; the
/// data follows them.
pub proof fn lemma_record_fields(buf: Seq<u8>, pos: int)
    ensures
        record_at(buf, pos) matches Some((r, e)) ==> name_at(buf, pos) matches Some((name, p))
            && r.name == name && p + 10 <= buf.len() && r.tp as int == buf[p] as int * 256
            + buf[p + 1] as int && r.class as int == buf[p + 2] as int * 256 + buf[p + 3] as int
            && ttl_pattern(r.ttl) == buf[p + 4] as int * 0x100_0000 + buf[p + 5] as int
            * 0x1_0000 + buf[p + 6] as int * 0x100 + buf[p + 7] as int && r.rdlen as int == buf[p
            + 8] as int * 256 + buf[p + 9] as int && rdata_at(buf, r.tp, p + 10) == Some(
            (r.rdata, e),
        ),
{
    if let Some((r, e)) = record_at(buf, pos) {
        let (name, p) = name_at(buf, pos).unwrap();
        let n = buf[p + 4] as int * 0x100_0000 + buf[p + 5] as int * 0x1_0000 + buf[p + 6] as int
            * 0x100 + buf[p + 7] as int;
        assert(0 <= n < 0x1_0000_0000);
        assert(be32(buf[p + 4], buf[p + 5], buf[p + 6], buf[p + 7]) as int == n);
    }
}

/// An encoded question is its name, then its type and its class, each as
/// two big-endian bytes.
pub proof fn lemma_question_bytes_fields(q: QuestionView)
    ensures
        ({
            let b = question_bytes(q);
            let k = name_bytes(q.qname).len() as int;
            &&& b.len() == k + 4
            &&& b.subrange(0, k) == name_bytes(q.qname)
            &&& b[k] as int * 256 + b[k + 1] as int == q.qtype as int
            &&& b[k + 2] as int * 256 + b[k + 3] as int == q.qclass as int
        }),
{
    let b = question_bytes(q);
    let k = name_bytes(q.qname).len() as int;
    assert(b.subrange(0, k) =~= name_bytes(q.qname));
    assert(b[k] == u16_bytes(q.qtype)[0]);
    assert(b[k + 1] == u16_bytes(q.qtype)[1]);
    assert(b[k + 2] == u16_bytes(q.qclass)[0]);
    assert(b[k + 3] == u16_bytes(q.qclass)[1]);
}

/// An encoded record is its name, then its type, class, time to live and data
/// length, big-endian, the time to live as its two's-complement pattern, then
/// its data.
pub proof fn lemma_record_bytes_fields(r: RecordView)
    ensures
        ({
            let b = record_bytes(r);
            let k = name_bytes(r.name).len() as int;
            &&& b.len() == k + 10 + rdata_bytes(r.rdata).len()
            &&& b.subrange(0, k) == name_bytes(r.name)
            &&& b[k] as int * 256 + b[k + 1] as int == r.tp as int
            &&& b[k + 2] as int * 256 + b[k + 3] as int == r.class as int
            &&& b[k + 4] as int * 0x100_0000 + b[k + 5] as int * 0x1_0000 + b[k + 6] as int * 0x100
                + b[k + 7] as int == ttl_pattern(r.ttl)
            &&& b[k + 8] as int * 256 + b[k + 9] as int == r.rdlen as int
            &&& b.subrange(k + 10, b.len() as int) == rdata_bytes(r.rdata)
        }),
{
    let b = record_bytes(r);
    let k = name_bytes(r.name).len() as int;
    let t = i32_bytes(r.ttl);
    assert(b.subrange(0, k) =~= name_bytes(r.name));
    assert(b.subrange(k + 10, b.len() as int) =~= rdata_bytes(r.rdata));
    assert(b[k] == u16_bytes(r.tp)[0]);
    assert(b[k + 1] == u16_bytes(r.tp)[1]);
    assert(b[k + 2] == u16_bytes(r.class)[0]);
    assert(b[k + 3] == u16_bytes(r.class)[1]);
    assert(b[k + 4] == t[0]);
    assert(b[k + 5] == t[1]);
    assert(b[k + 6] == t[2]);
    assert(b[k + 7] == t[3]);
    assert(b[k + 8] == u16_bytes(r.rdlen)[0]);
    assert(b[k + 9] == u16_bytes(r.rdlen)[1]);
    let n = ttl_pattern(r.ttl);
    assert((n / 0x100_0000) * 0x100_0000 + (n / 0x1_0000 % 0x100) * 0x1_0000 + (n / 0x100 % 0x100)
        * 0x100 + n % 0x100 == n) by (nonlinear_arith)
        requires
            0 <= n < 0x1_0000_0000,
    ;
}

/// A raw question is the name as it stands, then the two bytes after the
/// name's end as its type and the two after those as its class.
pub proof fn lemma_raw_question_fields(buf: Seq<u8>, pos: int)
    ensures
        dns::question_at(buf, pos) matches Some((q, e)) ==> dns::label_end(buf, pos) matches Some(
            n,
        ) && q.qname == buf.subrange(pos, n) && q.qtype == buf.subrange(n, n + 2) && q.qclass
            == buf.subrange(n + 2, n + 4) && e == n + 4,
{
}

/// `as_slice` writes a raw question as its name, then its type, then its
/// class.
pub proof fn lemma_raw_question_bytes_fields(q: dns::QuestionView)
    ensures
        ({
            let b = dns::question_bytes(q);
            let k = q.qname.len() as int;
            let t = q.qtype.len() as int;
            &&& b.len() == k + t + q.qclass.len()
            &&& b.subrange(0, k) == q.qname
            &&& b.subrange(k, k + t) == q.qtype
            &&& b.subrange(k + t, b.len() as int) == q.qclass
        }),
{
    let b = dns::question_bytes(q);
    let k = q.qname.len() as int;
    let t = q.qtype.len() as int;
    assert(b.subrange(0, k) =~= q.qname);
    assert(b.subrange(k, k + t) =~= q.qtype);
    assert(b.subrange(k + t, b.len() as int) =~= q.qclass);
}

/// The name that rules are matched against is all the labels in order, one
/// dot between each two: adding a label adds a dot and the label.
pub proof fn lemma_joined_push(parts: Seq<Seq<char>>, label: Seq<char>)
    ensures
        parts.len() == 0 ==> joined(parts.push(label)) == label,
        parts.len() > 0 ==> joined(parts.push(label)) == joined(parts) + seq!['.'] + label,
{
    assert(parts.push(label).drop_last() =~= parts);
    if parts.len() == 0 {
        assert(parts.push(label)[0] == label);
    }
}

/// The length of the name that rules are matched against: the lengths of
/// the labels and one dot between each two.
pub proof fn lemma_joined_len(parts: Seq<Seq<char>>)
    ensures
        parts.len() > 0 ==> joined(parts).len() + 1 == labels_len(parts) + parts.len(),
    decreases parts.len(),
{
    if parts.len() == 1 {
        assert(labels_len(parts.drop_last()) == 0);
        assert(parts.last() == parts[0]);
    } else if parts.len() > 1 {
        lemma_joined_len(parts.drop_last());
    }
}

/// The lengths of the labels, added up.
pub open spec fn labels_len(parts: Seq<Seq<char>>) -> int
    decreases parts.len(),
{
    if parts.len() == 0 {
        0
    } else {
        labels_len(parts.drop_last()) + parts.last().len()
    }
}

/// A query whose header counts its sections, with one question and nothing
/// else, answered from a rule: the response keeps the query's id and its
/// question, carries one answer that names the question and gives the
/// rule's address, and its header still counts exactly the sections it
/// carries.
pub proof fn lemma_answered_counts(m: MessageView, ip: IpAddr)
    requires
        m.ques.len() == 1,
        m.head.qdc == 1,
        m.ansr.len() == 0,
        m.auth.len() == 0,
        m.addi.len() == 0,
    ensures
        ({
            let a = answered(m, ip);
            &&& a.head.id == m.head.id
            &&& a.ques == m.ques
            &&& a.head.qdc == a.ques.len()
            &&& a.head.anc == a.ansr.len()
            &&& a.head.nsc == a.auth.len()
            &&& a.head.arc == a.addi.len()
            &&& a.head.qe == 0x8180
            &&& a.ansr.len() == 1
            &&& a.ansr[0].name == m.ques[0].qname
            &&& a.ansr[0].tp == 1
            &&& a.ansr[0].class == 1
            &&& a.ansr[0].ttl == 299
            &&& a.ansr[0].rdlen == 4
            &&& a.ansr[0].rdata == address_rdata(ip)
        }),
{
}

/// An IPv4 answer to a plain query is itself a plain message: what
/// `from_dns` writes of it, `to_dns` reads back.
pub proof fn lemma_answered_plain(m: MessageView, octets: [u8; 4])
    requires
        m.ques.len() == 1,
        m.head.qdc == 1,
        m.ansr.len() == 0,
        m.auth.len() == 0,
        m.addi.len() == 0,
        plain_name(m.ques[0].qname),
    ensures
        plain_message(answered(m, IpAddr::V4(octets))),
{
    let a = answered(m, IpAddr::V4(octets));
    assert(a.ansr[0].rdata == RdataView::Ipv4(octets@));
    assert(plain_record(a.ansr[0]));
}

/// The header is the first twelve bytes: id, flags and the four counts,
/// each two bytes big-endian, in that order.
pub proof fn lemma_header_fields(buf: Seq<u8>)
    requires
        buf.len() >= 12,
    ensures
        header_of(buf).id as int == buf[0] as int * 256 + buf[1] as int,
        header_of(buf).qe as int == buf[2] as int * 256 + buf[3] as int,
        header_of(buf).qdc as int == buf[4] as int * 256 + buf[5] as int,
        header_of(buf).anc as int == buf[6] as int * 256 + buf[7] as int,
        header_of(buf).nsc as int == buf[8] as int * 256 + buf[9] as int,
        header_of(buf).arc as int == buf[10] as int * 256 + buf[11] as int,
        message_of(buf) matches Some(m) ==> m.head == header_of(buf),
{
}

/// An encoded header is id, flags and the four counts, each two bytes
/// big-endian, in that order.
pub proof fn lemma_header_bytes_fields(h: Header)
    ensures
        ({
            let b = header_bytes(h);
            &&& b.len() == 12
            &&& b[0] as int * 256 + b[1] as int == h.id as int
            &&& b[2] as int * 256 + b[3] as int == h.qe as int
            &&& b[4] as int * 256 + b[5] as int == h.qdc as int
            &&& b[6] as int * 256 + b[7] as int == h.anc as int
            &&& b[8] as int * 256 + b[9] as int == h.nsc as int
            &&& b[10] as int * 256 + b[11] as int == h.arc as int
        }),
{
    let b = header_bytes(h);
    assert(b[0] == u16_bytes(h.id)[0] && b[1] == u16_bytes(h.id)[1]);
    assert(b[2] == u16_bytes(h.qe)[0] && b[3] == u16_bytes(h.qe)[1]);
    assert(b[4] == u16_bytes(h.qdc)[0] && b[5] == u16_bytes(h.qdc)[1]);
    assert(b[6] == u16_bytes(h.anc)[0] && b[7] == u16_bytes(h.anc)[1]);
    assert(b[8] == u16_bytes(h.nsc)[0] && b[9] == u16_bytes(h.nsc)[1]);
    assert(b[10] == u16_bytes(h.arc)[0] && b[11] == u16_bytes(h.arc)[1]);
}

/// Record data: an IPv4 address is the four bytes in order; an IPv6 address
/// is eight big-endian 16-bit segments in order; an alias is the name that
/// stands there; no other type is read.
pub proof fn lemma_rdata_fields(buf: Seq<u8>, tp: u16, pos: int)
    ensures
        rdata_at(buf, tp, pos) matches Some((d, e)) ==> {
            &&& (tp == 1 ==> e == pos + 4 && d == RdataView::Ipv4(buf.subrange(pos, pos + 4)))
            &&& (tp == 28 ==> e == pos + 16 && (d matches RdataView::Ipv6(segs) && segs.len() == 8
                && forall|k: int|
                0 <= k < 8 ==> #[trigger] segs[k] as int == buf[pos + 2 * k] as int * 256 + buf[pos
                    + 2 * k + 1] as int))
            &&& (tp == 5 ==> (d matches RdataView::Cname(n) && name_at(buf, pos) == Some((n, e))))
            &&& (tp == 1 || tp == 28 || tp == 5)
        },
{
}

/// An IPv4 address is written as its four octets in order, an alias as its
/// name.
pub proof fn lemma_rdata_bytes_fields(d: RdataView)
    ensures
        d matches RdataView::Ipv4(o) ==> rdata_bytes(d) == o,
        d matches RdataView::Cname(n) ==> rdata_bytes(d) == name_bytes(n),
{
}

/// The first label of a name read where a length byte from 1 to 64 stands is
/// that many bytes right after it; a 0 byte is the empty name, one byte
/// long; any other byte is a pointer of two bytes, after which the name ends,
/// and the name read is the one found from where the pointer leads.
pub proof fn lemma_name_first_label(buf: Seq<u8>, pos: int)
    ensures
        name_at(buf, pos) matches Some((labels, e)) ==> {
            &&& (1 <= buf[pos] <= 64 ==> labels.len() > 0 && labels[0] == buf.subrange(
                pos + 1,
                pos + 1 + buf[pos],
            ))
            &&& (buf[pos] == 0 ==> labels.len() == 0 && e == pos + 1)
            &&& (buf[pos] > 64 ==> e == pos + 2 && pos + 1 < buf.len() && (raw_name_at(
                buf,
                pointer_target(buf[pos], buf[pos + 1]),
                set![pos, pointer_target(buf[pos], buf[pos + 1])],
            ) matches Some((l2, _)) && l2 == labels))
        },
{
    if 0 <= pos < buf.len() {
        assert(set![pos].subset_of(set_int_range(0, buf.len() as int)));
        let t = pointer_target(buf[pos], buf[pos + 1]);
        if buf[pos] > 64 && pos + 1 < buf.len() && t < buf.len() && t != pos {
            assert(set![pos].insert(t) =~= set![pos, t]);
        }
    }
}

/// An encoded name starts with its first label: the label's length byte and
/// then its bytes; the empty name is the single byte 0.
pub proof fn lemma_name_bytes_front(labels: Seq<Seq<u8>>)
    ensures
        labels.len() == 0 ==> name_bytes(labels) == seq![0u8],
        labels.len() > 0 ==> name_bytes(labels)[0] as int == labels[0].len() % 256
            && name_bytes(labels).subrange(1, 1 + labels[0].len() as int) == labels[0],
{
    if labels.len() == 0 {
        assert(name_bytes(labels) =~= seq![0u8]);
    } else {
        lemma_labels_bytes_front(labels);
        let nb = name_bytes(labels);
        assert(nb =~= label_bytes(labels[0]) + (labels_bytes(labels.drop_first()) + seq![0u8]));
        assert(nb.subrange(1, 1 + labels[0].len() as int) =~= labels[0]);
    }
}

/// A raw record is the name as it stands, then the two bytes of its type,
/// two of its class, four of its time to live, two of its data length, and
/// as many bytes of data as that length says, big-endian.
pub proof fn lemma_raw_record_fields(buf: Seq<u8>, pos: int)
    ensures
        dns::record_at(buf, pos) matches Some((r, e)) ==> dns::label_end(buf, pos) matches Some(
            n,
        ) && r.name == buf.subrange(pos, n) && r.tp == buf.subrange(n, n + 2) && r.class
            == buf.subrange(n + 2, n + 4) && r.ttl == buf.subrange(n + 4, n + 8) && r.rdlen
            == buf.subrange(n + 8, n + 10) && e == n + 10 + buf[n + 8] as int * 256 + buf[n
            + 9] as int && r.rdata == buf.subrange(n + 10, e),
{
    if let Some((r, e)) = dns::record_at(buf, pos) {
        let n = dns::label_end(buf, pos).unwrap();
        lemma_label_end_bounds(buf, pos);
        assert(n + 10 <= buf.len());
        let l = buf.subrange(n + 8, n + 10);
        assert(l[0] == buf[n + 8] && l[1] == buf[n + 9]);
    }
}

/// The raw header is the first twelve bytes, two for each field in order.
pub proof fn lemma_raw_header_fields(buf: Seq<u8>)
    ensures
        dns::message_at(buf) matches Some((m, _)) ==> m.head.id == buf.subrange(0, 2)
            && m.head.qe == buf.subrange(2, 4) && m.head.qdc == buf.subrange(4, 6) && m.head.anc
            == buf.subrange(6, 8) && m.head.nsc == buf.subrange(8, 10) && m.head.arc
            == buf.subrange(10, 12),
{
}

/// A compression pointer whose first byte has its two high bits set leads to
/// the offset that its other fourteen bits give.
pub proof fn lemma_pointer_offset(first: u8, second: u8)
    ensures
        first >= 0xC0 ==> pointer_target(first, second) == (first - 0xC0) * 256 + second,
{
    if first >= 0xC0 {
        assert(first >= 0xC0 ==> first ^ 0xC0u8 == first - 0xC0) by (bit_vector);
    }
}

} // verus!
