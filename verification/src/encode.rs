use vstd::prelude::*;
use crate::message::{
    labels_view, DnsMsg, Header, MessageView, Question, QuestionView, RdataView,
    RecordView, Rdata, RR,
};
use crate::writer::{fill, i32_bytes, lemma_fill_twice, u16_bytes, Writer};

verus! {

/// One label: its length byte (the length modulo 256) and its bytes.
pub open spec fn label_bytes(label: Seq<u8>) -> Seq<u8> {
    seq![(label.len() % 0x100) as u8] + label
}

/// The labels of a name one after the other, without the closing byte.
pub open spec fn labels_bytes(labels: Seq<Seq<u8>>) -> Seq<u8>
    decreases labels.len(),
{
    if labels.len() == 0 {
        Seq::empty()
    } else {
        labels_bytes(labels.drop_last()) + label_bytes(labels.last())
    }
}

/// A name: its labels and a closing 0.
pub open spec fn name_bytes(labels: Seq<Seq<u8>>) -> Seq<u8> {
    labels_bytes(labels) + seq![0u8]
}

/// The twelve bytes of a header.
pub open spec fn header_bytes(h: Header) -> Seq<u8> {
    u16_bytes(h.id) + u16_bytes(h.qe) + u16_bytes(h.qdc) + u16_bytes(h.anc) + u16_bytes(h.nsc)
        + u16_bytes(h.arc)
}

/// A question: its name, type and class.
pub open spec fn question_bytes(q: QuestionView) -> Seq<u8> {
    name_bytes(q.qname) + u16_bytes(q.qtype) + u16_bytes(q.qclass)
}

/// The data of a record: an IPv4 address as its four octets, a name as a
/// name; nothing for an IPv6 address.
pub open spec fn rdata_bytes(rdata: RdataView) -> Seq<u8> {
    match rdata {
        RdataView::Ipv4(octets) => octets,
        RdataView::Cname(name) => name_bytes(name),
        RdataView::Ipv6(_) => Seq::empty(),
    }
}

/// A resource record: name, type, class, time to live, data length and data.
pub open spec fn record_bytes(r: RecordView) -> Seq<u8> {
    name_bytes(r.name) + u16_bytes(r.tp) + u16_bytes(r.class) + i32_bytes(r.ttl) + u16_bytes(
        r.rdlen,
    ) + rdata_bytes(r.rdata)
}

/// Questions one after the other.
pub open spec fn questions_bytes(qs: Seq<QuestionView>) -> Seq<u8>
    decreases qs.len(),
{
    if qs.len() == 0 {
        Seq::empty()
    } else {
        questions_bytes(qs.drop_last()) + question_bytes(qs.last())
    }
}

/// Records one after the other.
pub open spec fn records_bytes(rs: Seq<RecordView>) -> Seq<u8>
    decreases rs.len(),
{
    if rs.len() == 0 {
        Seq::empty()
    } else {
        records_bytes(rs.drop_last()) + record_bytes(rs.last())
    }
}

/// A message: header, questions and answers.  The authority and additional
/// sections are not written.
pub open spec fn message_bytes(m: MessageView) -> Seq<u8> {
    header_bytes(m.head) + questions_bytes(m.ques) + records_bytes(m.ansr)
}

/// The 512-byte buffer that holds `bytes`, cut at 512 and padded with zeros.
pub open spec fn padded512(bytes: Seq<u8>) -> Seq<u8> {
    Seq::new(512, |i: int| if i < bytes.len() { bytes[i] } else { 0u8 })
}

/// Writes a name: each label with its length byte, then a closing 0.
fn write_name(writer: &mut Writer, labels: &Vec<String>)
    requires
        old(writer)@.len() <= old(writer).capacity(),
    ensures
        final(writer)@ == fill(old(writer)@, name_bytes(labels_view(labels@)), old(writer).capacity()),
        final(writer).capacity() == old(writer).capacity(),
        final(writer)@.len() <= final(writer).capacity(),
{
    let ghost start = writer@;
    let ghost cap = writer.capacity();
    let ghost all = labels_view(labels@);
    let mut i: usize = 0;
    assert(labels_bytes(all.take(0)) =~= Seq::empty());
    assert(start + Seq::<u8>::empty() =~= start);
    while i < labels.len()
        invariant
            i <= labels@.len(),
            all == labels_view(labels@),
            cap == writer.capacity(),
            start.len() <= cap,
            writer@.len() <= cap,
            writer@ == fill(start, labels_bytes(all.take(i as int)), cap),
        decreases labels@.len() - i,
    {
        let bytes = labels[i].as_str().as_bytes();
        let len_byte = [(bytes.len() % 0x100) as u8];
        let ghost before = writer@;
        writer.write(len_byte.as_slice());
        writer.write(bytes);
        proof {
            lemma_fill_twice(start, labels_bytes(all.take(i as int)), len_byte@, cap);
            lemma_fill_twice(start, labels_bytes(all.take(i as int)) + len_byte@, bytes@, cap);
            assert(all.take(i + 1).drop_last() =~= all.take(i as int));
            assert(labels_bytes(all.take(i + 1)) =~= labels_bytes(all.take(i as int)) + len_byte@
                + bytes@);
        }
        i = i + 1;
    }
    assert(all.take(i as int) =~= all);
    writer.write([0u8].as_slice());
    proof {
        lemma_fill_twice(start, labels_bytes(all), seq![0u8], cap);
        assert([0u8]@ =~= seq![0u8]);
    }
}

/// Writes a resource record: name, type, class, time to live, data length,
/// then the data (nothing for an IPv6 address).
pub fn from_rr(writer: &mut Writer, r: &RR)
    requires
        old(writer)@.len() <= old(writer).capacity(),
    ensures
        final(writer)@ == fill(old(writer)@, record_bytes(r@), old(writer).capacity()),
        final(writer).capacity() == old(writer).capacity(),
        final(writer)@.len() <= final(writer).capacity(),
{
    let ghost start = writer@;
    let ghost cap = writer.capacity();
    write_name(writer, &r.name);
    let ghost a = name_bytes(labels_view(r.name@));
    writer.write_u16(r.tp);
    proof { lemma_fill_twice(start, a, u16_bytes(r.tp), cap); }
    let ghost a = a + u16_bytes(r.tp);
    writer.write_u16(r.class);
    proof { lemma_fill_twice(start, a, u16_bytes(r.class), cap); }
    let ghost a = a + u16_bytes(r.class);
    writer.write_i32(r.ttl);
    proof { lemma_fill_twice(start, a, i32_bytes(r.ttl), cap); }
    let ghost a = a + i32_bytes(r.ttl);
    writer.write_u16(r.rdlen);
    proof { lemma_fill_twice(start, a, u16_bytes(r.rdlen), cap); }
    let ghost a = a + u16_bytes(r.rdlen);
    match &r.rdata {
        Rdata::Ipv4(ip) => {
            writer.write(ip.as_slice());
            proof { lemma_fill_twice(start, a, ip@, cap); }
        },
        Rdata::Cname(cname) => {
            write_name(writer, cname);
            proof { lemma_fill_twice(start, a, name_bytes(labels_view(cname@)), cap); }
        },
        Rdata::Ipv6(_) => {
            assert(a + Seq::<u8>::empty() =~= a);
        },
    }
}

/// Writes a question: name, type and class.
fn write_question(writer: &mut Writer, q: &Question)
    requires
        old(writer)@.len() <= old(writer).capacity(),
    ensures
        final(writer)@ == fill(old(writer)@, question_bytes(q@), old(writer).capacity()),
        final(writer).capacity() == old(writer).capacity(),
        final(writer)@.len() <= final(writer).capacity(),
{
    let ghost start = writer@;
    let ghost cap = writer.capacity();
    write_name(writer, &q.qname);
    let ghost a = name_bytes(labels_view(q.qname@));
    writer.write_u16(q.qtype);
    proof { lemma_fill_twice(start, a, u16_bytes(q.qtype), cap); }
    writer.write_u16(q.qclass);
    proof { lemma_fill_twice(start, a + u16_bytes(q.qtype), u16_bytes(q.qclass), cap); }
}

/// Writes the message into a buffer of 512 bytes.
fn write_message(msg: &DnsMsg) -> (w: Writer)
    ensures
        w@ == fill(Seq::empty(), message_bytes(msg@), 512),
        w@.len() <= 512,
{
    let mut writer = Writer::new(512);
    let ghost cap = 512nat;
    let ghost start = Seq::<u8>::empty();
    let h = msg.head;
    writer.write_u16(h.id);
    writer.write_u16(h.qe);
    writer.write_u16(h.qdc);
    writer.write_u16(h.anc);
    writer.write_u16(h.nsc);
    writer.write_u16(h.arc);
    assert(writer@ =~= header_bytes(h));
    let ghost qs = msg@.ques;
    let mut i: usize = 0;
    assert(questions_bytes(qs.take(0)) =~= Seq::empty());
    assert(header_bytes(h) + Seq::<u8>::empty() =~= header_bytes(h));
    while i < msg.ques.len()
        invariant
            i <= msg.ques@.len(),
            qs == msg@.ques,
            start.len() == 0,
            writer.capacity() == cap,
            writer@.len() <= cap,
            writer@ == fill(start, header_bytes(h) + questions_bytes(qs.take(i as int)), cap),
        decreases msg.ques@.len() - i,
    {
        write_question(&mut writer, &msg.ques[i]);
        proof {
            lemma_fill_twice(
                start,
                header_bytes(h) + questions_bytes(qs.take(i as int)),
                question_bytes(qs[i as int]),
                cap,
            );
            assert(qs.take(i + 1).drop_last() =~= qs.take(i as int));
            assert(header_bytes(h) + questions_bytes(qs.take(i + 1)) =~= header_bytes(h)
                + questions_bytes(qs.take(i as int)) + question_bytes(qs[i as int]));
        }
        i = i + 1;
    }
    assert(qs.take(i as int) =~= qs);
    let ghost front = header_bytes(h) + questions_bytes(qs);
    let ghost rs = msg@.ansr;
    let mut k: usize = 0;
    assert(records_bytes(rs.take(0)) =~= Seq::empty());
    assert(front + Seq::<u8>::empty() =~= front);
    while k < msg.ansr.len()
        invariant
            k <= msg.ansr@.len(),
            rs == msg@.ansr,
            start.len() == 0,
            writer.capacity() == cap,
            writer@.len() <= cap,
            writer@ == fill(start, front + records_bytes(rs.take(k as int)), cap),
        decreases msg.ansr@.len() - k,
    {
        from_rr(&mut writer, &msg.ansr[k]);
        proof {
            lemma_fill_twice(
                start,
                front + records_bytes(rs.take(k as int)),
                record_bytes(rs[k as int]),
                cap,
            );
            assert(rs.take(k + 1).drop_last() =~= rs.take(k as int));
            assert(front + records_bytes(rs.take(k + 1)) =~= front + records_bytes(
                rs.take(k as int),
            ) + record_bytes(rs[k as int]));
        }
        k = k + 1;
    }
    assert(rs.take(k as int) =~= rs);
    writer
}

/// How many bytes of the message fit in 512: the length of its header,
/// questions and answers, at most 512.
pub fn encoded_len(msg: &DnsMsg) -> (n: usize)
    ensures
        n == (if message_bytes(msg@).len() <= 512 {
            message_bytes(msg@).len()
        } else {
            512
        }),
{
    let writer = write_message(msg);
    writer.as_slice().len()
}

/// The message in a 512-byte buffer: header, questions and answers, cut at
/// 512 bytes, the rest zero.  The authority and additional sections are not
/// written.
pub fn from_dns(msg: &DnsMsg) -> (r: [u8; 512])
    ensures
        r@ == padded512(message_bytes(msg@)),
{
    let writer = write_message(msg);
    let ghost start = Seq::<u8>::empty();
    let ghost cap = 512nat;
    let written = writer.as_slice();
    let mut buf = [0u8; 512];
    let mut j: usize = 0;
    while j < written.len()
        invariant
            j <= written@.len(),
            written@.len() <= 512,
            forall|x: int| 0 <= x < j ==> buf@[x] == written@[x],
            forall|x: int| j <= x < 512 ==> buf@[x] == 0u8,
        decreases written@.len() - j,
    {
        buf[j] = written[j];
        j = j + 1;
    }
    proof {
        let all = message_bytes(msg@);
        assert(written@ == fill(start, all, cap));
        assert(buf@ =~= padded512(all));
    }
    buf
}

} // verus!
