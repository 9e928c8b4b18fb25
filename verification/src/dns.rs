//! Messages kept as the raw bytes of each field, read and written without
//! looking inside them beyond what finding their ends needs.

use vstd::prelude::*;
use crate::message::IpAddr;
use crate::reader::Reader;

verus! {

/// The data of a resource record, decoded.
#[derive(Debug)]
pub enum Rdata {
    Cname(Vec<String>),
    Ip(IpAddr),
}

/// A domain name as its labels.
#[derive(Debug)]
pub struct Label(pub Vec<String>);

/// The header fields, two bytes each.
#[derive(Default, Debug)]
pub struct Header {
    pub id: Vec<u8>,
    pub qe: Vec<u8>,
    pub qdc: Vec<u8>,
    pub anc: Vec<u8>,
    pub nsc: Vec<u8>,
    pub arc: Vec<u8>,
}

/// A question: its name as it stands on the wire, then type and class.
#[derive(Default, Debug)]
pub struct Question {
    pub qname: Vec<u8>,
    pub qtype: Vec<u8>,
    pub qclass: Vec<u8>,
}

/// A resource record, each field as it stands on the wire.
#[derive(Default, Debug)]
pub struct RR {
    pub name: Vec<u8>,
    pub tp: Vec<u8>,
    pub class: Vec<u8>,
    pub ttl: Vec<u8>,
    pub rdlen: Vec<u8>,
    pub rdata: Vec<u8>,
}

/// A whole message.
#[derive(Default, Debug)]
pub struct DnsMsg {
    pub head: Header,
    pub ques: Vec<Question>,
    pub ansr: Vec<RR>,
    pub auth: Vec<RR>,
    pub addi: Vec<RR>,
}

/// What a value of [`Header`] stands for.
pub struct HeaderView {
    pub id: Seq<u8>,
    pub qe: Seq<u8>,
    pub qdc: Seq<u8>,
    pub anc: Seq<u8>,
    pub nsc: Seq<u8>,
    pub arc: Seq<u8>,
}

/// What a value of [`Question`] stands for.
pub struct QuestionView {
    pub qname: Seq<u8>,
    pub qtype: Seq<u8>,
    pub qclass: Seq<u8>,
}

/// What a value of [`RR`] stands for.
pub struct RecordView {
    pub name: Seq<u8>,
    pub tp: Seq<u8>,
    pub class: Seq<u8>,
    pub ttl: Seq<u8>,
    pub rdlen: Seq<u8>,
    pub rdata: Seq<u8>,
}

/// What a value of [`DnsMsg`] stands for.
pub struct MessageView {
    pub head: HeaderView,
    pub ques: Seq<QuestionView>,
    pub ansr: Seq<RecordView>,
    pub auth: Seq<RecordView>,
    pub addi: Seq<RecordView>,
}

impl View for Header {
    type V = HeaderView;

    open spec fn view(&self) -> HeaderView {
        HeaderView {
            id: self.id@,
            qe: self.qe@,
            qdc: self.qdc@,
            anc: self.anc@,
            nsc: self.nsc@,
            arc: self.arc@,
        }
    }
}

impl View for Question {
    type V = QuestionView;

    open spec fn view(&self) -> QuestionView {
        QuestionView { qname: self.qname@, qtype: self.qtype@, qclass: self.qclass@ }
    }
}

impl View for RR {
    type V = RecordView;

    open spec fn view(&self) -> RecordView {
        RecordView {
            name: self.name@,
            tp: self.tp@,
            class: self.class@,
            ttl: self.ttl@,
            rdlen: self.rdlen@,
            rdata: self.rdata@,
        }
    }
}

/// The views of a sequence of records.
pub open spec fn records_view(rs: Seq<RR>) -> Seq<RecordView> {
    rs.map_values(|r: RR| r@)
}

impl View for DnsMsg {
    type V = MessageView;

    open spec fn view(&self) -> MessageView {
        MessageView {
            head: self.head@,
            ques: self.ques@.map_values(|q: Question| q@),
            ansr: records_view(self.ansr@),
            auth: records_view(self.auth@),
            addi: records_view(self.addi@),
        }
    }
}

/// The big-endian number that the first two bytes of `v` make.
pub open spec fn count_of(v: Seq<u8>) -> nat {
    (v[0] as nat) * 0x100 + v[1] as nat
}

/// Where the name at `pos` ends: a length byte from 1 to 64 and that many
/// bytes repeat until a 0, or until any other byte, which takes one more byte
/// with it.
pub open spec fn label_end(buf: Seq<u8>, pos: int) -> Option<int>
    decreases buf.len() - pos,
{
    if pos < 0 || pos >= buf.len() {
        None
    } else {
        let j = buf[pos];
        if 1 <= j <= 64 {
            if pos + 1 + j > buf.len() {
                None
            } else {
                label_end(buf, pos + 1 + j)
            }
        } else if j == 0 {
            Some(pos + 1)
        } else if pos + 1 >= buf.len() {
            None
        } else {
            Some(pos + 2)
        }
    }
}

/// The bytes from `pos` to `end`, where they stand.
pub open spec fn field(buf: Seq<u8>, pos: int, end: int) -> Seq<u8> {
    buf.subrange(pos, end)
}

/// The question at `pos` and the offset after it.
pub open spec fn question_at(buf: Seq<u8>, pos: int) -> Option<(QuestionView, int)> {
    match label_end(buf, pos) {
        Some(q) => if q + 4 > buf.len() {
            None
        } else {
            Some(
                (
                    QuestionView {
                        qname: field(buf, pos, q),
                        qtype: field(buf, q, q + 2),
                        qclass: field(buf, q + 2, q + 4),
                    },
                    q + 4,
                ),
            )
        },
        None => None,
    }
}

/// The record at `pos` and the offset after it: name, type, class, time to
/// live, data length, and as many bytes of data as that length says.
pub open spec fn record_at(buf: Seq<u8>, pos: int) -> Option<(RecordView, int)> {
    match label_end(buf, pos) {
        Some(q) => if q + 10 > buf.len() {
            None
        } else {
            let n = count_of(field(buf, q + 8, q + 10));
            if q + 10 + n > buf.len() {
                None
            } else {
                Some(
                    (
                        RecordView {
                            name: field(buf, pos, q),
                            tp: field(buf, q, q + 2),
                            class: field(buf, q + 2, q + 4),
                            ttl: field(buf, q + 4, q + 8),
                            rdlen: field(buf, q + 8, q + 10),
                            rdata: field(buf, q + 10, q + 10 + n),
                        },
                        q + 10 + n,
                    ),
                )
            }
        },
        None => None,
    }
}

/// `n` questions from `pos` and the offset after them.
pub open spec fn questions_at(buf: Seq<u8>, pos: int, n: nat) -> Option<(Seq<QuestionView>, int)>
    decreases n,
{
    if n == 0 {
        Some((Seq::empty(), pos))
    } else {
        match questions_at(buf, pos, (n - 1) as nat) {
            Some((qs, p)) => match question_at(buf, p) {
                Some((q, end)) => Some((qs.push(q), end)),
                None => None,
            },
            None => None,
        }
    }
}

/// `n` records from `pos` and the offset after them.
pub open spec fn records_at(buf: Seq<u8>, pos: int, n: nat) -> Option<(Seq<RecordView>, int)>
    decreases n,
{
    if n == 0 {
        Some((Seq::empty(), pos))
    } else {
        match records_at(buf, pos, (n - 1) as nat) {
            Some((rs, p)) => match record_at(buf, p) {
                Some((r, end)) => Some((rs.push(r), end)),
                None => None,
            },
            None => None,
        }
    }
}

/// The header in the first twelve bytes.
pub open spec fn header_at(buf: Seq<u8>) -> HeaderView {
    HeaderView {
        id: field(buf, 0, 2),
        qe: field(buf, 2, 4),
        qdc: field(buf, 4, 6),
        anc: field(buf, 6, 8),
        nsc: field(buf, 8, 10),
        arc: field(buf, 10, 12),
    }
}

/// The message at the start of `buf` and how many bytes it takes: the
/// header, then as many questions, answers, authority and additional records
/// as the header counts.
pub open spec fn message_at(buf: Seq<u8>) -> Option<(MessageView, int)> {
    if buf.len() < 12 {
        None
    } else {
        let head = header_at(buf);
        match questions_at(buf, 12, count_of(head.qdc)) {
            Some((ques, p1)) => match records_at(buf, p1, count_of(head.anc)) {
                Some((ansr, p2)) => match records_at(buf, p2, count_of(head.nsc)) {
                    Some((auth, p3)) => match records_at(buf, p3, count_of(head.arc)) {
                        Some((addi, p4)) => Some((MessageView { head, ques, ansr, auth, addi }, p4)),
                        None => None,
                    },
                    None => None,
                },
                None => None,
            },
            None => None,
        }
    }
}

/// The bytes of a header, field after field.
pub open spec fn header_bytes(h: HeaderView) -> Seq<u8> {
    h.id + h.qe + h.qdc + h.anc + h.nsc + h.arc
}

/// The bytes of a question.
pub open spec fn question_bytes(q: QuestionView) -> Seq<u8> {
    q.qname + q.qtype + q.qclass
}

/// The bytes of a record.
pub open spec fn record_bytes(r: RecordView) -> Seq<u8> {
    r.name + r.tp + r.class + r.ttl + r.rdlen + r.rdata
}

/// Questions one after the other.
pub open spec fn questions_bytes(qs: Seq<QuestionView>) -> Seq<u8>
    decreases qs.len(),
{
    if qs.len() == 0 {
        Seq::empty()
    } else {
        questions_bytes(qs.drop_last()) + question_bytes(qs.last())
    }
}

/// Records one after the other.
pub open spec fn records_bytes(rs: Seq<RecordView>) -> Seq<u8>
    decreases rs.len(),
{
    if rs.len() == 0 {
        Seq::empty()
    } else {
        records_bytes(rs.drop_last()) + record_bytes(rs.last())
    }
}

/// All fields of a message one after the other.
pub open spec fn message_bytes(m: MessageView) -> Seq<u8> {
    header_bytes(m.head) + questions_bytes(m.ques) + records_bytes(m.ansr) + records_bytes(m.auth)
        + records_bytes(m.addi)
}

/// Once `n` questions cannot be read, no more of them can.
proof fn lemma_questions_fail(buf: Seq<u8>, pos: int, n: nat, m: nat)
    requires
        n <= m,
        questions_at(buf, pos, n) is None,
    ensures
        questions_at(buf, pos, m) is None,
    decreases m,
{
    if n < m {
        lemma_questions_fail(buf, pos, n, (m - 1) as nat);
    }
}

/// Once `n` records cannot be read, no more of them can.
proof fn lemma_records_fail(buf: Seq<u8>, pos: int, n: nat, m: nat)
    requires
        n <= m,
        records_at(buf, pos, n) is None,
    ensures
        records_at(buf, pos, m) is None,
    decreases m,
{
    if n < m {
        lemma_records_fail(buf, pos, n, (m - 1) as nat);
    }
}

/// The number that the first two bytes of `v` make, big-endian.
fn as_u16(v: &Vec<u8>) -> (r: usize)
    requires
        v@.len() >= 2,
    ensures
        r == count_of(v@),
{
    v[0] as usize * 0x100 + v[1] as usize
}

/// Reads exactly `len` bytes, or nothing where fewer remain.
fn take_bytes(reader: &mut Reader, len: usize) -> (r: Option<Vec<u8>>)
    requires
        old(reader).pos <= old(reader).buf@.len(),
    ensures
        final(reader).buf@ == old(reader).buf@,
        final(reader).pos <= final(reader).buf@.len(),
        match r {
            Some(v) => old(reader).pos + len <= old(reader).buf@.len() && v@ == field(
                old(reader).buf@,
                old(reader).pos as int,
                old(reader).pos + len,
            ) && final(reader).pos == old(reader).pos + len,
            None => old(reader).pos + len > old(reader).buf@.len(),
        },
{
    if reader.remaining() < len {
        return None;
    }
    Some(reader.read_exact(len))
}

/// Appends `data` to `v`.
fn push_all(v: &mut Vec<u8>, data: &Vec<u8>)
    ensures
        final(v)@ == old(v)@ + data@,
{
    let mut i: usize = 0;
    let ghost start = v@;
    while i < data.len()
        invariant
            i <= data@.len(),
            v@ == start + data@.take(i as int),
        decreases data@.len() - i,
    {
        v.push(data[i]);
        i = i + 1;
        assert(data@.take(i as int) =~= data@.take(i - 1).push(data@[i - 1]));
    }
    assert(data@.take(i as int) =~= data@);
}

/// Where the name at `pos` ends, as [`label_end`] says.
fn name_end(buf: &[u8], pos: usize) -> (r: Option<usize>)
    ensures
        match r {
            Some(e) => label_end(buf@, pos as int) == Some(e as int),
            None => label_end(buf@, pos as int) is None,
        },
{
    let mut p = pos;
    loop
        invariant
            pos <= p,
            label_end(buf@, pos as int) == label_end(buf@, p as int),
        decreases buf@.len() - p,
    {
        if p >= buf.len() {
            return None;
        }
        let j = buf[p];
        if 1 <= j && j <= 64 {
            if j as usize > buf.len() - p - 1 {
                return None;
            }
            p = p + 1 + j as usize;
        } else if j == 0 {
            return Some(p + 1);
        } else if p + 1 >= buf.len() {
            return None;
        } else {
            return Some(p + 2);
        }
    }
}

/// Reads a name as it stands, compression pointer included, up to its end.
fn get_label(reader: &mut Reader) -> (r: Vec<u8>)
    requires
        old(reader).pos <= old(reader).buf@.len(),
        label_end(old(reader).buf@, old(reader).pos as int) is Some,
    ensures
        final(reader).buf@ == old(reader).buf@,
        final(reader).pos <= final(reader).buf@.len(),
        label_end(old(reader).buf@, old(reader).pos as int) == Some(final(reader).pos as int),
        r@ == field(old(reader).buf@, old(reader).pos as int, final(reader).pos as int),
{
    let ghost buf = reader.buf@;
    let ghost start = reader.pos as int;
    let mut s: Vec<u8> = Vec::new();
    assert(s@ =~= field(buf, start, start));
    loop
        invariant
            buf == old(reader).buf@,
            start == old(reader).pos,
            reader.buf@ == buf,
            start <= reader.pos <= buf.len(),
            label_end(buf, start) is Some,
            label_end(buf, start) == label_end(buf, reader.pos as int),
            s@ == field(buf, start, reader.pos as int),
        decreases buf.len() - reader.pos,
    {
        let p = reader.pos;
        let j = reader.read_u8().unwrap();
        s.push(j);
        assert(s@ =~= field(buf, start, reader.pos as int));
        if 1 <= j && j <= 64 {
            let bytes = take_bytes(reader, j as usize).unwrap();
            push_all(&mut s, &bytes);
            assert(s@ =~= field(buf, start, reader.pos as int));
        } else if j == 0 {
            return s;
        } else {
            let b = reader.read_u8().unwrap();
            s.push(b);
            assert(s@ =~= field(buf, start, reader.pos as int));
            assert(label_end(buf, p as int) == Some(p + 2));
            return s;
        }
    }
}

/// Reads a resource record, its data as long as its length field says.
fn to_rr(reader: &mut Reader) -> (r: Option<RR>)
    requires
        old(reader).pos <= old(reader).buf@.len(),
    ensures
        final(reader).buf@ == old(reader).buf@,
        final(reader).pos <= final(reader).buf@.len(),
        match r {
            Some(rr) => record_at(old(reader).buf@, old(reader).pos as int) == Some(
                (rr@, final(reader).pos as int),
            ),
            None => record_at(old(reader).buf@, old(reader).pos as int) is None,
        },
{
    let name = match name_end(reader.buf, reader.pos) {
        Some(_) => get_label(reader),
        None => return None,
    };
    let q = reader.pos;
    if reader.remaining() < 10 {
        return None;
    }
    let tp = take_bytes(reader, 2).unwrap();
    let class = take_bytes(reader, 2).unwrap();
    let ttl = take_bytes(reader, 4).unwrap();
    let rdlen = take_bytes(reader, 2).unwrap();
    let rdata = match take_bytes(reader, as_u16(&rdlen)) {
        Some(d) => d,
        None => return None,
    };
    Some(RR { name, tp, class, ttl, rdlen, rdata })
}

/// Reads a question.
fn to_question(reader: &mut Reader) -> (r: Option<Question>)
    requires
        old(reader).pos <= old(reader).buf@.len(),
    ensures
        final(reader).buf@ == old(reader).buf@,
        final(reader).pos <= final(reader).buf@.len(),
        match r {
            Some(qu) => question_at(old(reader).buf@, old(reader).pos as int) == Some(
                (qu@, final(reader).pos as int),
            ),
            None => question_at(old(reader).buf@, old(reader).pos as int) is None,
        },
{
    let qname = match name_end(reader.buf, reader.pos) {
        Some(_) => get_label(reader),
        None => return None,
    };
    if reader.remaining() < 4 {
        return None;
    }
    let qtype = take_bytes(reader, 2).unwrap();
    let qclass = take_bytes(reader, 2).unwrap();
    Some(Question { qname, qtype, qclass })
}

/// Reads `n` records.
fn to_records(reader: &mut Reader, n: usize) -> (r: Option<Vec<RR>>)
    requires
        old(reader).pos <= old(reader).buf@.len(),
    ensures
        final(reader).buf@ == old(reader).buf@,
        final(reader).pos <= final(reader).buf@.len(),
        match r {
            Some(rs) => records_at(old(reader).buf@, old(reader).pos as int, n as nat) == Some(
                (records_view(rs@), final(reader).pos as int),
            ),
            None => records_at(old(reader).buf@, old(reader).pos as int, n as nat) is None,
        },
{
    let ghost buf = reader.buf@;
    let ghost start = reader.pos as int;
    let mut rs: Vec<RR> = Vec::new();
    let mut i: usize = 0;
    assert(records_view(rs@) =~= Seq::empty());
    while i < n
        invariant
            i <= n,
            buf == old(reader).buf@,
            start == old(reader).pos,
            reader.buf@ == buf,
            reader.pos <= buf.len(),
            records_at(buf, start, i as nat) == Some((records_view(rs@), reader.pos as int)),
        decreases n - i,
    {
        let ghost before = records_view(rs@);
        match to_rr(reader) {
            Some(r) => {
                rs.push(r);
                assert(records_view(rs@) =~= before.push(r@));
            },
            None => {
                proof {
                    lemma_records_fail(buf, start, (i + 1) as nat, n as nat);
                }
                return None;
            },
        }
        i = i + 1;
    }
    Some(rs)
}

/// Reads the message at the start of `buf`, as [`message_at`] says.
fn read_message(buf: &[u8]) -> (r: Option<DnsMsg>)
    ensures
        match r {
            Some(msg) => message_at(buf@) matches Some((m, _)) && msg@ == m,
            None => message_at(buf@) is None,
        },
{
    if buf.len() < 12 {
        return None;
    }
    let mut reader = Reader::new(buf);
    let head = Header {
        id: take_bytes(&mut reader, 2).unwrap(),
        qe: take_bytes(&mut reader, 2).unwrap(),
        qdc: take_bytes(&mut reader, 2).unwrap(),
        anc: take_bytes(&mut reader, 2).unwrap(),
        nsc: take_bytes(&mut reader, 2).unwrap(),
        arc: take_bytes(&mut reader, 2).unwrap(),
    };
    assert(head@ == header_at(buf@));
    let qdc = as_u16(&head.qdc);
    let mut ques: Vec<Question> = Vec::new();
    let mut i: usize = 0;
    assert(ques@.map_values(|q: Question| q@) =~= Seq::empty());
    while i < qdc
        invariant
            i <= qdc,
            qdc == count_of(header_at(buf@).qdc),
            head@ == header_at(buf@),
            reader.buf@ == buf@,
            reader.pos <= buf@.len(),
            questions_at(buf@, 12, i as nat) == Some(
                (ques@.map_values(|q: Question| q@), reader.pos as int),
            ),
        decreases qdc - i,
    {
        let ghost before = ques@.map_values(|q: Question| q@);
        match to_question(&mut reader) {
            Some(q) => {
                ques.push(q);
                assert(ques@.map_values(|q: Question| q@) =~= before.push(q@));
            },
            None => {
                proof {
                    lemma_questions_fail(buf@, 12, (i + 1) as nat, qdc as nat);
                }
                return None;
            },
        }
        i = i + 1;
    }
    let ansr = match to_records(&mut reader, as_u16(&head.anc)) {
        Some(rs) => rs,
        None => return None,
    };
    let auth = match to_records(&mut reader, as_u16(&head.nsc)) {
        Some(rs) => rs,
        None => return None,
    };
    let addi = match to_records(&mut reader, as_u16(&head.arc)) {
        Some(rs) => rs,
        None => return None,
    };
    Some(DnsMsg { head, ques, ansr, auth, addi })
}

/// The message at the start of `buf`: the header, then as many questions,
/// answers, authority and additional records as it counts, each field kept
/// as its bytes.
pub fn as_dns(buf: &[u8]) -> (r: DnsMsg)
    requires
        message_at(buf@) is Some,
    ensures
        message_at(buf@) matches Some((m, _)) && r@ == m,
{
    read_message(buf).unwrap()
}

/// Appends the records one after the other.
fn push_records(v: &mut Vec<u8>, rs: &Vec<RR>)
    ensures
        final(v)@ == old(v)@ + records_bytes(records_view(rs@)),
{
    let ghost start = v@;
    let ghost all = records_view(rs@);
    let mut i: usize = 0;
    assert(records_bytes(all.take(0)) =~= Seq::empty());
    assert(start + Seq::<u8>::empty() =~= start);
    while i < rs.len()
        invariant
            i <= rs@.len(),
            all == records_view(rs@),
            v@ == start + records_bytes(all.take(i as int)),
        decreases rs@.len() - i,
    {
        let r = &rs[i];
        push_all(v, &r.name);
        push_all(v, &r.tp);
        push_all(v, &r.class);
        push_all(v, &r.ttl);
        push_all(v, &r.rdlen);
        push_all(v, &r.rdata);
        proof {
            assert(all.take(i + 1).drop_last() =~= all.take(i as int));
            assert(all[i as int] == r@);
            assert(v@ =~= start + records_bytes(all.take(i + 1)));
        }
        i = i + 1;
    }
    assert(all.take(i as int) =~= all);
}

/// All fields of the message one after the other: header, questions,
/// answers, authority and additional records.
pub fn as_slice(msg: &mut DnsMsg) -> (v: Vec<u8>)
    ensures
        final(msg)@ == old(msg)@,
        v@ == message_bytes(old(msg)@),
{
    let mut v: Vec<u8> = Vec::new();
    push_all(&mut v, &msg.head.id);
    push_all(&mut v, &msg.head.qe);
    push_all(&mut v, &msg.head.qdc);
    push_all(&mut v, &msg.head.anc);
    push_all(&mut v, &msg.head.nsc);
    push_all(&mut v, &msg.head.arc);
    assert(v@ =~= header_bytes(msg.head@));
    let ghost front = v@;
    let ghost qs = msg@.ques;
    let mut i: usize = 0;
    assert(questions_bytes(qs.take(0)) =~= Seq::empty());
    assert(front + Seq::<u8>::empty() =~= front);
    while i < msg.ques.len()
        invariant
            i <= msg.ques@.len(),
            qs == msg@.ques,
            msg@ == old(msg)@,
            front == header_bytes(msg.head@),
            v@ == front + questions_bytes(qs.take(i as int)),
        decreases msg.ques@.len() - i,
    {
        let q = &msg.ques[i];
        push_all(&mut v, &q.qname);
        push_all(&mut v, &q.qtype);
        push_all(&mut v, &q.qclass);
        proof {
            assert(qs.take(i + 1).drop_last() =~= qs.take(i as int));
            assert(qs[i as int] == q@);
            assert(v@ =~= front + questions_bytes(qs.take(i + 1)));
        }
        i = i + 1;
    }
    assert(qs.take(i as int) =~= qs);
    push_records(&mut v, &msg.ansr);
    push_records(&mut v, &msg.auth);
    push_records(&mut v, &msg.addi);
    v
}

} // verus!
