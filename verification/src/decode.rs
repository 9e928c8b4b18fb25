use vstd::prelude::*;
use vstd::set_lib::{lemma_int_range, lemma_len_subset, set_int_range};
use vstd::utf8::{decode_utf8_encode_utf8, valid_utf8};
use crate::message::{
    labels_view, records_view, DnsMsg, Header, MessageView, Question, QuestionView, Rdata, RdataView,
    RecordView, RR,
};
use crate::reader::{be16, be32, signed32, Reader};
use crate::text::{copy_bytes, string_from_utf8};

verus! {

/// The offset that a compression pointer whose two bytes are `first` and
/// `second` leads to.
pub open spec fn pointer_target(first: u8, second: u8) -> int {
    (first ^ 0xC0u8) as int * 0x100 + second as int
}

/// The labels of the name at `pos`, as raw bytes, and the offset just after
/// it.  A length byte from 1 to 64 starts a label; 0 ends the name; any other
/// byte starts a two-byte pointer to the rest of the name, after which the
/// name ends.  `visited` holds the offsets from which this name has been read
/// so far: a pointer back to one of them would be followed for ever.
pub open spec fn raw_name_at(buf: Seq<u8>, pos: int, visited: Set<int>) -> Option<
    (Seq<Seq<u8>>, int),
>
    decreases buf.len() - visited.len(), buf.len() - pos,
    when visited.subset_of(set_int_range(0, buf.len() as int))
{
    if pos < 0 || pos >= buf.len() {
        None
    } else {
        let j = buf[pos];
        if 1 <= j <= 64 {
            if pos + 1 + j > buf.len() {
                None
            } else {
                match raw_name_at(buf, pos + 1 + j, visited) {
                    Some((rest, end)) => Some(
                        (seq![buf.subrange(pos + 1, pos + 1 + j)] + rest, end),
                    ),
                    None => None,
                }
            }
        } else if j == 0 {
            Some((Seq::empty(), pos + 1))
        } else if pos + 1 >= buf.len() {
            None
        } else {
            let t = pointer_target(j, buf[pos + 1]);
            if t >= buf.len() || visited.contains(t) {
                None
            } else {
                proof {
                    lemma_int_range(0, buf.len() as int);
                    lemma_len_subset(visited, set_int_range(0, buf.len() as int));
                    lemma_len_subset(visited.insert(t), set_int_range(0, buf.len() as int));
                }
                match raw_name_at(buf, t, visited.insert(t)) {
                    Some((labels, _)) => Some((labels, pos + 2)),
                    None => None,
                }
            }
        }
    }
}

/// Every label is valid UTF-8.
pub open spec fn all_utf8(labels: Seq<Seq<u8>>) -> bool {
    forall|i: int| 0 <= i < labels.len() ==> valid_utf8(#[trigger] labels[i])
}

/// A raw name whose labels are all UTF-8.
pub open spec fn utf8_name(r: Option<(Seq<Seq<u8>>, int)>) -> Option<(Seq<Seq<u8>>, int)> {
    match r {
        Some((labels, end)) => if all_utf8(labels) {
            Some((labels, end))
        } else {
            None
        },
        None => None,
    }
}

/// The name at `pos` and the offset after it, where it can be read.
pub open spec fn name_at(buf: Seq<u8>, pos: int) -> Option<(Seq<Seq<u8>>, int)> {
    if 0 <= pos < buf.len() {
        utf8_name(raw_name_at(buf, pos, set![pos]))
    } else {
        None
    }
}

/// The data of a record of type `tp` at `pos`, and the offset after it.
pub open spec fn rdata_at(buf: Seq<u8>, tp: u16, pos: int) -> Option<(RdataView, int)> {
    if tp == 1 {
        if 0 <= pos && pos + 4 <= buf.len() {
            Some((RdataView::Ipv4(buf.subrange(pos, pos + 4)), pos + 4))
        } else {
            None
        }
    } else if tp == 28 {
        if 0 <= pos && pos + 16 <= buf.len() {
            Some(
                (
                    RdataView::Ipv6(
                        Seq::new(8, |k: int| be16(buf[pos + 2 * k], buf[pos + 2 * k + 1])),
                    ),
                    pos + 16,
                ),
            )
        } else {
            None
        }
    } else if tp == 5 {
        match name_at(buf, pos) {
            Some((name, end)) => Some((RdataView::Cname(name), end)),
            None => None,
        }
    } else {
        None
    }
}

/// The resource record at `pos` and the offset after it.
pub open spec fn record_at(buf: Seq<u8>, pos: int) -> Option<(RecordView, int)> {
    match name_at(buf, pos) {
        Some((name, p)) => if p + 10 > buf.len() {
            None
        } else {
            let tp = be16(buf[p], buf[p + 1]);
            match rdata_at(buf, tp, p + 10) {
                Some((rdata, end)) => Some(
                    (
                        RecordView {
                            name,
                            tp,
                            class: be16(buf[p + 2], buf[p + 3]),
                            ttl: signed32(be32(buf[p + 4], buf[p + 5], buf[p + 6], buf[p + 7])),
                            rdlen: be16(buf[p + 8], buf[p + 9]),
                            rdata,
                        },
                        end,
                    ),
                ),
                None => None,
            }
        },
        None => None,
    }
}

/// The question at `pos` and the offset after it.
pub open spec fn question_at(buf: Seq<u8>, pos: int) -> Option<(QuestionView, int)> {
    match name_at(buf, pos) {
        Some((qname, p)) => if p + 4 > buf.len() {
            None
        } else {
            Some(
                (
                    QuestionView {
                        qname,
                        qtype: be16(buf[p], buf[p + 1]),
                        qclass: be16(buf[p + 2], buf[p + 3]),
                    },
                    p + 4,
                ),
            )
        },
        None => None,
    }
}

/// `n` questions one after the other from `pos`, and the offset after them.
pub open spec fn questions_at(buf: Seq<u8>, pos: int, n: nat) -> Option<(Seq<QuestionView>, int)>
    decreases n,
{
    if n == 0 {
        Some((Seq::empty(), pos))
    } else {
        match questions_at(buf, pos, (n - 1) as nat) {
            Some((qs, p)) => match question_at(buf, p) {
                Some((q, end)) => Some((qs.push(q), end)),
                None => None,
            },
            None => None,
        }
    }
}

/// `n` records one after the other from `pos`, and the offset after them.
pub open spec fn records_at(buf: Seq<u8>, pos: int, n: nat) -> Option<(Seq<RecordView>, int)>
    decreases n,
{
    if n == 0 {
        Some((Seq::empty(), pos))
    } else {
        match records_at(buf, pos, (n - 1) as nat) {
            Some((rs, p)) => match record_at(buf, p) {
                Some((r, end)) => Some((rs.push(r), end)),
                None => None,
            },
            None => None,
        }
    }
}

/// The header at the start of `buf`.
pub open spec fn header_of(buf: Seq<u8>) -> Header {
    Header {
        id: be16(buf[0], buf[1]),
        qe: be16(buf[2], buf[3]),
        qdc: be16(buf[4], buf[5]),
        anc: be16(buf[6], buf[7]),
        nsc: be16(buf[8], buf[9]),
        arc: be16(buf[10], buf[11]),
    }
}

/// The message that `buf` holds: the header, as many questions as it counts,
/// then as many answers as it counts.  The authority and additional sections
/// are not read and come out empty.
pub open spec fn message_of(buf: Seq<u8>) -> Option<MessageView> {
    if buf.len() < 12 {
        None
    } else {
        let head = header_of(buf);
        match questions_at(buf, 12, head.qdc as nat) {
            Some((ques, p)) => match records_at(buf, p, head.anc as nat) {
                Some((ansr, _)) => Some(
                    MessageView { head, ques, ansr, auth: Seq::empty(), addi: Seq::empty() },
                ),
                None => None,
            },
            None => None,
        }
    }
}

/// Reads the raw name at `pos` in the manner of [`raw_name_at`], with
/// `marks` telling which offsets are in `visited`.
fn parse_raw_name(buf: &[u8], pos: usize, marks: &mut Vec<bool>, Ghost(visited): Ghost<Set<int>>) -> (r:
    Option<(Vec<String>, usize)>)
    requires
        old(marks)@.len() == buf@.len(),
        visited.subset_of(set_int_range(0, buf@.len() as int)),
        forall|i: int| 0 <= i < buf@.len() ==> (old(marks)@[i] <==> visited.contains(i)),
    ensures
        final(marks)@.len() == buf@.len(),
        match r {
            Some((labels, end)) => utf8_name(raw_name_at(buf@, pos as int, visited)) == Some(
                (labels_view(labels@), end as int),
            ),
            None => utf8_name(raw_name_at(buf@, pos as int, visited)) is None,
        },
    decreases buf@.len() - visited.len(), buf@.len() - pos,
{
    if pos >= buf.len() {
        return None;
    }
    let j = buf[pos];
    if 1 <= j && j <= 64 {
        let len = j as usize;
        if len > buf.len() - pos - 1 {
            return None;
        }
        let bytes = copy_bytes(buf, pos + 1, len);
        let ghost label = bytes@;
        let first = string_from_utf8(bytes);
        match first {
            None => {
                proof {
                    if let Some((labels, _)) = raw_name_at(buf@, pos as int, visited) {
                        assert(labels[0] == label);
                    }
                }
                None
            },
            Some(s) => {
                let rest = parse_raw_name(buf, pos + 1 + len, marks, Ghost(visited));
                match rest {
                    None => {
                        proof {
                            if let Some((labels, _)) = raw_name_at(buf@, pos as int, visited) {
                                let (tail, _) = raw_name_at(buf@, pos + 1 + len, visited).unwrap();
                                assert(labels == seq![label] + tail);
                                if all_utf8(labels) {
                                    assert forall|i: int| 0 <= i < tail.len() implies valid_utf8(
                                        #[trigger] tail[i],
                                    ) by {
                                        assert(labels[i + 1] == tail[i]);
                                    }
                                }
                            }
                        }
                        None
                    },
                    Some((mut labels, end)) => {
                        let ghost tail = labels_view(labels@);
                        labels.insert(0, s);
                        proof {
                            decode_utf8_encode_utf8(label);
                            assert(labels_view(labels@) =~= seq![label] + tail);
                            let whole = seq![label] + tail;
                            assert forall|i: int| 0 <= i < whole.len() implies valid_utf8(
                                #[trigger] whole[i],
                            ) by {
                                if i > 0 {
                                    assert(whole[i] == tail[i - 1]);
                                }
                            }
                        }
                        Some((labels, end))
                    },
                }
            },
        }
    } else if j == 0 {
        let labels: Vec<String> = Vec::new();
        proof {
            assert(labels_view(labels@) =~= Seq::empty());
        }
        Some((labels, pos + 1))
    } else {
        if pos + 1 >= buf.len() {
            return None;
        }
        let t = ((j ^ 0xC0u8) as usize) * 0x100 + buf[pos + 1] as usize;
        if t >= buf.len() || marks[t] {
            return None;
        }
        marks.set(t, true);
        proof {
            lemma_int_range(0, buf@.len() as int);
            lemma_len_subset(visited, set_int_range(0, buf@.len() as int));
            lemma_len_subset(visited.insert(t as int), set_int_range(0, buf@.len() as int));
        }
        let inner = parse_raw_name(buf, t, marks, Ghost(visited.insert(t as int)));
        match inner {
            Some((labels, _)) => Some((labels, pos + 2)),
            None => None,
        }
    }
}

/// Reads the name at `pos`, in the manner of [`name_at`].
fn parse_name(buf: &[u8], pos: usize) -> (r: Option<(Vec<String>, usize)>)
    ensures
        match r {
            Some((labels, end)) => name_at(buf@, pos as int) == Some(
                (labels_view(labels@), end as int),
            ),
            None => name_at(buf@, pos as int) is None,
        },
{
    if pos >= buf.len() {
        return None;
    }
    let mut marks: Vec<bool> = Vec::new();
    let mut i: usize = 0;
    while i < buf.len()
        invariant
            i <= buf@.len(),
            marks@.len() == i,
            forall|k: int| 0 <= k < i ==> !marks@[k],
        decreases buf@.len() - i,
    {
        marks.push(false);
        i = i + 1;
    }
    marks.set(pos, true);
    let ghost visited = set![pos as int];
    assert(visited.subset_of(set_int_range(0, buf@.len() as int)));
    parse_raw_name(buf, pos, &mut marks, Ghost(visited))
}

/// Once `n` questions cannot be read, no more of them can.
proof fn lemma_questions_fail(buf: Seq<u8>, pos: int, n: nat, m: nat)
    requires
        n <= m,
        questions_at(buf, pos, n) is None,
    ensures
        questions_at(buf, pos, m) is None,
    decreases m,
{
    if n < m {
        lemma_questions_fail(buf, pos, n, (m - 1) as nat);
    }
}

/// Once `n` records cannot be read, no more of them can.
proof fn lemma_records_fail(buf: Seq<u8>, pos: int, n: nat, m: nat)
    requires
        n <= m,
        records_at(buf, pos, n) is None,
    ensures
        records_at(buf, pos, m) is None,
    decreases m,
{
    if n < m {
        lemma_records_fail(buf, pos, n, (m - 1) as nat);
    }
}

/// The big-endian `u16` at `p`.
fn u16_from(buf: &[u8], p: usize) -> (r: u16)
    requires
        p + 2 <= buf@.len(),
    ensures
        r == be16(buf@[p as int], buf@[p + 1]),
{
    buf[p] as u16 * 0x100 + buf[p + 1] as u16
}

/// Reads the name at the reader's position and moves past it.
fn read_name(reader: &mut Reader) -> (r: Option<Vec<String>>)
    ensures
        final(reader).buf@ == old(reader).buf@,
        match r {
            Some(labels) => name_at(old(reader).buf@, old(reader).pos as int) == Some(
                (labels_view(labels@), final(reader).pos as int),
            ),
            None => name_at(old(reader).buf@, old(reader).pos as int) is None,
        },
{
    match parse_name(reader.buf, reader.pos) {
        Some((labels, end)) => {
            reader.pos = end;
            Some(labels)
        },
        None => None,
    }
}

/// Reads the data of a record of type `tp` and moves past it.
fn read_rdata(reader: &mut Reader, tp: u16) -> (r: Option<Rdata>)
    ensures
        final(reader).buf@ == old(reader).buf@,
        match r {
            Some(rdata) => rdata_at(old(reader).buf@, tp, old(reader).pos as int) == Some(
                (rdata@, final(reader).pos as int),
            ),
            None => rdata_at(old(reader).buf@, tp, old(reader).pos as int) is None,
        },
{
    let buf = reader.buf;
    let p = reader.pos;
    if tp == 1 {
        if p < buf.len() && buf.len() - p >= 4 {
            let octets = [buf[p], buf[p + 1], buf[p + 2], buf[p + 3]];
            reader.pos = p + 4;
            let r = Rdata::Ipv4(octets);
            assert(octets@ =~= buf@.subrange(p as int, p + 4));
            Some(r)
        } else {
            None
        }
    } else if tp == 28 {
        if p < buf.len() && buf.len() - p >= 16 {
            let segments = [
                u16_from(buf, p),
                u16_from(buf, p + 2),
                u16_from(buf, p + 4),
                u16_from(buf, p + 6),
                u16_from(buf, p + 8),
                u16_from(buf, p + 10),
                u16_from(buf, p + 12),
                u16_from(buf, p + 14),
            ];
            reader.pos = p + 16;
            assert(segments@ =~= Seq::new(
                8,
                |k: int| be16(buf@[p + 2 * k], buf@[p + 2 * k + 1]),
            ));
            Some(Rdata::Ipv6(segments))
        } else {
            None
        }
    } else if tp == 5 {
        match read_name(reader) {
            Some(name) => Some(Rdata::Cname(name)),
            None => None,
        }
    } else {
        None
    }
}

/// Reads the resource record at the reader's position and moves past it.
fn read_record(reader: &mut Reader) -> (r: Option<RR>)
    ensures
        final(reader).buf@ == old(reader).buf@,
        match r {
            Some(rr) => record_at(old(reader).buf@, old(reader).pos as int) == Some(
                (rr@, final(reader).pos as int),
            ),
            None => record_at(old(reader).buf@, old(reader).pos as int) is None,
        },
{
    let name = match read_name(reader) {
        Some(name) => name,
        None => return None,
    };
    let p = reader.pos;
    if reader.remaining() < 10 {
        return None;
    }
    let tp = reader.read_u16().unwrap();
    let class = reader.read_u16().unwrap();
    let ttl = reader.read_i32().unwrap();
    let rdlen = reader.read_u16().unwrap();
    assert(reader.pos == p + 10);
    match read_rdata(reader, tp) {
        Some(rdata) => Some(RR { name, tp, class, ttl, rdlen, rdata }),
        None => None,
    }
}

/// Reads the question at the reader's position and moves past it.
fn read_question(reader: &mut Reader) -> (r: Option<Question>)
    ensures
        final(reader).buf@ == old(reader).buf@,
        match r {
            Some(q) => question_at(old(reader).buf@, old(reader).pos as int) == Some(
                (q@, final(reader).pos as int),
            ),
            None => question_at(old(reader).buf@, old(reader).pos as int) is None,
        },
{
    let qname = match read_name(reader) {
        Some(name) => name,
        None => return None,
    };
    if reader.remaining() < 4 {
        return None;
    }
    let qtype = reader.read_u16().unwrap();
    let qclass = reader.read_u16().unwrap();
    Some(Question { qname, qtype, qclass })
}

/// Reads the name at the reader's position, following compression pointers,
/// and moves past it.
pub fn decode_url(reader: &mut Reader) -> (r: Vec<String>)
    requires
        name_at(old(reader).buf@, old(reader).pos as int) is Some,
    ensures
        final(reader).buf@ == old(reader).buf@,
        name_at(old(reader).buf@, old(reader).pos as int) == Some(
            (labels_view(r@), final(reader).pos as int),
        ),
{
    read_name(reader).unwrap()
}

/// Reads the resource record at the reader's position and moves past it.
pub fn to_rr(reader: &mut Reader) -> (r: RR)
    requires
        record_at(old(reader).buf@, old(reader).pos as int) is Some,
    ensures
        final(reader).buf@ == old(reader).buf@,
        record_at(old(reader).buf@, old(reader).pos as int) == Some((r@, final(reader).pos as int)),
{
    read_record(reader).unwrap()
}

/// The message that `buf` holds, or `None` where it cannot be read.
pub fn try_to_dns(buf: &[u8]) -> (r: Option<DnsMsg>)
    ensures
        match r {
            Some(msg) => message_of(buf@) == Some(msg@),
            None => message_of(buf@) is None,
        },
{
    if buf.len() < 12 {
        return None;
    }
    let mut reader = Reader::new(buf);
    let head = Header {
        id: reader.read_u16().unwrap(),
        qe: reader.read_u16().unwrap(),
        qdc: reader.read_u16().unwrap(),
        anc: reader.read_u16().unwrap(),
        nsc: reader.read_u16().unwrap(),
        arc: reader.read_u16().unwrap(),
    };
    assert(head == header_of(buf@));
    let mut ques: Vec<Question> = Vec::new();
    let mut i: u16 = 0;
    assert(ques@.map_values(|q: Question| q@) =~= Seq::empty());
    while i < head.qdc
        invariant
            i <= head.qdc,
            reader.buf@ == buf@,
            head == header_of(buf@),
            questions_at(buf@, 12, i as nat) == Some(
                (ques@.map_values(|q: Question| q@), reader.pos as int),
            ),
        decreases head.qdc - i,
    {
        let ghost before = ques@.map_values(|q: Question| q@);
        match read_question(&mut reader) {
            Some(q) => {
                ques.push(q);
                assert(ques@.map_values(|q: Question| q@) =~= before.push(q@));
            },
            None => {
                proof {
                    lemma_questions_fail(buf@, 12, (i + 1) as nat, head.qdc as nat);
                }
                return None;
            },
        }
        i = i + 1;
    }
    let ghost p = reader.pos as int;
    let mut ansr: Vec<RR> = Vec::new();
    let mut k: u16 = 0;
    assert(records_view(ansr@) =~= Seq::empty());
    while k < head.anc
        invariant
            k <= head.anc,
            reader.buf@ == buf@,
            head == header_of(buf@),
            questions_at(buf@, 12, head.qdc as nat) == Some(
                (ques@.map_values(|q: Question| q@), p),
            ),
            records_at(buf@, p, k as nat) == Some((records_view(ansr@), reader.pos as int)),
        decreases head.anc - k,
    {
        let ghost before = records_view(ansr@);
        match read_record(&mut reader) {
            Some(r) => {
                ansr.push(r);
                assert(records_view(ansr@) =~= before.push(r@));
            },
            None => {
                proof {
                    lemma_records_fail(buf@, p, (k + 1) as nat, head.anc as nat);
                }
                return None;
            },
        }
        k = k + 1;
    }
    let msg = DnsMsg { head, ques, ansr, auth: Vec::new(), addi: Vec::new() };
    assert(records_view(msg.auth@) =~= Seq::empty());
    assert(records_view(msg.addi@) =~= Seq::empty());
    Some(msg)
}

/// Reads the message that `buf` holds.
pub fn to_dns(buf: &[u8]) -> (r: DnsMsg)
    requires
        message_of(buf@) is Some,
    ensures
        message_of(buf@) == Some(r@),
{
    try_to_dns(buf).unwrap()
}

} // verus!
