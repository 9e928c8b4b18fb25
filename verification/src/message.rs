use vstd::prelude::*;
use vstd::utf8::encode_utf8;

verus! {

/// The bytes of each label of a domain name, as UTF-8.
pub open spec fn labels_view(labels: Seq<String>) -> Seq<Seq<u8>> {
    labels.map_values(|s: String| encode_utf8(s@))
}

/// An IP address: four octets, or eight 16-bit segments.
#[derive(Debug, PartialEq, Clone, Copy)]
pub enum IpAddr {
    V4([u8; 4]),
    V6([u16; 8]),
}

/// The data of a resource record.
#[derive(Debug, PartialEq)]
pub enum Rdata {
    Cname(Vec<String>),
    Ipv4([u8; 4]),
    Ipv6([u16; 8]),
}

/// What a value of [`Rdata`] stands for.
pub enum RdataView {
    Cname(Seq<Seq<u8>>),
    Ipv4(Seq<u8>),
    Ipv6(Seq<u16>),
}

impl View for Rdata {
    type V = RdataView;

    open spec fn view(&self) -> RdataView {
        match self {
            Rdata::Cname(name) => RdataView::Cname(labels_view(name@)),
            Rdata::Ipv4(octets) => RdataView::Ipv4(octets@),
            Rdata::Ipv6(segments) => RdataView::Ipv6(segments@),
        }
    }
}

impl Default for Rdata {
    /// The address 192.168.0.1.
    fn default() -> (r: Rdata)
        ensures
            r@ == RdataView::Ipv4(seq![192u8, 168, 0, 1]),
    {
        let r = Rdata::Ipv4([192, 168, 0, 1]);
        assert(r@->Ipv4_0 =~= seq![192u8, 168, 0, 1]);
        r
    }
}

/// The fixed part at the start of every message.
#[derive(Default, Debug, PartialEq, Eq, Clone, Copy)]
pub struct Header {
    pub id: u16,
    pub qe: u16,
    pub qdc: u16,
    pub anc: u16,
    pub nsc: u16,
    pub arc: u16,
}

/// One entry of the question section.
#[derive(Default, Debug, PartialEq)]
pub struct Question {
    pub qname: Vec<String>,
    pub qtype: u16,
    pub qclass: u16,
}

/// What a value of [`Question`] stands for.
pub struct QuestionView {
    pub qname: Seq<Seq<u8>>,
    pub qtype: u16,
    pub qclass: u16,
}

impl View for Question {
    type V = QuestionView;

    open spec fn view(&self) -> QuestionView {
        QuestionView { qname: labels_view(self.qname@), qtype: self.qtype, qclass: self.qclass }
    }
}

/// A resource record.
#[derive(Default, Debug, PartialEq)]
pub struct RR {
    pub name: Vec<String>,
    pub tp: u16,
    pub class: u16,
    pub ttl: i32,
    pub rdlen: u16,
    pub rdata: Rdata,
}

/// What a value of [`RR`] stands for.
pub struct RecordView {
    pub name: Seq<Seq<u8>>,
    pub tp: u16,
    pub class: u16,
    pub ttl: i32,
    pub rdlen: u16,
    pub rdata: RdataView,
}

impl View for RR {
    type V = RecordView;

    open spec fn view(&self) -> RecordView {
        RecordView {
            name: labels_view(self.name@),
            tp: self.tp,
            class: self.class,
            ttl: self.ttl,
            rdlen: self.rdlen,
            rdata: self.rdata@,
        }
    }
}

/// A whole message.
#[derive(Default, Debug, PartialEq)]
pub struct DnsMsg {
    pub head: Header,
    pub ques: Vec<Question>,
    pub ansr: Vec<RR>,
    pub auth: Vec<RR>,
    pub addi: Vec<RR>,
}

/// What a value of [`DnsMsg`] stands for.
pub struct MessageView {
    pub head: Header,
    pub ques: Seq<QuestionView>,
    pub ansr: Seq<RecordView>,
    pub auth: Seq<RecordView>,
    pub addi: Seq<RecordView>,
}

/// The views of a sequence of records.
pub open spec fn records_view(rs: Seq<RR>) -> Seq<RecordView> {
    rs.map_values(|r: RR| r@)
}

impl View for DnsMsg {
    type V = MessageView;

    open spec fn view(&self) -> MessageView {
        MessageView {
            head: self.head,
            ques: self.ques@.map_values(|q: Question| q@),
            ansr: records_view(self.ansr@),
            auth: records_view(self.auth@),
            addi: records_view(self.addi@),
        }
    }
}

} // verus!
