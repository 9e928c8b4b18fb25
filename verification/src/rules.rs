use vstd::prelude::*;
use vstd::string::StrSliceExecFns;
use crate::text::{starts_with, str_occurs_at, str_starts_with};
use crate::message::{labels_view, DnsMsg, Header, IpAddr, MessageView, RR, Rdata, RdataView, RecordView};

verus! {

#[verifier::external_type_specification]
#[verifier::external_body]
pub struct ExRegex(regex::Regex);

/// Whether the regex crate compiles `pattern` (with its default size limit).
pub uninterp spec fn regex_compiles(pattern: Seq<char>) -> bool;

/// Whether the regex compiled from `pattern` matches somewhere in
/// `haystack`.
pub uninterp spec fn regex_matches(pattern: Seq<char>, haystack: Seq<char>) -> bool;

/// The pieces into which the regex compiled from `pattern` splits
/// `haystack`, at most `limit` of them.
pub uninterp spec fn regex_split_pieces(pattern: Seq<char>, haystack: Seq<char>, limit: nat) -> Seq<
    Seq<char>,
>;

/// A compiled regular expression, kept with the text that it was compiled
/// from.  [`Pattern::new`] is the only way to make one.
#[derive(Debug)]
pub struct Pattern {
    text: String,
    re: regex::Regex,
}

impl View for Pattern {
    type V = Seq<char>;

    /// The text that the expression was compiled from.
    closed spec fn view(&self) -> Seq<char> {
        self.text@
    }
}

/// Calls `Regex::new` of the regex crate: it fails exactly where the pattern
/// does not compile, which [`regex_compiles`] names.
#[verifier::external_body]
fn regex_new(pattern: &str) -> (r: Option<regex::Regex>)
    ensures
        r is Some <==> regex_compiles(pattern@),
{
    regex::Regex::new(pattern).ok()
}

/// Calls `Regex::is_match` of the regex crate on the regex that `p` holds.
/// That regex was compiled by `Regex::new` from the text that `p` holds (see
/// [`Pattern::new`]), so the answer is whether that pattern matches somewhere
/// in the haystack: a function of the two texts, which [`regex_matches`]
/// names.
#[verifier::external_body]
fn pattern_is_match(p: &Pattern, haystack: &str) -> (r: bool)
    ensures
        r == regex_matches(p@, haystack@),
{
    p.re.is_match(haystack)
}

/// Calls `Regex::splitn` of the regex crate on the regex that `p` holds and
/// collects the pieces, which [`regex_split_pieces`] names (the regex was
/// compiled from the text that `p` holds).  Its documentation promises at
/// most `limit` pieces, and at least one where `limit` is not 0: the rest of
/// the haystack that is not split comes last.
#[verifier::external_body]
fn pattern_splitn(p: &Pattern, haystack: &str, limit: usize) -> (r: Vec<String>)
    ensures
        label_chars(r@) == regex_split_pieces(p@, haystack@, limit as nat),
        r@.len() <= limit,
        limit > 0 ==> r@.len() >= 1,
{
    p.re.splitn(haystack, limit).map(|piece| piece.to_string()).collect()
}

impl Pattern {
    /// Compiles `text`; `None` where it does not compile.
    pub fn new(text: &str) -> (r: Option<Pattern>)
        ensures
            r is Some <==> regex_compiles(text@),
            r matches Some(p) ==> p@ == text@,
    {
        match regex_new(text) {
            Some(re) => Some(Pattern { text: text.to_owned(), re }),
            None => None,
        }
    }

    /// The pattern of runs of white space, `\s+`, that splits a rule line
    /// into its fields.
    pub fn white_space() -> (r: Option<Pattern>)
        ensures
            r is Some <==> regex_compiles("\\s+"@),
            r matches Some(p) ==> p@ == "\\s+"@,
    {
        Pattern::new("\\s+")
    }

    /// The text that the expression was compiled from.
    pub fn as_str(&self) -> (r: &str)
        ensures
            r@ == self@,
    {
        self.text.as_str()
    }

    /// Whether the expression matches somewhere in `haystack`.
    pub fn is_match(&self, haystack: &str) -> (r: bool)
        ensures
            r == regex_matches(self@, haystack@),
    {
        pattern_is_match(self, haystack)
    }
}

/// A rule of the hosts file: names that `patt` matches are answered with
/// `ip`.
#[derive(Debug)]
pub struct Rule {
    pub ip: IpAddr,
    pub patt: Pattern,
}

/// The rule's pattern matches `name`.
pub open spec fn rule_matches(rule: Rule, name: Seq<char>) -> bool {
    regex_matches(rule.patt@, name)
}

/// The name of the first question, its labels joined by dots.
pub open spec fn query_name(msg: DnsMsg) -> Seq<char> {
    joined(label_chars(msg.ques@[0].qname@))
}

/// The record data that stands for an address.
pub open spec fn address_rdata(ip: IpAddr) -> RdataView {
    match ip {
        IpAddr::V4(octets) => RdataView::Ipv4(octets@),
        IpAddr::V6(segments) => RdataView::Ipv6(segments@),
    }
}

/// The answer that gives `ip` for the name `name`: type 1, class 1, a time to
/// live of 299 seconds, a data length of 4.
pub open spec fn answer_record(name: Seq<Seq<u8>>, ip: IpAddr) -> RecordView {
    RecordView { name, tp: 1, class: 1, ttl: 299, rdlen: 4, rdata: address_rdata(ip) }
}

/// The message turned into a response that answers its first question with
/// `ip`: the flags become 0x8180, one answer is counted and none of the other
/// sections, and the answer is added after those already there.
pub open spec fn answered(m: MessageView, ip: IpAddr) -> MessageView {
    MessageView {
        head: Header { id: m.head.id, qe: 0x8180, qdc: m.head.qdc, anc: 1, nsc: 0, arc: 0 },
        ques: m.ques,
        ansr: m.ansr.push(answer_record(m.ques[0].qname, ip)),
        auth: m.auth,
        addi: m.addi,
    }
}

/// The labels of a name joined by dots.
pub open spec fn joined(parts: Seq<Seq<char>>) -> Seq<char>
    decreases parts.len(),
{
    if parts.len() == 0 {
        Seq::empty()
    } else if parts.len() == 1 {
        parts[0]
    } else {
        joined(parts.drop_last()) + seq!['.'] + parts.last()
    }
}

/// The characters of each label.
pub open spec fn label_chars(labels: Seq<String>) -> Seq<Seq<char>> {
    labels.map_values(|s: String| s@)
}

/// The labels of a name joined by dots, such as `www.example.com`.
pub fn join_labels(labels: &Vec<String>) -> (r: String)
    ensures
        r@ == joined(label_chars(labels@)),
{
    let ghost parts = label_chars(labels@);
    let mut out = String::new();
    let mut i: usize = 0;
    assert(joined(parts.take(0)) =~= Seq::<char>::empty());
    while i < labels.len()
        invariant
            i <= labels@.len(),
            parts == label_chars(labels@),
            out@ == joined(parts.take(i as int)),
        decreases labels@.len() - i,
    {
        let ghost before = out@;
        if i > 0 {
            out.append(".");
            proof {
                reveal_strlit(".");
            }
        }
        out.append(labels[i].as_str());
        proof {
            assert(parts.take(i + 1).drop_last() =~= parts.take(i as int));
            if i == 0 {
                assert(out@ =~= joined(parts.take(1)));
            } else {
                assert(out@ =~= joined(parts.take(i + 1)));
            }
        }
        i = i + 1;
    }
    assert(parts.take(i as int) =~= parts);
    out
}

/// A copy of the labels of a name.
fn clone_labels(labels: &Vec<String>) -> (r: Vec<String>)
    ensures
        labels_view(r@) == labels_view(labels@),
{
    let mut out: Vec<String> = Vec::new();
    let mut i: usize = 0;
    while i < labels.len()
        invariant
            i <= labels@.len(),
            out@.len() == i,
            forall|k: int| 0 <= k < i ==> (#[trigger] out@[k])@ == labels@[k]@,
        decreases labels@.len() - i,
    {
        out.push(labels[i].clone());
        i = i + 1;
    }
    assert(labels_view(out@) =~= labels_view(labels@));
    out
}

/// Turns the message into a response that answers its first question with
/// `ip`.
pub fn answer_query(dns_msg: &mut DnsMsg, ip: &IpAddr)
    requires
        old(dns_msg).ques@.len() > 0,
    ensures
        final(dns_msg)@ == answered(old(dns_msg)@, *ip),
{
    dns_msg.head.qe = 256 | 0x8080;
    dns_msg.head.anc = 1;
    dns_msg.head.nsc = 0;
    dns_msg.head.arc = 0;
    let name = clone_labels(&dns_msg.ques[0].qname);
    let rdata = match ip {
        IpAddr::V4(octets) => Rdata::Ipv4(*octets),
        IpAddr::V6(segments) => Rdata::Ipv6(*segments),
    };
    let ghost before = dns_msg@.ansr;
    dns_msg.ansr.push(RR { name, tp: 1, class: 1, ttl: 299, rdlen: 4, rdata });
    assert(256u16 | 0x8080u16 == 0x8180u16) by (bit_vector);
    assert(dns_msg@.ansr =~= before.push(answer_record(old(dns_msg)@.ques[0].qname, *ip)));
}

/// Answers the first question of the message with the address of a rule
/// whose pattern matches its name, joined by dots, and says whether one did.
/// The rules are tried in order and the first that matches is taken.
pub fn match_rule(dns_msg: &mut DnsMsg, rules: &Vec<Rule>) -> (matched: bool)
    requires
        rules@.len() > 0 ==> old(dns_msg).ques@.len() > 0,
    ensures
        matched <==> exists|i: int|
            0 <= i < rules@.len() && #[trigger] rule_matches(rules@[i], query_name(*old(dns_msg))),
        matched ==> exists|k: int|
            0 <= k < rules@.len() && #[trigger] rule_matches(rules@[k], query_name(*old(dns_msg)))
                && (forall|j: int|
                0 <= j < k ==> !rule_matches(rules@[j], query_name(*old(dns_msg))))
                && final(dns_msg)@ == answered(old(dns_msg)@, rules@[k].ip),
        !matched ==> final(dns_msg)@ == old(dns_msg)@,
{
    let ghost name = query_name(*dns_msg);
    let mut i: usize = 0;
    while i < rules.len()
        invariant
            i <= rules@.len(),
            rules@.len() > 0 ==> dns_msg.ques@.len() > 0,
            dns_msg@ == old(dns_msg)@,
            *dns_msg == *old(dns_msg),
            name == query_name(*old(dns_msg)),
            forall|j: int| 0 <= j < i ==> !rule_matches(rules@[j], name),
        decreases rules@.len() - i,
    {
        let text = join_labels(&dns_msg.ques[0].qname);
        if rules[i].patt.is_match(text.as_str()) {
            assert(rule_matches(rules@[i as int], name));
            answer_query(dns_msg, &rules[i].ip);
            return true;
        }
        i = i + 1;
    }
    false
}

/// Characters with the Unicode property White_Space.
pub open spec fn is_white_space(c: char) -> bool {
    let u = c as u32;
    ||| 0x9 <= u <= 0xd
    ||| u == 0x20
    ||| u == 0x85
    ||| u == 0xa0
    ||| u == 0x1680
    ||| 0x2000 <= u <= 0x200a
    ||| u == 0x2028
    ||| u == 0x2029
    ||| u == 0x202f
    ||| u == 0x205f
    ||| u == 0x3000
}

/// `s` without the white space at its start.
pub open spec fn trim_start(s: Seq<char>) -> Seq<char>
    decreases s.len(),
{
    if s.len() > 0 && is_white_space(s[0]) {
        trim_start(s.drop_first())
    } else {
        s
    }
}

/// `s` without the white space at its end.
pub open spec fn trim_end(s: Seq<char>) -> Seq<char>
    decreases s.len(),
{
    if s.len() > 0 && is_white_space(s.last()) {
        trim_end(s.drop_last())
    } else {
        s
    }
}

/// `s` without white space at either end.
pub open spec fn trim(s: Seq<char>) -> Seq<char> {
    trim_end(trim_start(s))
}

/// `s` with every leading repetition of `p` taken off.
pub open spec fn strip_repeated(s: Seq<char>, p: Seq<char>) -> Seq<char>
    decreases s.len(),
{
    if p.len() > 0 && starts_with(s, p) {
        strip_repeated(s.skip(p.len() as int), p)
    } else {
        s
    }
}

/// What follows the `#$` mark of a rule line: the address and the patterns,
/// without white space around them.
pub open spec fn rule_text(line: Seq<char>) -> Seq<char> {
    trim(strip_repeated(line, "#$"@))
}

/// Whether `c` has the Unicode property White_Space.
pub fn char_is_white_space(c: char) -> (r: bool)
    ensures
        r == is_white_space(c),
{
    let u = c as u32;
    (0x9 <= u && u <= 0xd) || u == 0x20 || u == 0x85 || u == 0xa0 || u == 0x1680 || (0x2000 <= u
        && u <= 0x200a) || u == 0x2028 || u == 0x2029 || u == 0x202f || u == 0x205f || u == 0x3000
}

/// The text of a rule line, where the line is one: it begins with `#$`.
pub fn rule_body(line: &str) -> (r: Option<String>)
    ensures
        r is Some <==> starts_with(line@, "#$"@),
        r matches Some(body) ==> body@ == rule_text(line@),
{
    if !str_starts_with(line, "#$") {
        return None;
    }
    let ghost s = line@;
    let ghost mark = "#$"@;
    let n = line.unicode_len();
    proof {
        reveal_strlit("#$");
    }
    let mut k: usize = 0;
    assert(s.skip(0) =~= s);
    while n - k >= 2 && str_occurs_at(line, "#$", k)
        invariant
            n == s.len(),
            s == line@,
            mark == "#$"@,
            mark.len() == 2,
            k <= n,
            strip_repeated(s.skip(k as int), mark) == strip_repeated(s, mark),
        decreases n - k,
    {
        assert(s.skip(k as int).subrange(0, 2) =~= s.subrange(k as int, k + 2));
        assert(s.skip(k as int).skip(2) =~= s.skip(k + 2));
        k = k + 2;
    }
    proof {
        if k + 2 <= n {
            assert(s.skip(k as int).subrange(0, 2) =~= s.subrange(k as int, k + 2));
        }
    }
    let mut a: usize = k;
    while a < n && char_is_white_space(line.get_char(a))
        invariant
            n == s.len(),
            s == line@,
            k <= a <= n,
            trim_start(s.skip(k as int)) == trim_start(s.skip(a as int)),
        decreases n - a,
    {
        assert(s.skip(a as int).drop_first() =~= s.skip(a + 1));
        a = a + 1;
    }
    let mut b: usize = n;
    assert(s.skip(a as int) =~= s.subrange(a as int, n as int));
    while b > a && char_is_white_space(line.get_char(b - 1))
        invariant
            n == s.len(),
            s == line@,
            a <= b <= n,
            trim_end(s.subrange(a as int, n as int)) == trim_end(s.subrange(a as int, b as int)),
        decreases b - a,
    {
        assert(s.subrange(a as int, b as int).drop_last() =~= s.subrange(a as int, b - 1));
        b = b - 1;
    }
    let body = line.substring_char(a, b).to_owned();
    Some(body)
}

/// The fields of a rule line: its text after the `#$` mark, split where
/// `splitter` matches into at most 100 pieces; `None` where the line is not a
/// rule line.
pub fn rule_fields(line: &str, splitter: &Pattern) -> (r: Option<Vec<String>>)
    ensures
        r is Some <==> starts_with(line@, "#$"@),
        r matches Some(fields) ==> label_chars(fields@) == regex_split_pieces(
            splitter@,
            rule_text(line@),
            100,
        ) && 1 <= fields@.len() <= 100,
{
    match rule_body(line) {
        Some(body) => Some(pattern_splitn(splitter, body.as_str(), 100)),
        None => None,
    }
}

/// One rule for each pattern, in order, each giving `ip`; `None` where a
/// pattern does not compile.
pub fn rules_for(ip: &IpAddr, patterns: &Vec<String>) -> (r: Option<Vec<Rule>>)
    ensures
        r is Some <==> forall|i: int| 0 <= i < patterns@.len() ==> regex_compiles(
            #[trigger] patterns@[i]@,
        ),
        r matches Some(rules) ==> rules@.len() == patterns@.len() && forall|i: int|
            0 <= i < rules@.len() ==> (#[trigger] rules@[i]).ip == *ip && rules@[i].patt@
                == patterns@[i]@,
{
    let mut rules: Vec<Rule> = Vec::new();
    let mut i: usize = 0;
    while i < patterns.len()
        invariant
            i <= patterns@.len(),
            rules@.len() == i,
            forall|k: int| 0 <= k < i ==> regex_compiles(#[trigger] patterns@[k]@),
            forall|k: int|
                0 <= k < i ==> (#[trigger] rules@[k]).ip == *ip && rules@[k].patt@ == patterns@[k]@,
        decreases patterns@.len() - i,
    {
        match Pattern::new(patterns[i].as_str()) {
            Some(patt) => rules.push(Rule { ip: *ip, patt }),
            None => return None,
        }
        i = i + 1;
    }
    Some(rules)
}

} // verus!
