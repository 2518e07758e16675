use vstd::prelude::*;
use vstd::string::{StrSliceExecFns, StringExecFns, StringSliceAdditionalSpecFns};
use vstd::utf8::{decode_utf8, decode_utf8_encode_utf8, encode_utf8, valid_utf8};

use crate::dns_packet::{
    DnsQueryType, DnsRecord, DnsRecordA, DnsRecordAAAA, DnsRecordCNAME, DnsRecordDROP, DnsRecordMX,
    DnsRecordNS, DnsRecordPreamble, DnsRecordUnknown, PreambleView, RecordView,
};
use crate::simple_database::priority_of;
use crate::utils::string_from_utf8;

verus! {

/// The character of the decimal digit `d`.
pub open spec fn digit_char(d: int) -> char {
    (d + 48) as u8 as char
}

/// `n` in decimal, without leading zeros.
pub open spec fn decimal(n: u8) -> Seq<char> {
    let m = n as int;
    if m >= 100 {
        seq![digit_char(m / 100), digit_char((m / 10) % 10), digit_char(m % 10)]
    } else if m >= 10 {
        seq![digit_char(m / 10), digit_char(m % 10)]
    } else {
        seq![digit_char(m)]
    }
}

/// The dotted-decimal text of an IPv4 address.
pub open spec fn ip_text(ip: Seq<u8>) -> Seq<char> {
    decimal(ip[0]) + seq!['.'] + decimal(ip[1]) + seq!['.'] + decimal(ip[2]) + seq!['.'] + decimal(ip[3])
}

/// Where a left-to-right reading of dotted-decimal text stands: whether it
/// is still well formed, the octets read, and the digits of the current one.
pub struct Scan {
    pub ok: bool,
    pub groups: Seq<int>,
    pub cur: int,
    pub ndig: int,
}

pub open spec fn scan_start() -> Scan {
    Scan { ok: true, groups: seq![], cur: 0, ndig: 0 }
}

/// One character more: a digit extends the current octet (at most three
/// digits, at most 255), a dot ends it (at most three dots), anything else is
/// an error.
pub open spec fn scan_step(st: Scan, c: char) -> Scan {
    if !st.ok {
        st
    } else if '0' <= c && c <= '9' {
        let v = st.cur * 10 + (c as int - 48);
        if st.ndig >= 3 || v > 255 {
            Scan { ok: false, ..st }
        } else {
            Scan { cur: v, ndig: st.ndig + 1, ..st }
        }
    } else if c == '.' {
        if st.ndig == 0 || st.groups.len() >= 3 {
            Scan { ok: false, ..st }
        } else {
            Scan { groups: st.groups.push(st.cur), cur: 0, ndig: 0, ..st }
        }
    } else {
        Scan { ok: false, ..st }
    }
}

pub open spec fn scan_from(st: Scan, t: Seq<char>) -> Scan
    decreases t.len(),
{
    if t.len() == 0 {
        st
    } else {
        scan_step(scan_from(st, t.drop_last()), t.last())
    }
}

/// The address that the text `t` writes as four dotted decimal octets.
pub open spec fn ip_of_text(t: Seq<char>) -> Option<Seq<u8>> {
    let st = scan_from(scan_start(), t);
    if st.ok && st.ndig > 0 && st.groups.len() == 3 {
        Some(seq![st.groups[0] as u8, st.groups[1] as u8, st.groups[2] as u8, st.cur as u8])
    } else {
        None
    }
}

proof fn lemma_scan_concat(st: Scan, u: Seq<char>, v: Seq<char>)
    ensures
        scan_from(st, u + v) == scan_from(scan_from(st, u), v),
    decreases v.len(),
{
    if v.len() == 0 {
        assert(u + v =~= u);
    } else {
        assert((u + v).drop_last() =~= u + v.drop_last());
        assert((u + v).last() == v.last());
        lemma_scan_concat(st, u, v.drop_last());
    }
}

proof fn lemma_scan_one(st: Scan, t: Seq<char>)
    requires
        t.len() > 0,
    ensures
        scan_from(st, t) == scan_step(scan_from(st, t.drop_last()), t.last()),
{
}

proof fn lemma_digit_step(st: Scan, d: int)
    requires
        st.ok,
        0 <= d <= 9,
        st.ndig < 3,
        st.cur * 10 + d <= 255,
    ensures
        scan_step(st, digit_char(d)) == (Scan { cur: st.cur * 10 + d, ndig: st.ndig + 1, ..st }),
{
    assert(digit_char(d) as int == d + 48);
}

proof fn lemma_scan_digits(st: Scan, n: u8)
    requires
        st.ok,
        st.ndig == 0,
        st.cur == 0,
    ensures
        scan_from(st, decimal(n)) == (Scan { cur: n as int, ndig: decimal(n).len() as int, ..st }),
        decimal(n).len() >= 1,
{
    let d = decimal(n);
    let m = n as int;
    let e = Seq::<char>::empty();
    assert(scan_from(st, e) == st);
    if m >= 100 {
        let a = m / 100;
        let b = (m / 10) % 10;
        let c = m % 10;
        let t1 = seq![digit_char(a)];
        let t2 = seq![digit_char(a), digit_char(b)];
        assert(t1.drop_last() =~= e);
        assert(t2.drop_last() =~= t1);
        assert(d.drop_last() =~= t2);
        lemma_scan_one(st, t1);
        lemma_digit_step(st, a);
        let s1 = scan_from(st, t1);
        lemma_scan_one(st, t2);
        lemma_digit_step(s1, b);
        let s2 = scan_from(st, t2);
        lemma_scan_one(st, d);
        lemma_digit_step(s2, c);
    } else if m >= 10 {
        let a = m / 10;
        let c = m % 10;
        let t1 = seq![digit_char(a)];
        assert(t1.drop_last() =~= e);
        assert(d.drop_last() =~= t1);
        lemma_scan_one(st, t1);
        lemma_digit_step(st, a);
        let s1 = scan_from(st, t1);
        lemma_scan_one(st, d);
        lemma_digit_step(s1, c);
    } else {
        assert(d.drop_last() =~= e);
        lemma_scan_one(st, d);
        lemma_digit_step(st, m);
    }
}

proof fn lemma_scan_dot(st: Scan)
    requires
        st.ok,
        st.ndig > 0,
        st.groups.len() < 3,
    ensures
        scan_from(st, seq!['.']) == (Scan { groups: st.groups.push(st.cur), cur: 0, ndig: 0, ..st }),
{
    let t = seq!['.'];
    assert(t.drop_last() =~= Seq::<char>::empty());
    assert(scan_from(st, Seq::<char>::empty()) == st);
    lemma_scan_one(st, t);
    assert(t.last() == '.');
}

/// Reading back the text of an address gives the address.
pub proof fn lemma_ip_text_round_trip(ip: Seq<u8>)
    requires
        ip.len() == 4,
    ensures
        ip_of_text(ip_text(ip)) == Some(ip),
{
    let s0 = scan_start();
    let d0 = decimal(ip[0]);
    let d1 = decimal(ip[1]);
    let d2 = decimal(ip[2]);
    let d3 = decimal(ip[3]);
    let dot = seq!['.'];
    lemma_scan_digits(s0, ip[0]);
    let s1 = scan_from(s0, d0);
    lemma_scan_dot(s1);
    let s2 = scan_from(s1, dot);
    lemma_scan_digits(s2, ip[1]);
    let s3 = scan_from(s2, d1);
    lemma_scan_dot(s3);
    let s4 = scan_from(s3, dot);
    lemma_scan_digits(s4, ip[2]);
    let s5 = scan_from(s4, d2);
    lemma_scan_dot(s5);
    let s6 = scan_from(s5, dot);
    lemma_scan_digits(s6, ip[3]);
    lemma_scan_concat(s0, d0, dot);
    lemma_scan_concat(s0, d0 + dot, d1);
    lemma_scan_concat(s0, d0 + dot + d1, dot);
    lemma_scan_concat(s0, d0 + dot + d1 + dot, d2);
    lemma_scan_concat(s0, d0 + dot + d1 + dot + d2, dot);
    lemma_scan_concat(s0, d0 + dot + d1 + dot + d2 + dot, d3);
    let fin = scan_from(s0, ip_text(ip));
    assert(fin.groups =~= seq![ip[0] as int, ip[1] as int, ip[2] as int]);
    assert(seq![fin.groups[0] as u8, fin.groups[1] as u8, fin.groups[2] as u8, fin.cur as u8] =~= ip);
}


fn push_digit(s: &mut String, d: u8)
    requires
        d <= 9,
    ensures
        final(s)@ == old(s)@.push(digit_char(d as int)),
{
    match d {
        0 => {
            proof {
                reveal_strlit("0");
            }
            s.append("0");
        },
        1 => {
            proof {
                reveal_strlit("1");
            }
            s.append("1");
        },
        2 => {
            proof {
                reveal_strlit("2");
            }
            s.append("2");
        },
        3 => {
            proof {
                reveal_strlit("3");
            }
            s.append("3");
        },
        4 => {
            proof {
                reveal_strlit("4");
            }
            s.append("4");
        },
        5 => {
            proof {
                reveal_strlit("5");
            }
            s.append("5");
        },
        6 => {
            proof {
                reveal_strlit("6");
            }
            s.append("6");
        },
        7 => {
            proof {
                reveal_strlit("7");
            }
            s.append("7");
        },
        8 => {
            proof {
                reveal_strlit("8");
            }
            s.append("8");
        },
        _ => {
            proof {
                reveal_strlit("9");
            }
            s.append("9");
        },
    }
}

fn push_decimal(s: &mut String, n: u8)
    ensures
        final(s)@ == old(s)@ + decimal(n),
{
    let ghost start = s@;
    if n >= 100 {
        push_digit(s, n / 100);
        push_digit(s, (n / 10) % 10);
        push_digit(s, n % 10);
    } else if n >= 10 {
        push_digit(s, n / 10);
        push_digit(s, n % 10);
    } else {
        push_digit(s, n);
    }
    assert(s@ =~= start + decimal(n));
}

/// The dotted-decimal text of `ip`.
pub fn format_ip(ip: &[u8; 4]) -> (r: String)
    ensures
        r@ == ip_text(ip@),
{
    let mut s = String::new();
    proof {
        reveal_strlit(".");
    }
    push_decimal(&mut s, ip[0]);
    s.append(".");
    push_decimal(&mut s, ip[1]);
    s.append(".");
    push_decimal(&mut s, ip[2]);
    s.append(".");
    push_decimal(&mut s, ip[3]);
    assert(s@ =~= ip_text(ip@));
    s
}

/// Reads dotted-decimal text: four octets of one to three digits, each at
/// most 255, separated by single dots.
pub fn parse_ip(t: &str) -> (r: Option<[u8; 4]>)
    ensures
        match ip_of_text(t@) {
            Some(ip) => r is Some && r->Some_0@ == ip,
            None => r is None,
        },
{
    let n = t.unicode_len();
    let mut ok = true;
    let mut groups: Vec<u8> = Vec::new();
    let mut cur: u32 = 0;
    let mut ndig: u32 = 0;
    let mut i: usize = 0;
    assert(t@.subrange(0, 0) =~= Seq::<char>::empty());
    while i < n
        invariant
            n == t@.len(),
            i <= n,
            cur <= 255,
            ndig <= 3,
            groups@.len() <= 3,
            ({
                let st = scan_from(scan_start(), t@.subrange(0, i as int));
                &&& st.ok == ok
                &&& st.cur == cur as int
                &&& st.ndig == ndig as int
                &&& st.groups.len() == groups@.len()
                &&& forall|k: int| 0 <= k < groups@.len() ==> st.groups[k] == groups@[k] as int
            }),
        decreases n - i,
    {
        let ghost prev = scan_from(scan_start(), t@.subrange(0, i as int));
        let c = t.get_char(i);
        assert(t@.subrange(0, i + 1).drop_last() =~= t@.subrange(0, i as int));
        assert(t@.subrange(0, i + 1).last() == c);
        if ok {
            if '0' <= c && c <= '9' {
                let v = cur * 10 + (c as u32 - 48);
                if ndig >= 3 || v > 255 {
                    ok = false;
                } else {
                    cur = v;
                    ndig = ndig + 1;
                }
            } else if c == '.' {
                if ndig == 0 || groups.len() >= 3 {
                    ok = false;
                } else {
                    groups.push(cur as u8);
                    cur = 0;
                    ndig = 0;
                }
            } else {
                ok = false;
            }
        }
        i = i + 1;
    }
    assert(t@.subrange(0, n as int) =~= t@);
    if ok && ndig > 0 && groups.len() == 3 {
        let ip = [groups[0], groups[1], groups[2], cur as u8];
        assert(ip@ =~= ip_of_text(t@).unwrap());
        Some(ip)
    } else {
        None
    }
}


/// The columns that a record is stored as: its preamble, its data as text
/// (an address in dotted decimal, a host, or the data read as UTF-8) and its
/// priority (the preference of an MX record, else 0).
#[derive(Debug)]
pub struct RecordRow {
    pub domain: String,
    pub query_type: u16,
    pub class: u16,
    pub ttl: u32,
    pub len: u16,
    pub hostipbody: String,
    pub priority: u16,
}

pub struct RowView {
    pub domain: Seq<char>,
    pub query_type: u16,
    pub class: u16,
    pub ttl: u32,
    pub len: u16,
    pub hostipbody: Seq<char>,
    pub priority: u16,
}

impl View for RecordRow {
    type V = RowView;

    open spec fn view(&self) -> RowView {
        RowView {
            domain: self.domain@,
            query_type: self.query_type,
            class: self.class,
            ttl: self.ttl,
            len: self.len,
            hostipbody: self.hostipbody@,
            priority: self.priority,
        }
    }
}

/// The data column of a record; `None` for data that is not UTF-8.
pub open spec fn body_text(r: RecordView) -> Option<Seq<char>> {
    match r {
        RecordView::Unknown(_, b) => if valid_utf8(b) {
            Some(decode_utf8(b))
        } else {
            None
        },
        RecordView::A(_, ip) => Some(ip_text(ip)),
        RecordView::AAAA(_, ip) => Some(ip_text(ip)),
        RecordView::NS(_, h) => Some(h),
        RecordView::CNAME(_, h) => Some(h),
        RecordView::MX(_, _, h) => Some(h),
        RecordView::DROP(_) => Some(seq![]),
    }
}

/// The row that stores `r`.
pub open spec fn row_of(r: RecordView) -> Option<RowView> {
    let p = r.preamble();
    match body_text(r) {
        None => None,
        Some(t) => Some(
            RowView {
                domain: p.domain,
                query_type: p.query_type.spec_num(),
                class: p.class,
                ttl: p.ttl,
                len: p.len,
                hostipbody: t,
                priority: priority_of(r),
            },
        ),
    }
}

/// The record that a row stores; its type number picks the variant. `None`
/// where an address does not read as one.
pub open spec fn record_of(row: RowView) -> Option<RecordView> {
    let p = PreambleView {
        domain: row.domain,
        query_type: DnsQueryType::spec_from_num(row.query_type),
        class: row.class,
        ttl: row.ttl,
        len: row.len,
    };
    match p.query_type {
        DnsQueryType::Unknown(_) => Some(RecordView::Unknown(p, encode_utf8(row.hostipbody))),
        DnsQueryType::A => match ip_of_text(row.hostipbody) {
            Some(ip) => Some(RecordView::A(p, ip)),
            None => None,
        },
        DnsQueryType::AAAA => match ip_of_text(row.hostipbody) {
            Some(ip) => Some(RecordView::AAAA(p, ip)),
            None => None,
        },
        DnsQueryType::NS => Some(RecordView::NS(p, row.hostipbody)),
        DnsQueryType::CNAME => Some(RecordView::CNAME(p, row.hostipbody)),
        DnsQueryType::MX => Some(RecordView::MX(p, row.priority, row.hostipbody)),
        DnsQueryType::DROP => Some(RecordView::DROP(p)),
    }
}

/// A record whose preamble type is that of its variant.
pub open spec fn type_matches(r: RecordView) -> bool {
    let t = r.preamble().query_type;
    match r {
        RecordView::Unknown(_, _) => t is Unknown && t.is_canonical(),
        RecordView::A(_, ip) => t == DnsQueryType::A && ip.len() == 4,
        RecordView::AAAA(_, ip) => t == DnsQueryType::AAAA && ip.len() == 4,
        RecordView::NS(_, _) => t == DnsQueryType::NS,
        RecordView::CNAME(_, _) => t == DnsQueryType::CNAME,
        RecordView::MX(_, _, _) => t == DnsQueryType::MX,
        RecordView::DROP(_) => t == DnsQueryType::DROP,
    }
}

/// A record whose type is that of its variant comes back whole from the row
/// that stores it.
pub proof fn lemma_row_round_trip(r: RecordView)
    requires
        type_matches(r),
        row_of(r) is Some,
    ensures
        record_of(row_of(r)->Some_0) == Some(r),
{
    match r {
        RecordView::Unknown(p, b) => {
            decode_utf8_encode_utf8(b);
        },
        RecordView::A(p, ip) => {
            lemma_ip_text_round_trip(ip);
        },
        RecordView::AAAA(p, ip) => {
            lemma_ip_text_round_trip(ip);
        },
        _ => {},
    }
}

impl DnsRecord {
    /// The row that stores this record; `None` for data that is not UTF-8.
    pub fn to_row(&self) -> (r: Option<RecordRow>)
        ensures
            match row_of(self@) {
                Some(v) => r is Some && r->Some_0@ == v,
                None => r is None,
            },
    {
        let p = self.get_preamble();
        let priority: u16 = match self {
            DnsRecord::MX(x) => x.priority,
            _ => 0,
        };
        let text = match self {
            DnsRecord::Unknown(x) => match string_from_utf8(vstd::slice::slice_to_vec(x.body.as_slice())) {
                Some(t) => t,
                None => return None,
            },
            DnsRecord::A(x) => format_ip(&x.ip),
            DnsRecord::AAAA(x) => format_ip(&x.ip),
            DnsRecord::NS(x) => x.host.clone(),
            DnsRecord::CNAME(x) => x.host.clone(),
            DnsRecord::MX(x) => x.host.clone(),
            DnsRecord::DROP(_) => String::new(),
        };
        Some(
            RecordRow {
                domain: p.domain,
                query_type: p.query_type.to_num(),
                class: p.class,
                ttl: p.ttl,
                len: p.len,
                hostipbody: text,
                priority,
            },
        )
    }
}

impl RecordRow {
    /// The record that this row stores; `None` where an address does not read
    /// as one.
    pub fn to_record(&self) -> (r: Option<DnsRecord>)
        ensures
            match record_of(self@) {
                Some(v) => r is Some && r->Some_0@ == v,
                None => r is None,
            },
    {
        let p = DnsRecordPreamble {
            domain: self.domain.clone(),
            query_type: DnsQueryType::from_num(self.query_type),
            class: self.class,
            ttl: self.ttl,
            len: self.len,
        };
        match p.query_type {
            DnsQueryType::Unknown(_) => {
                let body = vstd::slice::slice_to_vec(self.hostipbody.as_str().as_bytes());
                Some(DnsRecord::Unknown(DnsRecordUnknown { preamble: p, body }))
            },
            DnsQueryType::A => match parse_ip(self.hostipbody.as_str()) {
                Some(ip) => Some(DnsRecord::A(DnsRecordA { preamble: p, ip })),
                None => None,
            },
            DnsQueryType::AAAA => match parse_ip(self.hostipbody.as_str()) {
                Some(ip) => Some(DnsRecord::AAAA(DnsRecordAAAA { preamble: p, ip })),
                None => None,
            },
            DnsQueryType::NS => Some(DnsRecord::NS(DnsRecordNS { preamble: p, host: self.hostipbody.clone() })),
            DnsQueryType::CNAME => Some(
                DnsRecord::CNAME(DnsRecordCNAME { preamble: p, host: self.hostipbody.clone() }),
            ),
            DnsQueryType::MX => Some(
                DnsRecord::MX(
                    DnsRecordMX { preamble: p, priority: self.priority, host: self.hostipbody.clone() },
                ),
            ),
            DnsQueryType::DROP => Some(DnsRecord::DROP(DnsRecordDROP { preamble: p })),
        }
    }
}

} // verus!
