use vstd::prelude::*;

use vstd::utf8::encode_utf8;

use crate::utils::{
    domain_name_to_bytes, encode_name, get_name_from_packet, get_u16, get_u32, name_at, u16_at, u16_be,
    u16_to_bytes, u32_at, u32_be, u32_to_bytes, Malformed, lower_name, valid_domain, lemma_split,
    lemma_name_at_encoded, lemma_u16_round_trip, lemma_u32_round_trip,
};

verus! {

/// The four-bit operation code of a header.
#[derive(Clone, Copy, Debug, PartialEq, Eq, Structural)]
pub enum DnsOpCode {
    QUERY,
    IQUERY,
    STATUS,
    NOTIFY,
    UPDATE,
    DNSSO,
}

impl DnsOpCode {
    pub open spec fn spec_num(self) -> u8 {
        match self {
            DnsOpCode::QUERY => 0,
            DnsOpCode::IQUERY => 1,
            DnsOpCode::STATUS => 2,
            DnsOpCode::NOTIFY => 4,
            DnsOpCode::UPDATE => 5,
            DnsOpCode::DNSSO => 6,
        }
    }

    /// The code for `num`; values with no code decode to `QUERY`.
    pub open spec fn spec_from_num(num: u8) -> DnsOpCode {
        if num == 1 {
            DnsOpCode::IQUERY
        } else if num == 2 {
            DnsOpCode::STATUS
        } else if num == 4 {
            DnsOpCode::NOTIFY
        } else if num == 5 {
            DnsOpCode::UPDATE
        } else if num == 6 {
            DnsOpCode::DNSSO
        } else {
            DnsOpCode::QUERY
        }
    }

    pub fn to_num(&self) -> (r: u8)
        ensures
            r == self.spec_num(),
    {
        match self {
            DnsOpCode::QUERY => 0,
            DnsOpCode::IQUERY => 1,
            DnsOpCode::STATUS => 2,
            DnsOpCode::NOTIFY => 4,
            DnsOpCode::UPDATE => 5,
            DnsOpCode::DNSSO => 6,
        }
    }

    pub fn from_num(num: u8) -> (r: DnsOpCode)
        ensures
            r == DnsOpCode::spec_from_num(num),
    {
        match num {
            1 => DnsOpCode::IQUERY,
            2 => DnsOpCode::STATUS,
            4 => DnsOpCode::NOTIFY,
            5 => DnsOpCode::UPDATE,
            6 => DnsOpCode::DNSSO,
            _ => DnsOpCode::QUERY,
        }
    }
}

/// The four-bit response code of a header.
#[derive(Clone, Copy, Debug, PartialEq, Eq, Structural)]
pub enum DnsResponseCode {
    NOERROR,
    FORMERR,
    SERVFAIL,
    NXDOMAIN,
    NOTIMP,
    REFUSED,
    YXDOMAIN,
    YXRRSET,
    NXRRSET,
    NOTAUTH,
    NOTZONE,
    DSOTYPENI,
}

impl DnsResponseCode {
    pub open spec fn spec_num(self) -> u8 {
        match self {
            DnsResponseCode::NOERROR => 0,
            DnsResponseCode::FORMERR => 1,
            DnsResponseCode::SERVFAIL => 2,
            DnsResponseCode::NXDOMAIN => 3,
            DnsResponseCode::NOTIMP => 4,
            DnsResponseCode::REFUSED => 5,
            DnsResponseCode::YXDOMAIN => 6,
            DnsResponseCode::YXRRSET => 7,
            DnsResponseCode::NXRRSET => 8,
            DnsResponseCode::NOTAUTH => 9,
            DnsResponseCode::NOTZONE => 10,
            DnsResponseCode::DSOTYPENI => 11,
        }
    }

    /// The code for `num`; values with no code decode to `NOERROR`.
    pub open spec fn spec_from_num(num: u8) -> DnsResponseCode {
        if num == 1 {
            DnsResponseCode::FORMERR
        } else if num == 2 {
            DnsResponseCode::SERVFAIL
        } else if num == 3 {
            DnsResponseCode::NXDOMAIN
        } else if num == 4 {
            DnsResponseCode::NOTIMP
        } else if num == 5 {
            DnsResponseCode::REFUSED
        } else if num == 6 {
            DnsResponseCode::YXDOMAIN
        } else if num == 7 {
            DnsResponseCode::YXRRSET
        } else if num == 8 {
            DnsResponseCode::NXRRSET
        } else if num == 9 {
            DnsResponseCode::NOTAUTH
        } else if num == 10 {
            DnsResponseCode::NOTZONE
        } else if num == 11 {
            DnsResponseCode::DSOTYPENI
        } else {
            DnsResponseCode::NOERROR
        }
    }

    pub fn to_num(&self) -> (r: u8)
        ensures
            r == self.spec_num(),
    {
        match self {
            DnsResponseCode::NOERROR => 0,
            DnsResponseCode::FORMERR => 1,
            DnsResponseCode::SERVFAIL => 2,
            DnsResponseCode::NXDOMAIN => 3,
            DnsResponseCode::NOTIMP => 4,
            DnsResponseCode::REFUSED => 5,
            DnsResponseCode::YXDOMAIN => 6,
            DnsResponseCode::YXRRSET => 7,
            DnsResponseCode::NXRRSET => 8,
            DnsResponseCode::NOTAUTH => 9,
            DnsResponseCode::NOTZONE => 10,
            DnsResponseCode::DSOTYPENI => 11,
        }
    }

    pub fn from_num(num: u8) -> (r: DnsResponseCode)
        ensures
            r == DnsResponseCode::spec_from_num(num),
    {
        match num {
            1 => DnsResponseCode::FORMERR,
            2 => DnsResponseCode::SERVFAIL,
            3 => DnsResponseCode::NXDOMAIN,
            4 => DnsResponseCode::NOTIMP,
            5 => DnsResponseCode::REFUSED,
            6 => DnsResponseCode::YXDOMAIN,
            7 => DnsResponseCode::YXRRSET,
            8 => DnsResponseCode::NXRRSET,
            9 => DnsResponseCode::NOTAUTH,
            10 => DnsResponseCode::NOTZONE,
            11 => DnsResponseCode::DSOTYPENI,
            _ => DnsResponseCode::NOERROR,
        }
    }
}

/// The record type of a question or a record. `DROP` is a type of the local
/// store only: a name that holds one is answered with `NXDOMAIN`.
#[derive(Clone, Copy, Debug, PartialEq, Eq, Structural)]
pub enum DnsQueryType {
    Unknown(u16),
    A,
    NS,
    CNAME,
    MX,
    AAAA,
    DROP,
}

impl DnsQueryType {
    pub open spec fn spec_num(self) -> u16 {
        match self {
            DnsQueryType::Unknown(x) => x,
            DnsQueryType::A => 1,
            DnsQueryType::NS => 2,
            DnsQueryType::CNAME => 5,
            DnsQueryType::MX => 15,
            DnsQueryType::AAAA => 28,
            DnsQueryType::DROP => 666,
        }
    }

    pub open spec fn spec_from_num(num: u16) -> DnsQueryType {
        if num == 1 {
            DnsQueryType::A
        } else if num == 2 {
            DnsQueryType::NS
        } else if num == 5 {
            DnsQueryType::CNAME
        } else if num == 15 {
            DnsQueryType::MX
        } else if num == 28 {
            DnsQueryType::AAAA
        } else if num == 666 {
            DnsQueryType::DROP
        } else {
            DnsQueryType::Unknown(num)
        }
    }

    /// A type as it comes off the wire: `Unknown` only for numbers that no
    /// named type has.
    pub open spec fn is_canonical(self) -> bool {
        DnsQueryType::spec_from_num(self.spec_num()) == self
    }

    pub fn to_num(&self) -> (r: u16)
        ensures
            r == self.spec_num(),
    {
        match self {
            DnsQueryType::Unknown(x) => *x,
            DnsQueryType::A => 1,
            DnsQueryType::NS => 2,
            DnsQueryType::CNAME => 5,
            DnsQueryType::MX => 15,
            DnsQueryType::AAAA => 28,
            DnsQueryType::DROP => 666,
        }
    }

    pub fn from_num(num: u16) -> (r: DnsQueryType)
        ensures
            r == DnsQueryType::spec_from_num(num),
            r.spec_num() == num,
    {
        match num {
            1 => DnsQueryType::A,
            2 => DnsQueryType::NS,
            5 => DnsQueryType::CNAME,
            15 => DnsQueryType::MX,
            28 => DnsQueryType::AAAA,
            666 => DnsQueryType::DROP,
            x => DnsQueryType::Unknown(x),
        }
    }
}

/// Decoding the number of each named type gives that type back.
pub proof fn lemma_query_type_round_trip(t: DnsQueryType)
    requires
        !(t is Unknown),
    ensures
        DnsQueryType::spec_from_num(t.spec_num()) == t,
{
}

/// Decoding the number of any operation code gives that code back.
pub proof fn lemma_op_code_round_trip(c: DnsOpCode)
    ensures
        DnsOpCode::spec_from_num(c.spec_num()) == c,
{
}

/// Decoding the number of any response code gives that code back.
pub proof fn lemma_response_code_round_trip(c: DnsResponseCode)
    ensures
        DnsResponseCode::spec_from_num(c.spec_num()) == c,
{
}


/// Relies on `rand::random`: a value drawn from the thread's generator; nothing
/// is known of it.
pub assume_specification<T>[ rand::random::<T> ]() -> (r: T)
    where
        rand::distributions::Standard: rand::distributions::Distribution<T>,
;

/// The fixed twelve-byte header of a message.
#[derive(Clone, Copy, Debug, PartialEq, Eq, Structural)]
pub struct DnsHeader {
    pub id: u16,
    pub query_response: bool,
    pub op_code: DnsOpCode,
    pub auth_answer: bool,
    pub truncated_message: bool,
    pub recurse_desired: bool,
    pub recurse_available: bool,
    pub checking_disabled: bool,
    pub authed_data: bool,
    pub z: bool,
    pub response_code: DnsResponseCode,
    pub question_count: u16,
    pub answer_count: u16,
    pub authority_count: u16,
    pub additional_count: u16,
}

pub open spec fn bit(b: bool) -> u8 {
    if b {
        1
    } else {
        0
    }
}

/// Third byte of the header, most significant bit first: QR, OpCode (4), AA, TC, RD.
pub open spec fn flags_high(h: DnsHeader) -> u8 {
    bit(h.recurse_desired) | (bit(h.truncated_message) << 1u8) | (bit(h.auth_answer) << 2u8) | (
    h.op_code.spec_num() << 3u8) | (bit(h.query_response) << 7u8)
}

/// Fourth byte of the header, most significant bit first: RA, Z, AD, CD, RCode (4).
pub open spec fn flags_low(h: DnsHeader) -> u8 {
    h.response_code.spec_num() | (bit(h.checking_disabled) << 4u8) | (bit(h.authed_data) << 5u8) | (
    bit(h.z) << 6u8) | (bit(h.recurse_available) << 7u8)
}

/// The wire form of a header.
#[verifier::opaque]
pub open spec fn header_bytes(h: DnsHeader) -> Seq<u8> {
    u16_be(h.id) + seq![flags_high(h), flags_low(h)] + u16_be(h.question_count) + u16_be(
        h.answer_count,
    ) + u16_be(h.authority_count) + u16_be(h.additional_count)
}

/// The header that twelve bytes hold.
#[verifier::opaque]
pub open spec fn header_from(b: Seq<u8>) -> DnsHeader {
    DnsHeader {
        id: u16_at(b, 0),
        query_response: (b[2] >> 7u8) & 1 != 0,
        op_code: DnsOpCode::spec_from_num((b[2] >> 3u8) & 15),
        auth_answer: (b[2] >> 2u8) & 1 != 0,
        truncated_message: (b[2] >> 1u8) & 1 != 0,
        recurse_desired: b[2] & 1 != 0,
        recurse_available: (b[3] >> 7u8) & 1 != 0,
        z: (b[3] >> 6u8) & 1 != 0,
        authed_data: (b[3] >> 5u8) & 1 != 0,
        checking_disabled: (b[3] >> 4u8) & 1 != 0,
        response_code: DnsResponseCode::spec_from_num(b[3] & 15),
        question_count: u16_at(b, 4),
        answer_count: u16_at(b, 6),
        authority_count: u16_at(b, 8),
        additional_count: u16_at(b, 10),
    }
}

fn bit_of(b: bool) -> (r: u8)
    ensures
        r == bit(b),
{
    if b {
        1
    } else {
        0
    }
}

impl DnsHeader {
    /// A query header with a random id, every flag clear, `QUERY`, `NOERROR`
    /// and no sections.
    pub fn new() -> (r: Self)
        ensures
            r == (DnsHeader { id: r.id, ..DnsHeader::empty_spec() }),
    {
        DnsHeader { id: rand::random::<u16>(), ..DnsHeader::with_id(0) }
    }

    pub open spec fn empty_spec() -> DnsHeader {
        DnsHeader {
            id: 0,
            query_response: false,
            op_code: DnsOpCode::QUERY,
            auth_answer: false,
            truncated_message: false,
            recurse_desired: false,
            recurse_available: false,
            checking_disabled: false,
            authed_data: false,
            z: false,
            response_code: DnsResponseCode::NOERROR,
            question_count: 0,
            answer_count: 0,
            authority_count: 0,
            additional_count: 0,
        }
    }

    /// The header of `new`, with the given id.
    pub fn with_id(id: u16) -> (r: Self)
        ensures
            r == (DnsHeader { id, ..DnsHeader::empty_spec() }),
    {
        DnsHeader {
            id,
            query_response: false,
            op_code: DnsOpCode::QUERY,
            auth_answer: false,
            truncated_message: false,
            recurse_desired: false,
            recurse_available: false,
            checking_disabled: false,
            authed_data: false,
            z: false,
            response_code: DnsResponseCode::NOERROR,
            question_count: 0,
            answer_count: 0,
            authority_count: 0,
            additional_count: 0,
        }
    }

    pub fn to_bytes(&self) -> (r: Vec<u8>)
        ensures
            r@ == header_bytes(*self),
    {
        let mut result = u16_to_bytes(self.id);
        result.push(
            bit_of(self.recurse_desired) | (bit_of(self.truncated_message) << 1u8) | (bit_of(
                self.auth_answer,
            ) << 2u8) | (self.op_code.to_num() << 3u8) | (bit_of(self.query_response) << 7u8),
        );
        result.push(
            self.response_code.to_num() | (bit_of(self.checking_disabled) << 4u8) | (bit_of(
                self.authed_data,
            ) << 5u8) | (bit_of(self.z) << 6u8) | (bit_of(self.recurse_available) << 7u8),
        );
        let mut qd = u16_to_bytes(self.question_count);
        result.append(&mut qd);
        let mut an = u16_to_bytes(self.answer_count);
        result.append(&mut an);
        let mut ns = u16_to_bytes(self.authority_count);
        result.append(&mut ns);
        let mut ar = u16_to_bytes(self.additional_count);
        result.append(&mut ar);
        proof {
            reveal(header_bytes);
        }
        assert(result@ =~= header_bytes(*self));
        result
    }

    /// Reads a header from exactly twelve bytes; `Truncated` for any other length.
    pub fn from_bytes(bytes: &[u8]) -> (r: Result<Self, Malformed>)
        ensures
            r is Ok <==> bytes@.len() == 12,
            r is Ok ==> r->Ok_0 == header_from(bytes@),
            r is Err ==> r->Err_0 == Malformed::Truncated,
    {
        if bytes.len() != 12 {
            return Err(Malformed::Truncated);
        }
        proof {
            reveal(header_from);
        }
        let b2 = bytes[2];
        let b3 = bytes[3];
        Ok(DnsHeader {
            id: (bytes[0] as u16) * 256 + bytes[1] as u16,
            query_response: (b2 >> 7u8) & 1 != 0,
            op_code: DnsOpCode::from_num((b2 >> 3u8) & 15),
            auth_answer: (b2 >> 2u8) & 1 != 0,
            truncated_message: (b2 >> 1u8) & 1 != 0,
            recurse_desired: b2 & 1 != 0,
            recurse_available: (b3 >> 7u8) & 1 != 0,
            z: (b3 >> 6u8) & 1 != 0,
            authed_data: (b3 >> 5u8) & 1 != 0,
            checking_disabled: (b3 >> 4u8) & 1 != 0,
            response_code: DnsResponseCode::from_num(b3 & 15),
            question_count: (bytes[4] as u16) * 256 + bytes[5] as u16,
            answer_count: (bytes[6] as u16) * 256 + bytes[7] as u16,
            authority_count: (bytes[8] as u16) * 256 + bytes[9] as u16,
            additional_count: (bytes[10] as u16) * 256 + bytes[11] as u16,
        })
    }
}

proof fn lemma_flag_bits(r: u8, t: u8, a: u8, op: u8, q: u8)
    requires
        r <= 1,
        t <= 1,
        a <= 1,
        op < 16,
        q <= 1,
    ensures
        ({
            let x = r | (t << 1u8) | (a << 2u8) | (op << 3u8) | (q << 7u8);
            &&& (x >> 7u8) & 1 == q
            &&& (x >> 3u8) & 15 == op
            &&& (x >> 2u8) & 1 == a
            &&& (x >> 1u8) & 1 == t
            &&& x & 1 == r
        }),
{
    assert(r <= 1 && t <= 1 && a <= 1 && op < 16 && q <= 1 ==> ({
        let x = r | (t << 1u8) | (a << 2u8) | (op << 3u8) | (q << 7u8);
        &&& (x >> 7u8) & 1 == q
        &&& (x >> 3u8) & 15 == op
        &&& (x >> 2u8) & 1 == a
        &&& (x >> 1u8) & 1 == t
        &&& x & 1 == r
    })) by (bit_vector);
}

proof fn lemma_low_flag_bits(rc: u8, cd: u8, ad: u8, z: u8, ra: u8)
    requires
        rc < 16,
        cd <= 1,
        ad <= 1,
        z <= 1,
        ra <= 1,
    ensures
        ({
            let x = rc | (cd << 4u8) | (ad << 5u8) | (z << 6u8) | (ra << 7u8);
            &&& (x >> 7u8) & 1 == ra
            &&& (x >> 6u8) & 1 == z
            &&& (x >> 5u8) & 1 == ad
            &&& (x >> 4u8) & 1 == cd
            &&& x & 15 == rc
        }),
{
    assert(rc < 16 && cd <= 1 && ad <= 1 && z <= 1 && ra <= 1 ==> ({
        let x = rc | (cd << 4u8) | (ad << 5u8) | (z << 6u8) | (ra << 7u8);
        &&& (x >> 7u8) & 1 == ra
        &&& (x >> 6u8) & 1 == z
        &&& (x >> 5u8) & 1 == ad
        &&& (x >> 4u8) & 1 == cd
        &&& x & 15 == rc
    })) by (bit_vector);
}

/// Every field of a header, each flag at its bit, survives writing the header
/// and reading it back.
pub proof fn lemma_header_round_trip(h: DnsHeader)
    ensures
        header_bytes(h).len() == 12,
        header_from(header_bytes(h)) == h,
{
    reveal(header_from);
    reveal(header_bytes);
    let b = header_bytes(h);
    lemma_flag_bits(
        bit(h.recurse_desired),
        bit(h.truncated_message),
        bit(h.auth_answer),
        h.op_code.spec_num(),
        bit(h.query_response),
    );
    lemma_low_flag_bits(
        h.response_code.spec_num(),
        bit(h.checking_disabled),
        bit(h.authed_data),
        bit(h.z),
        bit(h.recurse_available),
    );
    lemma_op_code_round_trip(h.op_code);
    lemma_response_code_round_trip(h.response_code);
    assert(b[2] == flags_high(h));
    assert(b[3] == flags_low(h));
    assert(b.subrange(0, 2) =~= u16_be(h.id));
    assert(b.subrange(4, 6) =~= u16_be(h.question_count));
    assert(b.subrange(6, 8) =~= u16_be(h.answer_count));
    assert(b.subrange(8, 10) =~= u16_be(h.authority_count));
    assert(b.subrange(10, 12) =~= u16_be(h.additional_count));
    crate::utils::lemma_u16_round_trip(h.id, b, 0);
    crate::utils::lemma_u16_round_trip(h.question_count, b, 4);
    crate::utils::lemma_u16_round_trip(h.answer_count, b, 6);
    crate::utils::lemma_u16_round_trip(h.authority_count, b, 8);
    crate::utils::lemma_u16_round_trip(h.additional_count, b, 10);
}


/// The wire form of the name written as the characters `name`.
pub open spec fn name_bytes(name: Seq<char>) -> Seq<u8> {
    encode_name(encode_utf8(name))
}

fn name_to_bytes(name: &String) -> (r: Vec<u8>)
    ensures
        r@ == name_bytes(name@),
{
    domain_name_to_bytes(name.as_str())
}

/// A question: a name, a type and a class.
#[derive(Debug)]
pub struct DnsQuestion {
    pub name: String,
    pub query_type: DnsQueryType,
    pub class: u16,
}

pub struct QuestionView {
    pub name: Seq<char>,
    pub query_type: DnsQueryType,
    pub class: u16,
}

impl View for DnsQuestion {
    type V = QuestionView;

    open spec fn view(&self) -> QuestionView {
        QuestionView { name: self.name@, query_type: self.query_type, class: self.class }
    }
}

impl Clone for DnsQuestion {
    fn clone(&self) -> (r: Self)
        ensures
            r@ == self@,
    {
        DnsQuestion { name: self.name.clone(), query_type: self.query_type, class: self.class }
    }
}

pub open spec fn question_bytes(q: QuestionView) -> Seq<u8> {
    name_bytes(q.name) + u16_be(q.query_type.spec_num()) + u16_be(q.class)
}

impl DnsQuestion {
    /// A question of class 1 (IN).
    pub fn new(name: String, query_type: DnsQueryType) -> (r: Self)
        ensures
            r@ == (QuestionView { name: name@, query_type, class: 1 }),
    {
        DnsQuestion { name, query_type, class: 1 }
    }

    pub fn to_bytes(&self) -> (r: Vec<u8>)
        ensures
            r@ == question_bytes(self@),
    {
        let mut result = name_to_bytes(&self.name);
        let mut t = u16_to_bytes(self.query_type.to_num());
        result.append(&mut t);
        let mut c = u16_to_bytes(self.class);
        result.append(&mut c);
        result
    }

    /// The question with an empty name, type `Unknown(0)` and class 0.
    pub fn empty() -> (r: Self)
        ensures
            r@ == (QuestionView { name: seq![], query_type: DnsQueryType::Unknown(0), class: 0 }),
    {
        DnsQuestion { name: String::new(), query_type: DnsQueryType::Unknown(0), class: 0 }
    }
}

/// The fields that every record starts with. `len` is the length of the
/// record's data.
#[derive(Debug)]
pub struct DnsRecordPreamble {
    pub domain: String,
    pub query_type: DnsQueryType,
    pub class: u16,
    pub ttl: u32,
    pub len: u16,
}

pub struct PreambleView {
    pub domain: Seq<char>,
    pub query_type: DnsQueryType,
    pub class: u16,
    pub ttl: u32,
    pub len: u16,
}

impl View for DnsRecordPreamble {
    type V = PreambleView;

    open spec fn view(&self) -> PreambleView {
        PreambleView {
            domain: self.domain@,
            query_type: self.query_type,
            class: self.class,
            ttl: self.ttl,
            len: self.len,
        }
    }
}

impl Clone for DnsRecordPreamble {
    fn clone(&self) -> (r: Self)
        ensures
            r@ == self@,
    {
        DnsRecordPreamble {
            domain: self.domain.clone(),
            query_type: self.query_type,
            class: self.class,
            ttl: self.ttl,
            len: self.len,
        }
    }
}

/// The preamble's wire form, with `len` as the data length.
pub open spec fn preamble_bytes(p: PreambleView, len: u16) -> Seq<u8> {
    name_bytes(p.domain) + u16_be(p.query_type.spec_num()) + u16_be(p.class) + u32_be(p.ttl)
        + u16_be(len)
}

impl PreambleView {
    pub open spec fn with_len(self, len: u16) -> PreambleView {
        PreambleView { len, ..self }
    }
}

impl DnsRecordPreamble {
    /// An empty preamble: no name, type `Unknown(0)`, every number 0.
    pub fn new() -> (r: Self)
        ensures
            r@ == (PreambleView {
                domain: seq![],
                query_type: DnsQueryType::Unknown(0),
                class: 0,
                ttl: 0,
                len: 0,
            }),
    {
        DnsRecordPreamble {
            domain: String::new(),
            query_type: DnsQueryType::Unknown(0),
            class: 0,
            ttl: 0,
            len: 0,
        }
    }

    /// A preamble with the given fields and a data length of 0, which the
    /// record's constructor sets.
    pub fn build(domain: String, query_type: DnsQueryType, class: u16, ttl: u32) -> (r: Self)
        ensures
            r@ == (PreambleView { domain: domain@, query_type, class, ttl, len: 0 }),
    {
        DnsRecordPreamble { domain, query_type, class, ttl, len: 0 }
    }
}

fn preamble_to_bytes_with_len(p: &DnsRecordPreamble, len: u16) -> (r: Vec<u8>)
    ensures
        r@ == preamble_bytes(p@, len),
{
    let mut result = name_to_bytes(&p.domain);
    let mut t = u16_to_bytes(p.query_type.to_num());
    result.append(&mut t);
    let mut c = u16_to_bytes(p.class);
    result.append(&mut c);
    let mut ttl = u32_to_bytes(p.ttl);
    result.append(&mut ttl);
    let mut l = u16_to_bytes(len);
    result.append(&mut l);
    result
}

/// The preamble's wire form, with its own `len`.
pub fn dns_record_preamble_to_vec_u8(value: &DnsRecordPreamble) -> (r: Vec<u8>)
    ensures
        r@ == preamble_bytes(value@, value.len),
{
    preamble_to_bytes_with_len(value, value.len)
}


/// A record of a type that has no variant of its own: its data as bytes.
#[derive(Debug)]
pub struct DnsRecordUnknown {
    pub preamble: DnsRecordPreamble,
    pub body: Vec<u8>,
}

/// A record that makes its name answer `NXDOMAIN`; it has no data.
#[derive(Debug)]
pub struct DnsRecordDROP {
    pub preamble: DnsRecordPreamble,
}

/// An address record: four octets.
#[derive(Debug)]
pub struct DnsRecordA {
    pub preamble: DnsRecordPreamble,
    pub ip: [u8; 4],
}

/// A name-server record.
#[derive(Debug)]
pub struct DnsRecordNS {
    pub preamble: DnsRecordPreamble,
    pub host: String,
}

/// A canonical-name record.
#[derive(Debug)]
pub struct DnsRecordCNAME {
    pub preamble: DnsRecordPreamble,
    pub host: String,
}

/// A mail-exchange record: a preference and a host.
#[derive(Debug)]
pub struct DnsRecordMX {
    pub preamble: DnsRecordPreamble,
    pub priority: u16,
    pub host: String,
}

/// An IPv6 address record, which this store holds as four octets only.
#[derive(Debug)]
pub struct DnsRecordAAAA {
    pub preamble: DnsRecordPreamble,
    pub ip: [u8; 4],
}

/// A resource record: a preamble and the data of its type.
#[derive(Debug)]
pub enum DnsRecord {
    Unknown(DnsRecordUnknown),
    A(DnsRecordA),
    NS(DnsRecordNS),
    CNAME(DnsRecordCNAME),
    MX(DnsRecordMX),
    AAAA(DnsRecordAAAA),
    DROP(DnsRecordDROP),
}

pub enum RecordView {
    Unknown(PreambleView, Seq<u8>),
    A(PreambleView, Seq<u8>),
    NS(PreambleView, Seq<char>),
    CNAME(PreambleView, Seq<char>),
    MX(PreambleView, u16, Seq<char>),
    AAAA(PreambleView, Seq<u8>),
    DROP(PreambleView),
}

impl RecordView {
    pub open spec fn preamble(self) -> PreambleView {
        match self {
            RecordView::Unknown(p, _) => p,
            RecordView::A(p, _) => p,
            RecordView::NS(p, _) => p,
            RecordView::CNAME(p, _) => p,
            RecordView::MX(p, _, _) => p,
            RecordView::AAAA(p, _) => p,
            RecordView::DROP(p) => p,
        }
    }

    /// The data as it goes on the wire.
    pub open spec fn rdata(self) -> Seq<u8> {
        match self {
            RecordView::Unknown(_, body) => body,
            RecordView::A(_, ip) => ip,
            RecordView::NS(_, host) => name_bytes(host),
            RecordView::CNAME(_, host) => name_bytes(host),
            RecordView::MX(_, priority, host) => u16_be(priority) + name_bytes(host),
            RecordView::AAAA(_, ip) => ip,
            RecordView::DROP(_) => seq![],
        }
    }
}

/// The wire form of a record; its data length is counted here. A `DROP`
/// record belongs to the local store and is not written.
pub open spec fn record_bytes(r: RecordView) -> Seq<u8> {
    if r is DROP {
        seq![]
    } else {
        preamble_bytes(r.preamble(), (r.rdata().len() % 65536) as u16) + r.rdata()
    }
}

impl View for DnsRecord {
    type V = RecordView;

    open spec fn view(&self) -> RecordView {
        match self {
            DnsRecord::Unknown(x) => RecordView::Unknown(x.preamble@, x.body@),
            DnsRecord::A(x) => RecordView::A(x.preamble@, x.ip@),
            DnsRecord::NS(x) => RecordView::NS(x.preamble@, x.host@),
            DnsRecord::CNAME(x) => RecordView::CNAME(x.preamble@, x.host@),
            DnsRecord::MX(x) => RecordView::MX(x.preamble@, x.priority, x.host@),
            DnsRecord::AAAA(x) => RecordView::AAAA(x.preamble@, x.ip@),
            DnsRecord::DROP(x) => RecordView::DROP(x.preamble@),
        }
    }
}

fn copy_bytes(v: &Vec<u8>) -> (r: Vec<u8>)
    ensures
        r@ == v@,
{
    vstd::slice::slice_to_vec(v.as_slice())
}

impl Clone for DnsRecord {
    fn clone(&self) -> (r: Self)
        ensures
            r@ == self@,
    {
        match self {
            DnsRecord::Unknown(x) => DnsRecord::Unknown(
                DnsRecordUnknown { preamble: x.preamble.clone(), body: copy_bytes(&x.body) },
            ),
            DnsRecord::A(x) => DnsRecord::A(DnsRecordA { preamble: x.preamble.clone(), ip: x.ip }),
            DnsRecord::NS(x) => DnsRecord::NS(
                DnsRecordNS { preamble: x.preamble.clone(), host: x.host.clone() },
            ),
            DnsRecord::CNAME(x) => DnsRecord::CNAME(
                DnsRecordCNAME { preamble: x.preamble.clone(), host: x.host.clone() },
            ),
            DnsRecord::MX(x) => DnsRecord::MX(
                DnsRecordMX { preamble: x.preamble.clone(), priority: x.priority, host: x.host.clone() },
            ),
            DnsRecord::AAAA(x) => DnsRecord::AAAA(
                DnsRecordAAAA { preamble: x.preamble.clone(), ip: x.ip },
            ),
            DnsRecord::DROP(x) => DnsRecord::DROP(DnsRecordDROP { preamble: x.preamble.clone() }),
        }
    }
}

impl DnsRecord {
    pub fn get_query_type(&self) -> (r: DnsQueryType)
        ensures
            r == self@.preamble().query_type,
    {
        match self {
            DnsRecord::Unknown(x) => x.preamble.query_type,
            DnsRecord::A(x) => x.preamble.query_type,
            DnsRecord::NS(x) => x.preamble.query_type,
            DnsRecord::CNAME(x) => x.preamble.query_type,
            DnsRecord::MX(x) => x.preamble.query_type,
            DnsRecord::AAAA(x) => x.preamble.query_type,
            DnsRecord::DROP(x) => x.preamble.query_type,
        }
    }

    pub fn get_preamble(&self) -> (r: DnsRecordPreamble)
        ensures
            r@ == self@.preamble(),
    {
        match self {
            DnsRecord::Unknown(x) => x.preamble.clone(),
            DnsRecord::A(x) => x.preamble.clone(),
            DnsRecord::NS(x) => x.preamble.clone(),
            DnsRecord::CNAME(x) => x.preamble.clone(),
            DnsRecord::MX(x) => x.preamble.clone(),
            DnsRecord::AAAA(x) => x.preamble.clone(),
            DnsRecord::DROP(x) => x.preamble.clone(),
        }
    }

    /// The record's wire form; nothing for a `DROP` record.
    pub fn to_bytes(&self) -> (r: Vec<u8>)
        ensures
            r@ == record_bytes(self@),
    {
        match self {
            DnsRecord::Unknown(x) => dns_record_unknown_to_vec_u8(x),
            DnsRecord::A(x) => dns_record_a_to_vec_u8(x),
            DnsRecord::NS(x) => dns_record_ns_to_vec_u8(x),
            DnsRecord::CNAME(x) => dns_record_cname_to_vec_u8(x),
            DnsRecord::MX(x) => dns_record_mx_to_vec_u8(x),
            DnsRecord::AAAA(x) => dns_record_aaaa_to_vec_u8(x),
            DnsRecord::DROP(_) => Vec::new(),
        }
    }
}

/// A preamble followed by `rdata`, whose length it records.
fn with_rdata(p: &DnsRecordPreamble, rdata: Vec<u8>) -> (r: Vec<u8>)
    ensures
        r@ == preamble_bytes(p@, (rdata@.len() % 65536) as u16) + rdata@,
{
    let mut rdata = rdata;
    let mut result = preamble_to_bytes_with_len(p, (rdata.len() % 65536) as u16);
    result.append(&mut rdata);
    result
}

fn octets(ip: &[u8; 4]) -> (r: Vec<u8>)
    ensures
        r@ == ip@,
{
    let r = vec![ip[0], ip[1], ip[2], ip[3]];
    assert(r@ =~= ip@);
    r
}

pub fn dns_record_unknown_to_vec_u8(value: &DnsRecordUnknown) -> (r: Vec<u8>)
    ensures
        r@ == record_bytes(RecordView::Unknown(value.preamble@, value.body@)),
{
    with_rdata(&value.preamble, copy_bytes(&value.body))
}

pub fn dns_record_a_to_vec_u8(value: &DnsRecordA) -> (r: Vec<u8>)
    ensures
        r@ == record_bytes(RecordView::A(value.preamble@, value.ip@)),
{
    with_rdata(&value.preamble, octets(&value.ip))
}

pub fn dns_record_ns_to_vec_u8(value: &DnsRecordNS) -> (r: Vec<u8>)
    ensures
        r@ == record_bytes(RecordView::NS(value.preamble@, value.host@)),
{
    with_rdata(&value.preamble, name_to_bytes(&value.host))
}

pub fn dns_record_cname_to_vec_u8(value: &DnsRecordCNAME) -> (r: Vec<u8>)
    ensures
        r@ == record_bytes(RecordView::CNAME(value.preamble@, value.host@)),
{
    with_rdata(&value.preamble, name_to_bytes(&value.host))
}

pub fn dns_record_mx_to_vec_u8(value: &DnsRecordMX) -> (r: Vec<u8>)
    ensures
        r@ == record_bytes(RecordView::MX(value.preamble@, value.priority, value.host@)),
{
    let mut rdata = u16_to_bytes(value.priority);
    let mut host = name_to_bytes(&value.host);
    rdata.append(&mut host);
    with_rdata(&value.preamble, rdata)
}

pub fn dns_record_aaaa_to_vec_u8(value: &DnsRecordAAAA) -> (r: Vec<u8>)
    ensures
        r@ == record_bytes(RecordView::AAAA(value.preamble@, value.ip@)),
{
    with_rdata(&value.preamble, octets(&value.ip))
}

impl DnsRecordUnknown {
    /// Sets the data length to that of `body`.
    pub fn new(preamble: DnsRecordPreamble, body: Vec<u8>) -> (r: Self)
        ensures
            r.preamble@ == preamble@.with_len((body@.len() % 65536) as u16),
            r.body@ == body@,
    {
        let mut preamble = preamble;
        preamble.len = (body.len() % 65536) as u16;
        DnsRecordUnknown { preamble, body }
    }
}

impl DnsRecordDROP {
    pub fn new(preamble: DnsRecordPreamble) -> (r: Self)
        ensures
            r.preamble@ == preamble@,
    {
        DnsRecordDROP { preamble }
    }
}

impl DnsRecordA {
    /// Sets the data length to 4.
    pub fn new(preamble: DnsRecordPreamble, ip: [u8; 4]) -> (r: Self)
        ensures
            r.preamble@ == preamble@.with_len(4),
            r.ip == ip,
    {
        let mut preamble = preamble;
        preamble.len = 4;
        DnsRecordA { preamble, ip }
    }
}

impl DnsRecordAAAA {
    /// Sets the data length to 4.
    pub fn new(preamble: DnsRecordPreamble, ip: [u8; 4]) -> (r: Self)
        ensures
            r.preamble@ == preamble@.with_len(4),
            r.ip == ip,
    {
        let mut preamble = preamble;
        preamble.len = 4;
        DnsRecordAAAA { preamble, ip }
    }
}

impl DnsRecordNS {
    /// Sets the data length to that of the host's wire form.
    pub fn new(preamble: DnsRecordPreamble, host: String) -> (r: Self)
        ensures
            r.preamble@ == preamble@.with_len((name_bytes(host@).len() % 65536) as u16),
            r.host@ == host@,
    {
        let mut preamble = preamble;
        let len = name_to_bytes(&host).len();
        preamble.len = (len % 65536) as u16;
        DnsRecordNS { preamble, host }
    }
}

impl DnsRecordCNAME {
    /// Sets the data length to that of the host's wire form.
    pub fn new(preamble: DnsRecordPreamble, host: String) -> (r: Self)
        ensures
            r.preamble@ == preamble@.with_len((name_bytes(host@).len() % 65536) as u16),
            r.host@ == host@,
    {
        let mut preamble = preamble;
        let len = name_to_bytes(&host).len();
        preamble.len = (len % 65536) as u16;
        DnsRecordCNAME { preamble, host }
    }
}

impl DnsRecordMX {
    /// Sets the data length to that of the preference and the host's wire form.
    pub fn new(preamble: DnsRecordPreamble, priority: u16, host: String) -> (r: Self)
        ensures
            r.preamble@ == preamble@.with_len(((name_bytes(host@).len() + 2) % 65536) as u16),
            r.priority == priority,
            r.host@ == host@,
    {
        let mut preamble = preamble;
        let len = name_to_bytes(&host).len();
        preamble.len = ((len % 65536 + 2) % 65536) as u16;
        DnsRecordMX { preamble, priority, host }
    }
}


/// Reads one question at `pos`: its name, type and class.
pub open spec fn parse_question(buf: Seq<u8>, pos: int) -> Result<(QuestionView, int), Malformed> {
    match name_at(buf, pos, 0) {
        Err(e) => Err(e),
        Ok(n) => if n.1 + 4 > buf.len() {
            Err(Malformed::Truncated)
        } else {
            Ok(
                (
                    QuestionView {
                        name: n.0,
                        query_type: DnsQueryType::spec_from_num(u16_at(buf, n.1)),
                        class: u16_at(buf, n.1 + 2),
                    },
                    n.1 + 4,
                ),
            )
        },
    }
}

/// Reads one record at `pos`. Each record gets the data length that its
/// constructor sets; a record of the `DROP` type is refused.
pub open spec fn parse_record(buf: Seq<u8>, pos: int) -> Result<(RecordView, int), Malformed> {
    match name_at(buf, pos, 0) {
        Err(e) => Err(e),
        Ok(n) => {
            let i = n.1;
            if i + 10 > buf.len() {
                Err(Malformed::Truncated)
            } else {
                let p = PreambleView {
                    domain: n.0,
                    query_type: DnsQueryType::spec_from_num(u16_at(buf, i)),
                    class: u16_at(buf, i + 2),
                    ttl: u32_at(buf, i + 4),
                    len: u16_at(buf, i + 8),
                };
                let d = i + 10;
                match p.query_type {
                    DnsQueryType::Unknown(_) => if d + p.len > buf.len() {
                        Err(Malformed::Truncated)
                    } else {
                        Ok((RecordView::Unknown(p, buf.subrange(d, d + p.len)), d + p.len))
                    },
                    DnsQueryType::A => if d + 4 > buf.len() {
                        Err(Malformed::Truncated)
                    } else {
                        Ok((RecordView::A(p.with_len(4), buf.subrange(d, d + 4)), d + 4))
                    },
                    DnsQueryType::NS => match name_at(buf, d, 0) {
                        Err(e) => Err(e),
                        Ok(h) => Ok(
                            (
                                RecordView::NS(
                                    p.with_len((name_bytes(h.0).len() % 65536) as u16),
                                    h.0,
                                ),
                                h.1,
                            ),
                        ),
                    },
                    DnsQueryType::CNAME => match name_at(buf, d, 0) {
                        Err(e) => Err(e),
                        Ok(h) => Ok(
                            (
                                RecordView::CNAME(
                                    p.with_len((name_bytes(h.0).len() % 65536) as u16),
                                    h.0,
                                ),
                                h.1,
                            ),
                        ),
                    },
                    DnsQueryType::MX => if d + 2 > buf.len() {
                        Err(Malformed::Truncated)
                    } else {
                        match name_at(buf, d + 2, 0) {
                            Err(e) => Err(e),
                            Ok(h) => Ok(
                                (
                                    RecordView::MX(
                                        p.with_len(((name_bytes(h.0).len() + 2) % 65536) as u16),
                                        u16_at(buf, d),
                                        h.0,
                                    ),
                                    h.1,
                                ),
                            ),
                        }
                    },
                    DnsQueryType::AAAA => if d + 4 > buf.len() {
                        Err(Malformed::Truncated)
                    } else {
                        Ok((RecordView::AAAA(p.with_len(4), buf.subrange(d, d + 4)), d + 4))
                    },
                    DnsQueryType::DROP => Err(Malformed::ProtocolError),
                }
            }
        },
    }
}

fn read_ip(buffer: &[u8], d: usize) -> (r: Result<[u8; 4], Malformed>)
    ensures
        r is Ok <==> d + 4 <= buffer@.len(),
        r is Ok ==> r->Ok_0@ == buffer@.subrange(d as int, d + 4),
        r is Err ==> r->Err_0 == Malformed::Truncated,
{
    if buffer.len() < 4 || d > buffer.len() - 4 {
        return Err(Malformed::Truncated);
    }
    let ip = [buffer[d], buffer[d + 1], buffer[d + 2], buffer[d + 3]];
    assert(ip@ =~= buffer@.subrange(d as int, d + 4));
    Ok(ip)
}

fn parse_dns_record(buffer: &[u8], buffer_index: usize) -> (r: Result<(DnsRecord, usize), Malformed>)
    ensures
        match parse_record(buffer@, buffer_index as int) {
            Ok(x) => r is Ok && r->Ok_0.0@ == x.0 && r->Ok_0.1 == x.1,
            Err(e) => r is Err && r->Err_0 == e,
        },
{
    let (domain, i) = match get_name_from_packet(buffer, buffer_index, 0) {
        Ok(found) => found,
        Err(e) => return Err(e),
    };
    if buffer.len() < 10 || i > buffer.len() - 10 {
        return Err(Malformed::Truncated);
    }
    let query_type = DnsQueryType::from_num(
        match get_u16(buffer, i) {
            Ok(v) => v,
            Err(e) => return Err(e),
        },
    );
    let class = match get_u16(buffer, i + 2) {
        Ok(v) => v,
        Err(e) => return Err(e),
    };
    let ttl = match get_u32(buffer, i + 4) {
        Ok(v) => v,
        Err(e) => return Err(e),
    };
    let len = match get_u16(buffer, i + 8) {
        Ok(v) => v,
        Err(e) => return Err(e),
    };
    let preamble = DnsRecordPreamble { domain, query_type, class, ttl, len };
    let d = i + 10;
    match query_type {
        DnsQueryType::Unknown(_) => {
            if len as usize > buffer.len() - d {
                return Err(Malformed::Truncated);
            }
            let body = vstd::slice::slice_to_vec(
                vstd::slice::slice_subrange(buffer, d, d + len as usize),
            );
            Ok((DnsRecord::Unknown(DnsRecordUnknown::new(preamble, body)), d + len as usize))
        },
        DnsQueryType::A => match read_ip(buffer, d) {
            Ok(ip) => Ok((DnsRecord::A(DnsRecordA::new(preamble, ip)), d + 4)),
            Err(e) => Err(e),
        },
        DnsQueryType::NS => match get_name_from_packet(buffer, d, 0) {
            Ok((host, next)) => Ok((DnsRecord::NS(DnsRecordNS::new(preamble, host)), next)),
            Err(e) => Err(e),
        },
        DnsQueryType::CNAME => match get_name_from_packet(buffer, d, 0) {
            Ok((host, next)) => Ok((DnsRecord::CNAME(DnsRecordCNAME::new(preamble, host)), next)),
            Err(e) => Err(e),
        },
        DnsQueryType::MX => {
            let priority = match get_u16(buffer, d) {
                Ok(v) => v,
                Err(e) => return Err(e),
            };
            match get_name_from_packet(buffer, d + 2, 0) {
                Ok((host, next)) => Ok(
                    (DnsRecord::MX(DnsRecordMX::new(preamble, priority, host)), next),
                ),
                Err(e) => Err(e),
            }
        },
        DnsQueryType::AAAA => match read_ip(buffer, d) {
            Ok(ip) => Ok((DnsRecord::AAAA(DnsRecordAAAA::new(preamble, ip)), d + 4)),
            Err(e) => Err(e),
        },
        DnsQueryType::DROP => Err(Malformed::ProtocolError),
    }
}


/// A message: a header and its four sections.
#[derive(Debug)]
pub struct DnsPacket {
    pub header: DnsHeader,
    pub question_section: Vec<DnsQuestion>,
    pub answer_section: Vec<DnsRecord>,
    pub authority_section: Vec<DnsRecord>,
    pub additional_section: Vec<DnsRecord>,
}

pub struct PacketView {
    pub header: DnsHeader,
    pub questions: Seq<QuestionView>,
    pub answers: Seq<RecordView>,
    pub authorities: Seq<RecordView>,
    pub additionals: Seq<RecordView>,
}

pub open spec fn questions_view(qs: Seq<DnsQuestion>) -> Seq<QuestionView> {
    qs.map_values(|q: DnsQuestion| q@)
}

pub open spec fn records_view(rs: Seq<DnsRecord>) -> Seq<RecordView> {
    rs.map_values(|r: DnsRecord| r@)
}

impl View for DnsPacket {
    type V = PacketView;

    open spec fn view(&self) -> PacketView {
        PacketView {
            header: self.header,
            questions: questions_view(self.question_section@),
            answers: records_view(self.answer_section@),
            authorities: records_view(self.authority_section@),
            additionals: records_view(self.additional_section@),
        }
    }
}

/// Reads `n` questions one after the other from `pos`.
pub open spec fn parse_questions(buf: Seq<u8>, pos: int, n: nat) -> Result<(Seq<QuestionView>, int), Malformed>
    decreases n,
{
    if n == 0 {
        Ok((seq![], pos))
    } else {
        match parse_questions(buf, pos, (n - 1) as nat) {
            Err(e) => Err(e),
            Ok(prev) => match parse_question(buf, prev.1) {
                Err(e) => Err(e),
                Ok(q) => Ok((prev.0.push(q.0), q.1)),
            },
        }
    }
}

/// Reads `n` records one after the other from `pos`.
pub open spec fn parse_records(buf: Seq<u8>, pos: int, n: nat) -> Result<(Seq<RecordView>, int), Malformed>
    decreases n,
{
    if n == 0 {
        Ok((seq![], pos))
    } else {
        match parse_records(buf, pos, (n - 1) as nat) {
            Err(e) => Err(e),
            Ok(prev) => match parse_record(buf, prev.1) {
                Err(e) => Err(e),
                Ok(r) => Ok((prev.0.push(r.0), r.1)),
            },
        }
    }
}

/// The message that `buf` holds: the header from its first twelve bytes, then
/// as many questions, answers, authorities and additionals as it counts.
pub open spec fn packet_from(buf: Seq<u8>) -> Result<PacketView, Malformed> {
    if buf.len() < 12 {
        Err(Malformed::Truncated)
    } else {
        let h = header_from(buf.subrange(0, 12));
        match parse_questions(buf, 12, h.question_count as nat) {
            Err(e) => Err(e),
            Ok(qd) => match parse_records(buf, qd.1, h.answer_count as nat) {
                Err(e) => Err(e),
                Ok(an) => match parse_records(buf, an.1, h.authority_count as nat) {
                    Err(e) => Err(e),
                    Ok(ns) => match parse_records(buf, ns.1, h.additional_count as nat) {
                        Err(e) => Err(e),
                        Ok(ar) => Ok(
                            PacketView {
                                header: h,
                                questions: qd.0,
                                answers: an.0,
                                authorities: ns.0,
                                additionals: ar.0,
                            },
                        ),
                    },
                },
            },
        }
    }
}

/// How many of `rs` go on the wire: all but the `DROP` records.
pub open spec fn wire_count(rs: Seq<RecordView>) -> nat
    decreases rs.len(),
{
    if rs.len() == 0 {
        0
    } else {
        wire_count(rs.drop_last()) + if rs.last() is DROP {
            0nat
        } else {
            1nat
        }
    }
}

pub open spec fn questions_bytes(qs: Seq<QuestionView>) -> Seq<u8>
    decreases qs.len(),
{
    if qs.len() == 0 {
        seq![]
    } else {
        questions_bytes(qs.drop_last()) + question_bytes(qs.last())
    }
}

pub open spec fn records_bytes(rs: Seq<RecordView>) -> Seq<u8>
    decreases rs.len(),
{
    if rs.len() == 0 {
        seq![]
    } else {
        records_bytes(rs.drop_last()) + record_bytes(rs.last())
    }
}

/// The header that goes on the wire: its counts are those of the sections.
pub open spec fn wire_header(p: PacketView) -> DnsHeader {
    DnsHeader {
        question_count: (p.questions.len() % 65536) as u16,
        answer_count: (wire_count(p.answers) % 65536) as u16,
        authority_count: (wire_count(p.authorities) % 65536) as u16,
        additional_count: (wire_count(p.additionals) % 65536) as u16,
        ..p.header
    }
}

/// The wire form of a message.
pub open spec fn packet_bytes(p: PacketView) -> Seq<u8> {
    header_bytes(wire_header(p)) + questions_bytes(p.questions) + records_bytes(p.answers)
        + records_bytes(p.authorities) + records_bytes(p.additionals)
}

fn count_on_wire(rs: &Vec<DnsRecord>) -> (r: u16)
    ensures
        r == wire_count(records_view(rs@)) % 65536,
{
    let mut n: u16 = 0;
    let mut i: usize = 0;
    while i < rs.len()
        invariant
            i <= rs@.len(),
            n == wire_count(records_view(rs@.subrange(0, i as int))) % 65536,
        decreases rs@.len() - i,
    {
        let ghost prev = rs@.subrange(0, i as int);
        assert(records_view(rs@.subrange(0, i + 1)).drop_last() =~= records_view(prev));
        let is_drop = match &rs[i] {
            DnsRecord::DROP(_) => true,
            _ => false,
        };
        if !is_drop {
            n = if n == 65535 {
                0
            } else {
                n + 1
            };
        }
        i = i + 1;
    }
    assert(rs@.subrange(0, rs@.len() as int) =~= rs@);
    n
}

fn append_records(result: &mut Vec<u8>, rs: &Vec<DnsRecord>)
    ensures
        final(result)@ == old(result)@ + records_bytes(records_view(rs@)),
{
    let ghost start = result@;
    let mut i: usize = 0;
    while i < rs.len()
        invariant
            i <= rs@.len(),
            result@ == start + records_bytes(records_view(rs@.subrange(0, i as int))),
        decreases rs@.len() - i,
    {
        let ghost prev = rs@.subrange(0, i as int);
        assert(records_view(rs@.subrange(0, i + 1)).drop_last() =~= records_view(prev));
        let mut b = rs[i].to_bytes();
        result.append(&mut b);
        i = i + 1;
        assert(result@ =~= start + records_bytes(records_view(rs@.subrange(0, i as int))));
    }
    assert(rs@.subrange(0, rs@.len() as int) =~= rs@);
}

impl DnsPacket {
    /// An empty query with a random id.
    pub fn new() -> (r: DnsPacket)
        ensures
            r.header == (DnsHeader { id: r.header.id, ..DnsHeader::empty_spec() }),
            r@.questions.len() == 0,
            r@.answers.len() == 0,
            r@.authorities.len() == 0,
            r@.additionals.len() == 0,
    {
        let r = DnsPacket {
            header: DnsHeader::new(),
            question_section: Vec::new(),
            answer_section: Vec::new(),
            authority_section: Vec::new(),
            additional_section: Vec::new(),
        };
        assert(r@.questions =~= seq![]);
        r
    }

    /// Appends a question and counts it.
    pub fn add_question(&mut self, question: DnsQuestion)
        requires
            old(self).header.question_count < 65535,
        ensures
            final(self)@ == (PacketView {
                header: DnsHeader {
                    question_count: (old(self).header.question_count + 1) as u16,
                    ..old(self).header
                },
                questions: old(self)@.questions.push(question@),
                ..old(self)@
            }),
    {
        self.question_section.push(question);
        self.header.question_count = self.header.question_count + 1;
        assert(self@.questions =~= old(self)@.questions.push(question@));
    }

    /// Appends an answer and counts it.
    pub fn add_answer(&mut self, answer: DnsRecord)
        requires
            old(self).header.answer_count < 65535,
        ensures
            final(self)@ == (PacketView {
                header: DnsHeader {
                    answer_count: (old(self).header.answer_count + 1) as u16,
                    ..old(self).header
                },
                answers: old(self)@.answers.push(answer@),
                ..old(self)@
            }),
    {
        self.answer_section.push(answer);
        self.header.answer_count = self.header.answer_count + 1;
        assert(self@.answers =~= old(self)@.answers.push(answer@));
    }

    /// The message's wire form. The counts written are those of the sections,
    /// `DROP` records left out.
    pub fn to_bytes(&self) -> (r: Vec<u8>)
        ensures
            r@ == packet_bytes(self@),
    {
        let mut header = self.header;
        header.question_count = (self.question_section.len() % 65536) as u16;
        header.answer_count = count_on_wire(&self.answer_section);
        header.authority_count = count_on_wire(&self.authority_section);
        header.additional_count = count_on_wire(&self.additional_section);
        let mut result = header.to_bytes();
        assert(header == wire_header(self@));
        let ghost start = result@;
        let mut i: usize = 0;
        while i < self.question_section.len()
            invariant
                i <= self.question_section@.len(),
                result@ == start + questions_bytes(
                    questions_view(self.question_section@.subrange(0, i as int)),
                ),
            decreases self.question_section@.len() - i,
        {
            let ghost prev = self.question_section@.subrange(0, i as int);
            assert(questions_view(self.question_section@.subrange(0, i + 1)).drop_last()
                =~= questions_view(prev));
            let mut b = self.question_section[i].to_bytes();
            result.append(&mut b);
            i = i + 1;
            assert(result@ =~= start + questions_bytes(
                questions_view(self.question_section@.subrange(0, i as int)),
            ));
        }
        assert(self.question_section@.subrange(0, self.question_section@.len() as int)
            =~= self.question_section@);
        append_records(&mut result, &self.answer_section);
        append_records(&mut result, &self.authority_section);
        append_records(&mut result, &self.additional_section);
        assert(result@ =~= packet_bytes(self@));
        result
    }
}


fn parse_dns_question(buffer: &[u8], index: usize) -> (r: Result<(DnsQuestion, usize), Malformed>)
    ensures
        match parse_question(buffer@, index as int) {
            Ok(x) => r is Ok && r->Ok_0.0@ == x.0 && r->Ok_0.1 == x.1,
            Err(e) => r is Err && r->Err_0 == e,
        },
{
    let (name, i) = match get_name_from_packet(buffer, index, 0) {
        Ok(found) => found,
        Err(e) => return Err(e),
    };
    if buffer.len() < 4 || i > buffer.len() - 4 {
        return Err(Malformed::Truncated);
    }
    let query_type = match get_u16(buffer, i) {
        Ok(v) => DnsQueryType::from_num(v),
        Err(e) => return Err(e),
    };
    let class = match get_u16(buffer, i + 2) {
        Ok(v) => v,
        Err(e) => return Err(e),
    };
    Ok((DnsQuestion { name, query_type, class }, i + 4))
}

fn parse_question_section(buffer: &[u8], start: usize, count: u16) -> (r: Result<(Vec<DnsQuestion>, usize), Malformed>)
    ensures
        match parse_questions(buffer@, start as int, count as nat) {
            Ok(x) => r is Ok && questions_view(r->Ok_0.0@) == x.0 && r->Ok_0.1 == x.1,
            Err(e) => r is Err && r->Err_0 == e,
        },
{
    let mut section: Vec<DnsQuestion> = Vec::new();
    let mut index = start;
    let mut k: u16 = 0;
    assert(questions_view(section@) =~= seq![]);
    while k < count
        invariant
            k <= count,
            parse_questions(buffer@, start as int, k as nat) == Ok::<(Seq<QuestionView>, int), Malformed>(
                (questions_view(section@), index as int),
            ),
        decreases count - k,
    {
        match parse_dns_question(buffer, index) {
            Ok((question, next)) => {
                let ghost before = section@;
                section.push(question);
                assert(questions_view(section@) =~= questions_view(before).push(question@));
                index = next;
            },
            Err(e) => {
                assert(parse_questions(buffer@, start as int, (k + 1) as nat) is Err);
                proof {
                    lemma_parse_questions_stays_failed(buffer@, start as int, (k + 1) as nat, count as nat);
                }
                return Err(e);
            },
        }
        k = k + 1;
    }
    Ok((section, index))
}

fn parse_record_section(buffer: &[u8], start: usize, count: u16) -> (r: Result<(Vec<DnsRecord>, usize), Malformed>)
    ensures
        match parse_records(buffer@, start as int, count as nat) {
            Ok(x) => r is Ok && records_view(r->Ok_0.0@) == x.0 && r->Ok_0.1 == x.1,
            Err(e) => r is Err && r->Err_0 == e,
        },
{
    let mut section: Vec<DnsRecord> = Vec::new();
    let mut index = start;
    let mut k: u16 = 0;
    assert(records_view(section@) =~= seq![]);
    while k < count
        invariant
            k <= count,
            parse_records(buffer@, start as int, k as nat) == Ok::<(Seq<RecordView>, int), Malformed>(
                (records_view(section@), index as int),
            ),
        decreases count - k,
    {
        match parse_dns_record(buffer, index) {
            Ok((record, next)) => {
                let ghost before = section@;
                section.push(record);
                assert(records_view(section@) =~= records_view(before).push(record@));
                index = next;
            },
            Err(e) => {
                assert(parse_records(buffer@, start as int, (k + 1) as nat) is Err);
                proof {
                    lemma_parse_records_stays_failed(buffer@, start as int, (k + 1) as nat, count as nat);
                }
                return Err(e);
            },
        }
        k = k + 1;
    }
    Ok((section, index))
}

proof fn lemma_parse_records_stays_failed(buf: Seq<u8>, pos: int, k: nat, n: nat)
    requires
        k <= n,
        parse_records(buf, pos, k) is Err,
    ensures
        parse_records(buf, pos, n) == parse_records(buf, pos, k),
    decreases n - k,
{
    if k < n {
        lemma_parse_records_stays_failed(buf, pos, k, (n - 1) as nat);
    }
}

proof fn lemma_parse_questions_stays_failed(buf: Seq<u8>, pos: int, k: nat, n: nat)
    requires
        k <= n,
        parse_questions(buf, pos, k) is Err,
    ensures
        parse_questions(buf, pos, n) == parse_questions(buf, pos, k),
    decreases n - k,
{
    if k < n {
        lemma_parse_questions_stays_failed(buf, pos, k, (n - 1) as nat);
    }
}

impl DnsPacket {
    /// Reads a message: the header, then the sections in order, each from
    /// where the last ended. No part of a message that fails is returned.
    #[verifier::rlimit(40)]
    pub fn from_bytes(buffer: &[u8]) -> (r: Result<DnsPacket, Malformed>)
        ensures
            match packet_from(buffer@) {
                Ok(p) => r is Ok && r->Ok_0@ == p,
                Err(e) => r is Err && r->Err_0 == e,
            },
    {
        if buffer.len() < 12 {
            return Err(Malformed::Truncated);
        }
        let head = vstd::slice::slice_subrange(buffer, 0, 12);
        let header = match DnsHeader::from_bytes(head) {
            Ok(h) => h,
            Err(e) => return Err(e),
        };
        assert(header == header_from(buffer@.subrange(0, 12)));
        let (questions, index) = match parse_question_section(buffer, 12, header.question_count) {
            Ok(x) => x,
            Err(e) => return Err(e),
        };
        let (answers, index) = match parse_record_section(buffer, index, header.answer_count) {
            Ok(x) => x,
            Err(e) => return Err(e),
        };
        let (authorities, index) = match parse_record_section(buffer, index, header.authority_count) {
            Ok(x) => x,
            Err(e) => return Err(e),
        };
        let (additionals, _) = match parse_record_section(buffer, index, header.additional_count) {
            Ok(x) => x,
            Err(e) => return Err(e),
        };
        Ok(
            DnsPacket {
                header,
                question_section: questions,
                answer_section: answers,
                authority_section: authorities,
                additional_section: additionals,
            },
        )
    }
}


/// A question whose name has valid form and whose type reads back as itself.
#[verifier::opaque]
pub open spec fn valid_question(q: QuestionView) -> bool {
    valid_domain(q.name) && q.query_type.is_canonical()
}

pub open spec fn lower_question(q: QuestionView) -> QuestionView {
    QuestionView { name: lower_name(q.name), ..q }
}

pub open spec fn lower_preamble(p: PreambleView) -> PreambleView {
    PreambleView { domain: lower_name(p.domain), ..p }
}

pub open spec fn lower_questions(qs: Seq<QuestionView>) -> Seq<QuestionView> {
    qs.map_values(|q: QuestionView| lower_question(q))
}

pub open spec fn lower_records(rs: Seq<RecordView>) -> Seq<RecordView> {
    rs.map_values(|r: RecordView| lower_record(r))
}

/// A record as it reads back: its names lowercased, and its data length the
/// one that its constructor sets, which for a host is that of the lowercased
/// host.
pub open spec fn lower_record(r: RecordView) -> RecordView {
    match r {
        RecordView::Unknown(p, b) => RecordView::Unknown(
            lower_preamble(p).with_len((b.len() % 65536) as u16),
            b,
        ),
        RecordView::A(p, ip) => RecordView::A(lower_preamble(p).with_len(4), ip),
        RecordView::NS(p, h) => RecordView::NS(
            lower_preamble(p).with_len((name_bytes(lower_name(h)).len() % 65536) as u16),
            lower_name(h),
        ),
        RecordView::CNAME(p, h) => RecordView::CNAME(
            lower_preamble(p).with_len((name_bytes(lower_name(h)).len() % 65536) as u16),
            lower_name(h),
        ),
        RecordView::MX(p, pr, h) => RecordView::MX(
            lower_preamble(p).with_len(((name_bytes(lower_name(h)).len() + 2) % 65536) as u16),
            pr,
            lower_name(h),
        ),
        RecordView::AAAA(p, ip) => RecordView::AAAA(lower_preamble(p).with_len(4), ip),
        RecordView::DROP(p) => RecordView::DROP(lower_preamble(p)),
    }
}

/// A record that goes on the wire and reads back: names of valid form, the
/// type of its variant, and data that its length field can count.
#[verifier::opaque]
pub open spec fn valid_record(r: RecordView) -> bool {
    let p = r.preamble();
    &&& valid_domain(p.domain)
    &&& r.rdata().len() < 65536
    &&& match r {
        RecordView::Unknown(_, _) => p.query_type is Unknown && p.query_type.is_canonical(),
        RecordView::A(_, ip) => p.query_type == DnsQueryType::A && ip.len() == 4,
        RecordView::NS(_, h) => p.query_type == DnsQueryType::NS && valid_domain(h),
        RecordView::CNAME(_, h) => p.query_type == DnsQueryType::CNAME && valid_domain(h),
        RecordView::MX(_, _, h) => p.query_type == DnsQueryType::MX && valid_domain(h),
        RecordView::AAAA(_, ip) => p.query_type == DnsQueryType::AAAA && ip.len() == 4,
        RecordView::DROP(_) => false,
    }
}

proof fn lemma_question_round_trip(q: QuestionView, buf: Seq<u8>, pos: int)
    requires
        valid_question(q),
        0 <= pos,
        pos + question_bytes(q).len() <= buf.len(),
        buf.subrange(pos, pos + question_bytes(q).len()) == question_bytes(q),
    ensures
        parse_question(buf, pos) == Ok::<(QuestionView, int), Malformed>(
            (lower_question(q), pos + question_bytes(q).len()),
        ),
{
    reveal(valid_question);
    let n = name_bytes(q.name);
    let t = u16_be(q.query_type.spec_num());
    let c = u16_be(q.class);
    lemma_split(buf, pos, n + t, c);
    lemma_split(buf, pos, n, t);
    lemma_name_at_encoded(q.name, buf, pos);
    lemma_u16_round_trip(q.query_type.spec_num(), buf, pos + n.len());
    lemma_u16_round_trip(q.class, buf, pos + n.len() + 2);
}

#[verifier::rlimit(80)]
proof fn lemma_record_round_trip(r: RecordView, buf: Seq<u8>, pos: int)
    requires
        valid_record(r),
        0 <= pos,
        pos + record_bytes(r).len() <= buf.len(),
        buf.subrange(pos, pos + record_bytes(r).len()) == record_bytes(r),
    ensures
        parse_record(buf, pos) == Ok::<(RecordView, int), Malformed>(
            (lower_record(r), pos + record_bytes(r).len()),
        ),
{
    reveal(valid_record);
    let p = r.preamble();
    let d = r.rdata();
    assert(d.len() % 65536 == d.len());
    let len = (d.len() % 65536) as u16;
    assert(len as int == d.len());
    let n = name_bytes(p.domain);
    let t = u16_be(p.query_type.spec_num());
    let c = u16_be(p.class);
    let ttl = u32_be(p.ttl);
    let l = u16_be(len);
    assert(record_bytes(r) == n + t + c + ttl + l + d);
    lemma_split(buf, pos, n + t + c + ttl + l, d);
    lemma_split(buf, pos, n + t + c + ttl, l);
    lemma_split(buf, pos, n + t + c, ttl);
    lemma_split(buf, pos, n + t, c);
    lemma_split(buf, pos, n, t);
    lemma_name_at_encoded(p.domain, buf, pos);
    let i = pos + n.len();
    lemma_u16_round_trip(p.query_type.spec_num(), buf, i);
    lemma_u16_round_trip(p.class, buf, i + 2);
    lemma_u32_round_trip(p.ttl, buf, i + 4);
    lemma_u16_round_trip(len, buf, i + 8);
    let dpos = i + 10;
    assert(buf.subrange(dpos, dpos + d.len()) == d);
    assert(len as int == d.len());
    match r {
        RecordView::Unknown(_, body) => {
            assert(DnsQueryType::spec_from_num(p.query_type.spec_num()) == p.query_type);
        },
        RecordView::A(_, ip) => {},
        RecordView::AAAA(_, ip) => {},
        RecordView::NS(_, h) => {
            lemma_name_at_encoded(h, buf, dpos);
        },
        RecordView::CNAME(_, h) => {
            lemma_name_at_encoded(h, buf, dpos);
        },
        RecordView::MX(_, pr, h) => {
            lemma_split(buf, dpos, u16_be(pr), name_bytes(h));
            lemma_u16_round_trip(pr, buf, dpos);
            lemma_name_at_encoded(h, buf, dpos + 2);
        },
        RecordView::DROP(_) => {},
    }
}


#[verifier::rlimit(40)]
proof fn lemma_questions_round_trip(qs: Seq<QuestionView>, buf: Seq<u8>, pos: int)
    requires
        forall|k: int| 0 <= k < qs.len() ==> valid_question(#[trigger] qs[k]),
        0 <= pos,
        pos + questions_bytes(qs).len() <= buf.len(),
        buf.subrange(pos, pos + questions_bytes(qs).len()) == questions_bytes(qs),
    ensures
        parse_questions(buf, pos, qs.len()) == Ok::<(Seq<QuestionView>, int), Malformed>(
            (lower_questions(qs), pos + questions_bytes(qs).len()),
        ),
    decreases qs.len(),
{
    if qs.len() == 0 {
        assert(lower_questions(qs) =~= seq![]);
    } else {
        let front = qs.drop_last();
        lemma_split(buf, pos, questions_bytes(front), question_bytes(qs.last()));
        assert forall|k: int| 0 <= k < front.len() implies valid_question(#[trigger] front[k]) by {
            assert(front[k] == qs[k]);
        }
        lemma_questions_round_trip(front, buf, pos);
        assert(front =~= qs.drop_last());
        assert(valid_question(qs[qs.len() - 1]));
        lemma_question_round_trip(qs.last(), buf, pos + questions_bytes(front).len());
        assert(lower_questions(qs) =~= lower_questions(front).push(lower_question(qs.last())));
    }
}

#[verifier::rlimit(40)]
proof fn lemma_records_round_trip(rs: Seq<RecordView>, buf: Seq<u8>, pos: int)
    requires
        forall|k: int| 0 <= k < rs.len() ==> valid_record(#[trigger] rs[k]),
        0 <= pos,
        pos + records_bytes(rs).len() <= buf.len(),
        buf.subrange(pos, pos + records_bytes(rs).len()) == records_bytes(rs),
    ensures
        parse_records(buf, pos, rs.len()) == Ok::<(Seq<RecordView>, int), Malformed>(
            (lower_records(rs), pos + records_bytes(rs).len()),
        ),
        wire_count(rs) == rs.len(),
    decreases rs.len(),
{
    if rs.len() == 0 {
        assert(lower_records(rs) =~= seq![]);
    } else {
        let front = rs.drop_last();
        lemma_split(buf, pos, records_bytes(front), record_bytes(rs.last()));
        assert forall|k: int| 0 <= k < front.len() implies valid_record(#[trigger] front[k]) by {
            assert(front[k] == rs[k]);
        }
        lemma_records_round_trip(front, buf, pos);
        assert(valid_record(rs[rs.len() - 1]));
        lemma_record_round_trip(rs.last(), buf, pos + records_bytes(front).len());
        reveal(valid_record);
        assert(lower_records(rs) =~= lower_records(front).push(lower_record(rs.last())));
    }
}

#[verifier::rlimit(40)]
proof fn lemma_packet_layout(p: PacketView)
    ensures
        ({
            let buf = packet_bytes(p);
            let q = questions_bytes(p.questions);
            let a = records_bytes(p.answers);
            let n = records_bytes(p.authorities);
            let r = records_bytes(p.additionals);
            let ql = q.len() as int;
            let al = a.len() as int;
            let nl = n.len() as int;
            &&& buf.len() == 12 + ql + al + nl + r.len()
            &&& buf.subrange(0, 12) == header_bytes(wire_header(p))
            &&& buf.subrange(12, 12 + ql) == q
            &&& buf.subrange(12 + ql, 12 + ql + al) == a
            &&& buf.subrange(12 + ql + al, 12 + ql + al + nl) == n
            &&& buf.subrange(12 + ql + al + nl, buf.len() as int) == r
        }),
{
    let h = header_bytes(wire_header(p));
    let q = questions_bytes(p.questions);
    let a = records_bytes(p.answers);
    let n = records_bytes(p.authorities);
    let r = records_bytes(p.additionals);
    let buf = packet_bytes(p);
    lemma_header_round_trip(wire_header(p));
    assert(buf == h + q + a + n + r);
    assert(buf.subrange(0, buf.len() as int) == buf);
    lemma_split(buf, 0, h + q + a + n, r);
    lemma_split(buf, 0, h + q + a, n);
    lemma_split(buf, 0, h + q, a);
    lemma_split(buf, 0, h, q);
}

/// In the wire form of a message whose questions and records have valid
/// form, the first twelve bytes are the header with its sections counted,
/// and the sections, read one after the other from byte 12, give back every
/// question and record with its names lowercased.
#[verifier::rlimit(60)]
pub proof fn lemma_packet_sections(p: PacketView)
    requires
        forall|k: int| 0 <= k < p.questions.len() ==> valid_question(#[trigger] p.questions[k]),
        forall|k: int| 0 <= k < p.answers.len() ==> valid_record(#[trigger] p.answers[k]),
        forall|k: int| 0 <= k < p.authorities.len() ==> valid_record(#[trigger] p.authorities[k]),
        forall|k: int| 0 <= k < p.additionals.len() ==> valid_record(#[trigger] p.additionals[k]),
    ensures
        packet_bytes(p).len() >= 12,
        packet_bytes(p).subrange(0, 12) == header_bytes(wire_header(p)),
        parse_questions(packet_bytes(p), 12, p.questions.len()) == Ok::<(Seq<QuestionView>, int), Malformed>(
            (lower_questions(p.questions), 12 + questions_bytes(p.questions).len() as int),
        ),
        parse_records(packet_bytes(p), 12 + questions_bytes(p.questions).len() as int, p.answers.len())
            == Ok::<(Seq<RecordView>, int), Malformed>(
            (
                lower_records(p.answers),
                12 + questions_bytes(p.questions).len() as int + records_bytes(p.answers).len() as int,
            ),
        ),
        parse_records(
            packet_bytes(p),
            12 + questions_bytes(p.questions).len() as int + records_bytes(p.answers).len() as int,
            p.authorities.len(),
        ) == Ok::<(Seq<RecordView>, int), Malformed>(
            (
                lower_records(p.authorities),
                12 + questions_bytes(p.questions).len() as int + records_bytes(p.answers).len() as int
                    + records_bytes(p.authorities).len() as int,
            ),
        ),
        parse_records(
            packet_bytes(p),
            12 + questions_bytes(p.questions).len() as int + records_bytes(p.answers).len() as int
                + records_bytes(p.authorities).len() as int,
            p.additionals.len(),
        ) == Ok::<(Seq<RecordView>, int), Malformed>(
            (
                lower_records(p.additionals),
                12 + questions_bytes(p.questions).len() as int + records_bytes(p.answers).len() as int
                    + records_bytes(p.authorities).len() as int + records_bytes(p.additionals).len() as int,
            ),
        ),
        wire_count(p.answers) == p.answers.len(),
        wire_count(p.authorities) == p.authorities.len(),
        wire_count(p.additionals) == p.additionals.len(),
{
    lemma_packet_layout(p);
    let buf = packet_bytes(p);
    let q = questions_bytes(p.questions).len() as int;
    let a = records_bytes(p.answers).len() as int;
    let n = records_bytes(p.authorities).len() as int;
    lemma_questions_round_trip(p.questions, buf, 12);
    lemma_records_round_trip(p.answers, buf, 12 + q);
    lemma_records_round_trip(p.authorities, buf, 12 + q + a);
    lemma_records_round_trip(p.additionals, buf, 12 + q + a + n);
}


/// What a message reads back as from its wire form: the header as written,
/// and every section with its names lowercased.
pub open spec fn read_back(p: PacketView) -> PacketView {
    PacketView {
        header: wire_header(p),
        questions: lower_questions(p.questions),
        answers: lower_records(p.answers),
        authorities: lower_records(p.authorities),
        additionals: lower_records(p.additionals),
    }
}

proof fn lemma_packet_from_parts(
    buf: Seq<u8>,
    h: DnsHeader,
    qs: Seq<QuestionView>,
    q_end: int,
    an: Seq<RecordView>,
    an_end: int,
    ns: Seq<RecordView>,
    ns_end: int,
    ar: Seq<RecordView>,
    ar_end: int,
)
    requires
        buf.len() >= 12,
        header_from(buf.subrange(0, 12)) == h,
        parse_questions(buf, 12, h.question_count as nat) == Ok::<(Seq<QuestionView>, int), Malformed>(
            (qs, q_end),
        ),
        parse_records(buf, q_end, h.answer_count as nat) == Ok::<(Seq<RecordView>, int), Malformed>(
            (an, an_end),
        ),
        parse_records(buf, an_end, h.authority_count as nat) == Ok::<(Seq<RecordView>, int), Malformed>(
            (ns, ns_end),
        ),
        parse_records(buf, ns_end, h.additional_count as nat) == Ok::<(Seq<RecordView>, int), Malformed>(
            (ar, ar_end),
        ),
    ensures
        packet_from(buf) == Ok::<PacketView, Malformed>(
            PacketView { header: h, questions: qs, answers: an, authorities: ns, additionals: ar },
        ),
{
}

proof fn lemma_counts_fit(p: PacketView)
    requires
        p.questions.len() < 65536,
        p.answers.len() < 65536,
        p.authorities.len() < 65536,
        p.additionals.len() < 65536,
        wire_count(p.answers) == p.answers.len(),
        wire_count(p.authorities) == p.authorities.len(),
        wire_count(p.additionals) == p.additionals.len(),
    ensures
        wire_header(p).question_count as nat == p.questions.len(),
        wire_header(p).answer_count as nat == p.answers.len(),
        wire_header(p).authority_count as nat == p.authorities.len(),
        wire_header(p).additional_count as nat == p.additionals.len(),
{
    assert(p.questions.len() % 65536 == p.questions.len());
    assert(p.answers.len() % 65536 == p.answers.len());
    assert(p.authorities.len() % 65536 == p.authorities.len());
    assert(p.additionals.len() % 65536 == p.additionals.len());
}

/// A message whose questions and records all have valid form reads back
/// from its wire form with every field and section kept and its names
/// lowercased; its header reads back with the sections counted.
#[verifier::rlimit(100)]
pub proof fn lemma_packet_round_trip(p: PacketView)
    requires
        forall|k: int| 0 <= k < p.questions.len() ==> valid_question(#[trigger] p.questions[k]),
        forall|k: int| 0 <= k < p.answers.len() ==> valid_record(#[trigger] p.answers[k]),
        forall|k: int| 0 <= k < p.authorities.len() ==> valid_record(#[trigger] p.authorities[k]),
        forall|k: int| 0 <= k < p.additionals.len() ==> valid_record(#[trigger] p.additionals[k]),
        p.questions.len() < 65536,
        p.answers.len() < 65536,
        p.authorities.len() < 65536,
        p.additionals.len() < 65536,
    ensures
        packet_from(packet_bytes(p)) == Ok::<PacketView, Malformed>(read_back(p)),
{
    lemma_packet_sections(p);
    lemma_header_round_trip(wire_header(p));
    lemma_counts_fit(p);
    let q = questions_bytes(p.questions).len() as int;
    let a = records_bytes(p.answers).len() as int;
    let n = records_bytes(p.authorities).len() as int;
    let r = records_bytes(p.additionals).len() as int;
    lemma_packet_from_parts(
        packet_bytes(p),
        wire_header(p),
        lower_questions(p.questions),
        12 + q,
        lower_records(p.answers),
        12 + q + a,
        lower_records(p.authorities),
        12 + q + a + n,
        lower_records(p.additionals),
        12 + q + a + n + r,
    );
}

/// Where a message's header counts its sections right and none of its
/// records is `DROP`, the header written is the header itself.
pub proof fn lemma_wire_header_counts(p: PacketView)
    requires
        p.header.question_count == p.questions.len(),
        p.header.answer_count == p.answers.len(),
        p.header.authority_count == p.authorities.len(),
        p.header.additional_count == p.additionals.len(),
        wire_count(p.answers) == p.answers.len(),
        wire_count(p.authorities) == p.authorities.len(),
        wire_count(p.additionals) == p.additionals.len(),
    ensures
        wire_header(p) == p.header,
{
    assert(p.questions.len() % 65536 == p.questions.len());
    assert(p.answers.len() % 65536 == p.answers.len());
    assert(p.authorities.len() % 65536 == p.authorities.len());
    assert(p.additionals.len() % 65536 == p.additionals.len());
}

} // verus!
