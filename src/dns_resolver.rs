use vstd::prelude::*;

use crate::dns_packet::{
    records_view, DnsHeader, DnsPacket, DnsQueryType, DnsQuestion, DnsRecord, DnsResponseCode,
    PacketView, QuestionView, RecordView,
};
use crate::simple_database::{cached_all, same_key};

verus! {

/// What the resolver does next with a request.
pub enum ResolverStep {
    /// Send this response back.
    Respond(DnsPacket),
    /// No local record answers the question: forward it upstream.
    Forward(DnsQuestion),
}

/// Answers questions from the local records and forwards the others upstream.
/// The store and the network stay with the caller, which hands in what they
/// gave: the resolver only decides.
pub struct DnsResolver {
    pub remote_lookup_port: u16,
}

/// Whether some record of `rs` has type `t`.
pub open spec fn has_type(rs: Seq<RecordView>, t: DnsQueryType) -> bool {
    exists|i: int| 0 <= i < rs.len() && (#[trigger] rs[i]).preamble().query_type == t
}

/// The header that every response starts from: the request's id; QR, RD and
/// RA set; everything else clear and no sections counted.
pub open spec fn response_header(id: u16) -> DnsHeader {
    DnsHeader {
        id,
        query_response: true,
        recurse_desired: true,
        recurse_available: true,
        ..DnsHeader::empty_spec()
    }
}

/// A response with the given header and sections.
pub open spec fn response(
    h: DnsHeader,
    qs: Seq<QuestionView>,
    an: Seq<RecordView>,
    ns: Seq<RecordView>,
    ar: Seq<RecordView>,
) -> PacketView {
    PacketView { header: h, questions: qs, answers: an, authorities: ns, additionals: ar }
}

pub open spec fn count_of(n: nat) -> u16 {
    (n % 65536) as u16
}

fn count(n: usize) -> (r: u16)
    ensures
        r == count_of(n as nat),
{
    (n % 65536) as u16
}

fn empty_response(id: u16) -> (r: DnsPacket)
    ensures
        r@ == response(response_header(id), seq![], seq![], seq![], seq![]),
{
    let mut header = DnsHeader::with_id(id);
    header.query_response = true;
    header.recurse_desired = true;
    header.recurse_available = true;
    let r = DnsPacket {
        header,
        question_section: Vec::new(),
        answer_section: Vec::new(),
        authority_section: Vec::new(),
        additional_section: Vec::new(),
    };
    assert(r@.questions =~= seq![]);
    assert(r@.answers =~= seq![]);
    assert(r@.authorities =~= seq![]);
    assert(r@.additionals =~= seq![]);
    r
}

fn copy_records(out: &mut Vec<DnsRecord>, rs: &Vec<DnsRecord>)
    ensures
        records_view(final(out)@) == records_view(old(out)@) + records_view(rs@),
{
    let ghost start = records_view(out@);
    let mut i: usize = 0;
    while i < rs.len()
        invariant
            i <= rs@.len(),
            records_view(out@) == start + records_view(rs@.subrange(0, i as int)),
        decreases rs@.len() - i,
    {
        let ghost before = out@;
        out.push(rs[i].clone());
        assert(records_view(out@) =~= records_view(before).push(rs@[i as int]@));
        i = i + 1;
        assert(records_view(out@) =~= start + records_view(rs@.subrange(0, i as int)));
    }
    assert(rs@.subrange(0, rs@.len() as int) =~= rs@);
}

impl DnsResolver {
    pub fn new(remote_lookup_port: u16) -> (r: DnsResolver)
        ensures
            r.remote_lookup_port == remote_lookup_port,
    {
        DnsResolver { remote_lookup_port }
    }

    /// Whether some record of `records` has type `record_type`.
    pub fn any_record_type(records: &Vec<DnsRecord>, record_type: DnsQueryType) -> (r: bool)
        ensures
            r == has_type(records_view(records@), record_type),
    {
        let mut i: usize = 0;
        while i < records.len()
            invariant
                i <= records@.len(),
                forall|j: int|
                    0 <= j < i ==> (#[trigger] records@[j])@.preamble().query_type != record_type,
            decreases records@.len() - i,
        {
            if records[i].get_query_type() == record_type {
                assert(records_view(records@)[i as int] == records@[i as int]@);
                return true;
            }
            i = i + 1;
        }
        assert forall|j: int| 0 <= j < records@.len() implies (#[trigger] records_view(
            records@,
        )[j]).preamble().query_type != record_type by {
            assert(records_view(records@)[j] == records@[j]@);
        }
        false
    }

    /// The query sent upstream for `question`: a random id, RD set, and the
    /// question's name and type in class 1.
    pub fn forward_query(&self, question: &DnsQuestion) -> (r: DnsPacket)
        ensures
            r.header == (DnsHeader {
                id: r.header.id,
                recurse_desired: true,
                question_count: 1,
                ..DnsHeader::empty_spec()
            }),
            r@.questions == seq![QuestionView { name: question.name@, query_type: question.query_type, class: 1 }],
            r@.answers.len() == 0,
            r@.authorities.len() == 0,
            r@.additionals.len() == 0,
    {
        let mut packet = DnsPacket::new();
        packet.header.recurse_desired = true;
        packet.add_question(DnsQuestion::new(question.name.clone(), question.query_type));
        assert(packet@.questions =~= seq![QuestionView { name: question.name@, query_type: question.query_type, class: 1 }]);
        packet
    }

    /// The response to a forwarded question, from what came back upstream:
    /// `None` where binding, sending, receiving or parsing failed, which gives
    /// `SERVFAIL`. Otherwise the question, the upstream's response code and
    /// its three record sections, counted.
    pub fn complete_forward(&self, request_id: u16, question: &DnsQuestion, upstream: Option<DnsPacket>) -> (r: DnsPacket)
        ensures
            match upstream {
                None => r@ == response(
                    DnsHeader { response_code: DnsResponseCode::SERVFAIL, ..response_header(request_id) },
                    seq![],
                    seq![],
                    seq![],
                    seq![],
                ),
                Some(u) => r@ == response(
                    DnsHeader {
                        response_code: u.header.response_code,
                        question_count: 1,
                        answer_count: count_of(u@.answers.len()),
                        authority_count: count_of(u@.authorities.len()),
                        additional_count: count_of(u@.additionals.len()),
                        ..response_header(request_id)
                    },
                    seq![question@],
                    u@.answers,
                    u@.authorities,
                    u@.additionals,
                ),
            },
    {
        let mut packet = empty_response(request_id);
        match upstream {
            None => {
                packet.header.response_code = DnsResponseCode::SERVFAIL;
            },
            Some(result) => {
                packet.header.response_code = result.header.response_code;
                packet.header.question_count = 1;
                packet.question_section.push(question.clone());
                packet.header.answer_count = count(result.answer_section.len());
                packet.header.authority_count = count(result.authority_section.len());
                packet.header.additional_count = count(result.additional_section.len());
                packet.answer_section = result.answer_section;
                packet.authority_section = result.authority_section;
                packet.additional_section = result.additional_section;
                assert(packet@.questions =~= seq![question@]);
            },
        }
        packet
    }

    /// The records of a forwarded response that go into the cache: its
    /// answers, authorities and additionals, in that order.
    pub fn records_to_cache(response: &DnsPacket) -> (r: Vec<DnsRecord>)
        ensures
            records_view(r@) == response@.answers + response@.authorities + response@.additionals,
    {
        let mut out: Vec<DnsRecord> = Vec::new();
        copy_records(&mut out, &response.answer_section);
        copy_records(&mut out, &response.authority_section);
        copy_records(&mut out, &response.additional_section);
        out
    }

    /// Answers `request` from `stored`, the records that the store holds for
    /// the name of its first question, or `None` where the store could not be
    /// read. No question: `FORMERR`. Some record of type `DROP`: `NXDOMAIN`,
    /// the question echoed and no answer. Other records: `NOERROR`, the
    /// question and all the records as answers. No record, or no store: the
    /// first question is to be forwarded.
    pub fn answer_question(&self, request: &DnsPacket, stored: Option<Vec<DnsRecord>>) -> (r: ResolverStep)
        ensures
            request@.questions.len() == 0 ==> r is Respond && r->Respond_0@ == response(
                DnsHeader { response_code: DnsResponseCode::FORMERR, ..response_header(request.header.id) },
                seq![],
                seq![],
                seq![],
                seq![],
            ),
            request@.questions.len() > 0 ==> match stored {
                Some(rs) if rs@.len() > 0 => if has_type(records_view(rs@), DnsQueryType::DROP) {
                    r is Respond && r->Respond_0@ == response(
                        DnsHeader {
                            response_code: DnsResponseCode::NXDOMAIN,
                            question_count: 1,
                            ..response_header(request.header.id)
                        },
                        seq![request@.questions[0]],
                        seq![],
                        seq![],
                        seq![],
                    )
                } else {
                    r is Respond && r->Respond_0@ == response(
                        DnsHeader {
                            response_code: DnsResponseCode::NOERROR,
                            question_count: 1,
                            answer_count: count_of(rs@.len()),
                            ..response_header(request.header.id)
                        },
                        seq![request@.questions[0]],
                        records_view(rs@),
                        seq![],
                        seq![],
                    )
                },
                _ => r is Forward && r->Forward_0@ == request@.questions[0],
            },
    {
        let mut packet = empty_response(request.header.id);
        if request.question_section.len() == 0 {
            packet.header.response_code = DnsResponseCode::FORMERR;
            return ResolverStep::Respond(packet);
        }
        let question = request.question_section[0].clone();
        assert(question@ == request@.questions[0]);
        match stored {
            Some(records) if records.len() > 0 => {
                packet.header.question_count = 1;
                if DnsResolver::any_record_type(&records, DnsQueryType::DROP) {
                    packet.header.response_code = DnsResponseCode::NXDOMAIN;
                    packet.question_section.push(question);
                } else {
                    packet.header.response_code = DnsResponseCode::NOERROR;
                    packet.header.answer_count = count(records.len());
                    packet.question_section.push(question);
                    packet.answer_section = records;
                }
                assert(packet@.questions =~= seq![request@.questions[0]]);
                ResolverStep::Respond(packet)
            },
            _ => ResolverStep::Forward(question),
        }
    }
}


/// Once the records of a forwarded response are written to the cache at
/// `now`, each of its answers, authorities and additionals has an entry of
/// its key there, inserted at `now`.
pub proof fn lemma_forwarded_records_are_cached(
    response: PacketView,
    to_cache: Seq<RecordView>,
    now: i64,
    cache: Seq<(RecordView, i64)>,
    x: RecordView,
)
    requires
        to_cache == response.answers + response.authorities + response.additionals,
        cached_all(to_cache, now, cache),
        response.answers.contains(x) || response.authorities.contains(x)
            || response.additionals.contains(x),
    ensures
        exists|c: (RecordView, i64)| #[trigger] cache.contains(c) && same_key(c.0, x) && c.1 == now,
{
    let a = response.answers;
    let b = response.authorities;
    let d = response.additionals;
    if a.contains(x) {
        let k = choose|k: int| 0 <= k < a.len() && a[k] == x;
        assert(to_cache[k] == x);
    } else if b.contains(x) {
        let k = choose|k: int| 0 <= k < b.len() && b[k] == x;
        assert(to_cache[a.len() + k] == x);
    } else {
        let k = choose|k: int| 0 <= k < d.len() && d[k] == x;
        assert(to_cache[a.len() + b.len() + k] == x);
    }
    assert(to_cache.contains(x));
}

} // verus!
