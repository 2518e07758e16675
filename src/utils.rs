use vstd::prelude::*;
use vstd::string::{StringExecFns, StringSliceAdditionalSpecFns};
use vstd::utf8::{
    decode_utf8, encode_utf8, encode_utf8_valid_utf8, is_char_boundary_iff_not_is_continuation_byte,
    length_of_first_scalar, pop_first_scalar, valid_utf8, valid_utf8_split,
};

verus! {

/// What went wrong while reading a DNS message.
#[derive(Clone, Copy, Debug, PartialEq, Eq, Structural)]
pub enum Malformed {
    /// An index went past the end of the buffer.
    Truncated,
    /// A name could not be read: too many pointer jumps, or a label that is not UTF-8.
    MalformedName,
    /// The message holds something the protocol forbids.
    ProtocolError,
}

/// The two big-endian bytes of `n`.
pub open spec fn u16_be(n: u16) -> Seq<u8> {
    seq![(n / 256) as u8, (n % 256) as u8]
}

/// The four big-endian bytes of `n`.
pub open spec fn u32_be(n: u32) -> Seq<u8> {
    seq![(n / 0x1000000) as u8, ((n / 0x10000) % 256) as u8, ((n / 256) % 256) as u8, (n % 256) as u8]
}

/// The big-endian `u16` that starts at `i`.
pub open spec fn u16_at(s: Seq<u8>, i: int) -> u16 {
    (s[i] as int * 256 + s[i + 1] as int) as u16
}

/// The big-endian `u32` that starts at `i`.
pub open spec fn u32_at(s: Seq<u8>, i: int) -> u32 {
    (s[i] as int * 0x1000000 + s[i + 1] as int * 0x10000 + s[i + 2] as int * 256
        + s[i + 3] as int) as u32
}

pub proof fn lemma_u16_round_trip(n: u16, s: Seq<u8>, i: int)
    requires
        0 <= i,
        i + 2 <= s.len(),
        s.subrange(i, i + 2) == u16_be(n),
    ensures
        u16_at(s, i) == n,
{
    assert(s[i] == s.subrange(i, i + 2)[0]);
    assert(s[i + 1] == s.subrange(i, i + 2)[1]);
}

pub proof fn lemma_u32_round_trip(n: u32, s: Seq<u8>, i: int)
    requires
        0 <= i,
        i + 4 <= s.len(),
        s.subrange(i, i + 4) == u32_be(n),
    ensures
        u32_at(s, i) == n,
{
    assert(s[i] == s.subrange(i, i + 4)[0]);
    assert(s[i + 1] == s.subrange(i, i + 4)[1]);
    assert(s[i + 2] == s.subrange(i, i + 4)[2]);
    assert(s[i + 3] == s.subrange(i, i + 4)[3]);
}

pub fn u16_to_bytes(num: u16) -> (r: Vec<u8>)
    ensures
        r@ == u16_be(num),
{
    let hi = ((num >> 8u16) & 0xFFu16) as u8;
    let lo = (num & 0xFFu16) as u8;
    assert(((num >> 8u16) & 0xFFu16) == num / 256) by (bit_vector);
    assert((num & 0xFFu16) == num % 256) by (bit_vector);
    let r = vec![hi, lo];
    assert(r@ =~= u16_be(num));
    r
}

pub fn u32_to_bytes(num: u32) -> (r: Vec<u8>)
    ensures
        r@ == u32_be(num),
{
    assert(((num >> 24u32) & 0xFFu32) == num / 0x1000000) by (bit_vector);
    assert(((num >> 16u32) & 0xFFu32) == (num / 0x10000) % 256) by (bit_vector);
    assert(((num >> 8u32) & 0xFFu32) == (num / 256) % 256) by (bit_vector);
    assert((num & 0xFFu32) == num % 256) by (bit_vector);
    let r = vec![
        ((num >> 24u32) & 0xFFu32) as u8,
        ((num >> 16u32) & 0xFFu32) as u8,
        ((num >> 8u32) & 0xFFu32) as u8,
        (num & 0xFFu32) as u8,
    ];
    assert(r@ =~= u32_be(num));
    r
}

/// Reads the big-endian `u16` at `index`; `Truncated` where fewer than two bytes remain.
pub fn get_u16(bytes: &[u8], index: usize) -> (r: Result<u16, Malformed>)
    ensures
        r is Ok <==> index + 2 <= bytes@.len(),
        r is Ok ==> r->Ok_0 == u16_at(bytes@, index as int),
        r is Err ==> r->Err_0 == Malformed::Truncated,
{
    if bytes.len() >= 2 && index <= bytes.len() - 2 {
        let a = bytes[index];
        let b = bytes[index + 1];
        assert(((a as u16) << 8u16 | (b as u16)) == (a as u16) * 256 + (b as u16)) by (bit_vector);
        Ok((a as u16) << 8u16 | (b as u16))
    } else {
        Err(Malformed::Truncated)
    }
}

/// Reads the big-endian `u32` at `index`; `Truncated` where fewer than four bytes remain.
pub fn get_u32(bytes: &[u8], index: usize) -> (r: Result<u32, Malformed>)
    ensures
        r is Ok <==> index + 4 <= bytes@.len(),
        r is Ok ==> r->Ok_0 == u32_at(bytes@, index as int),
        r is Err ==> r->Err_0 == Malformed::Truncated,
{
    if bytes.len() >= 4 && index <= bytes.len() - 4 {
        let a = bytes[index] as u32;
        let b = bytes[index + 1] as u32;
        let c = bytes[index + 2] as u32;
        let d = bytes[index + 3] as u32;
        assert(a < 256 && b < 256 && c < 256 && d < 256);
        assert(a < 256 && b < 256 && c < 256 && d < 256 ==> (a << 24u32 | b << 16u32 | c << 8u32 | d)
            == a * 0x1000000 + b * 0x10000 + c * 256 + d) by (bit_vector);
        Ok(a << 24u32 | b << 16u32 | c << 8u32 | d)
    } else {
        Err(Malformed::Truncated)
    }
}


/// The byte `.` that separates labels.
pub const DOT: u8 = 0x2E;

/// The deepest chain of name pointers that is followed.
pub const MAX_POINTER_DEPTH: u32 = 20;

/// Wire form of the labels of `s` from `start` on, where `s[start..i]` holds no dot:
/// each label as a length byte and its bytes, then a zero byte.
pub open spec fn encode_labels(s: Seq<u8>, start: int, i: int) -> Seq<u8>
    decreases s.len() - i,
{
    if i >= s.len() {
        seq![((i - start) % 256) as u8] + s.subrange(start, i) + seq![0u8]
    } else if s[i] == DOT {
        seq![((i - start) % 256) as u8] + s.subrange(start, i) + encode_labels(s, i + 1, i + 1)
    } else {
        encode_labels(s, start, i + 1)
    }
}

/// Wire form of the dotted name whose bytes are `s`, without compression.
pub open spec fn encode_name(s: Seq<u8>) -> Seq<u8> {
    encode_labels(s, 0, 0)
}

/// Splits `value` on `.` and writes each part as a length byte and its bytes,
/// then the terminating zero byte.
pub fn domain_name_to_bytes(value: &str) -> (r: Vec<u8>)
    ensures
        r@ == encode_name(value.spec_bytes()),
{
    let bytes = value.as_bytes();
    let ghost s = bytes@;
    let mut result: Vec<u8> = Vec::new();
    let mut start: usize = 0;
    let mut i: usize = 0;
    while i < bytes.len()
        invariant
            s == bytes@,
            s == value.spec_bytes(),
            start <= i <= s.len(),
            result@ + encode_labels(s, start as int, i as int) == encode_name(s),
        decreases s.len() - i,
    {
        if bytes[i] == DOT {
            let ghost before = result@;
            let d: usize = i - start;
            assert(d & 0xFF == d % 256) by (bit_vector);
            result.push((d & 0xFF) as u8);
            let mut j: usize = start;
            while j < i
                invariant
                    s == bytes@,
                    start <= j <= i < s.len(),
                    result@ == before + seq![((i - start) % 256) as u8] + s.subrange(
                        start as int,
                        j as int,
                    ),
                decreases i - j,
            {
                result.push(bytes[j]);
                j = j + 1;
                assert(result@ =~= before + seq![((i - start) % 256) as u8] + s.subrange(
                    start as int,
                    j as int,
                ));
            }
            assert(before + encode_labels(s, start as int, i as int) =~= result@ + encode_labels(
                s,
                i + 1,
                i + 1,
            ));
            start = i + 1;
        }
        i = i + 1;
    }
    let ghost before = result@;
    let d: usize = i - start;
    assert(d & 0xFF == d % 256) by (bit_vector);
    result.push((d & 0xFF) as u8);
    let mut j: usize = start;
    while j < i
        invariant
            s == bytes@,
            start <= j <= i,
            i == s.len(),
            result@ == before + seq![((i - start) % 256) as u8] + s.subrange(start as int, j as int),
        decreases i - j,
    {
        result.push(bytes[j]);
        j = j + 1;
        assert(result@ =~= before + seq![((i - start) % 256) as u8] + s.subrange(
            start as int,
            j as int,
        ));
    }
    result.push(0u8);
    assert(result@ =~= before + encode_labels(s, start as int, i as int));
    result
}



pub uninterp spec fn lower_of(s: Seq<char>) -> Seq<char>;

/// Relies on `str::to_lowercase`: the lowercase form of a string, which
/// depends on its characters alone.
#[verifier::external_body]
fn lowercase(s: &str) -> (r: String)
    ensures
        r@ == lower_of(s@),
{
    s.to_lowercase()
}

/// Relies on `String::from_utf8`: it succeeds exactly on valid UTF-8 and then
/// holds the characters that the bytes encode.
#[verifier::external_body]
pub(crate) fn string_from_utf8(bytes: Vec<u8>) -> (r: Option<String>)
    ensures
        r is Some <==> valid_utf8(bytes@),
        r is Some ==> r->Some_0@ == decode_utf8(bytes@),
{
    String::from_utf8(bytes).ok()
}

/// Two parts of a name joined by a dot, where both are present.
pub open spec fn join_name(a: Seq<char>, b: Seq<char>) -> Seq<char> {
    if a.len() == 0 {
        b
    } else if b.len() == 0 {
        a
    } else {
        a + seq!['.'] + b
    }
}

/// A label as the decoder gives it: its bytes read as UTF-8, then lowercased.
pub open spec fn label_text(bytes: Seq<u8>) -> Seq<char> {
    lower_of(decode_utf8(bytes))
}

/// Reads the name at `pos` of the message `buf`, `depth` pointer jumps deep:
/// its labels, each read as UTF-8 and lowercased, joined by dots, and the index
/// just after the name where it started (a pointer ends the name two bytes
/// after it). A label that is not UTF-8 makes the name `MalformedName`.
pub open spec fn name_at(buf: Seq<u8>, pos: int, depth: int) -> Result<(Seq<char>, int), Malformed>
    decreases MAX_POINTER_DEPTH - depth, buf.len() - pos,
{
    if depth >= MAX_POINTER_DEPTH {
        Err(Malformed::MalformedName)
    } else if pos < 0 || pos >= buf.len() {
        Err(Malformed::Truncated)
    } else if buf[pos] >= 0xC0 {
        if pos + 1 >= buf.len() {
            Err(Malformed::Truncated)
        } else {
            match name_at(buf, (buf[pos] - 0xC0) * 256 + buf[pos + 1], depth + 1) {
                Ok(part) => Ok((part.0, pos + 2)),
                Err(e) => Err(e),
            }
        }
    } else if buf[pos] == 0 {
        Ok((seq![], pos + 1))
    } else if pos + 1 + buf[pos] > buf.len() {
        Err(Malformed::Truncated)
    } else {
        let end = pos + 1 + buf[pos];
        let label = buf.subrange(pos + 1, end);
        if !valid_utf8(label) {
            Err(Malformed::MalformedName)
        } else {
            match name_at(buf, end, depth) {
                Ok(rest) => Ok((join_name(label_text(label), rest.0), rest.1)),
                Err(e) => Err(e),
            }
        }
    }
}

fn join_strings(a: String, b: String) -> (r: String)
    ensures
        r@ == join_name(a@, b@),
{
    if a.as_str().is_empty() {
        b
    } else if b.as_str().is_empty() {
        a
    } else {
        let mut r = a;
        proof {
            reveal_strlit(".");
        }
        r.append(".");
        r.append(b.as_str());
        r
    }
}

/// Reads the name that starts at `start` in the message `bytes`, following
/// compression pointers; `depth` counts the jumps already made.
pub fn get_name_from_packet(bytes: &[u8], start: usize, depth: u32) -> (r: Result<(String, usize), Malformed>)
    ensures
        match name_at(bytes@, start as int, depth as int) {
            Ok(n) => r is Ok && r->Ok_0.0@ == n.0 && r->Ok_0.1 == n.1,
            Err(e) => r is Err && r->Err_0 == e,
        },
    decreases MAX_POINTER_DEPTH - depth, bytes@.len() - start,
{
    let buf = bytes;
    let pos = start;
    if depth >= MAX_POINTER_DEPTH {
        return Err(Malformed::MalformedName);
    }
    if pos >= buf.len() {
        return Err(Malformed::Truncated);
    }
    let length_byte = buf[pos];
    assert((length_byte & 0xC0u8) == 0xC0u8 <==> length_byte >= 0xC0) by (bit_vector);
    if (length_byte & 0xC0u8) == 0xC0u8 {
        if pos + 1 >= buf.len() {
            return Err(Malformed::Truncated);
        }
        let offset_byte = buf[pos + 1] as u16;
        let jump_index: u16 = (((length_byte as u16) ^ 0xC0u16) << 8u16) | offset_byte;
        assert(length_byte >= 0xC0 && offset_byte < 256 ==> (((length_byte as u16) ^ 0xC0u16) << 8u16)
            | offset_byte == ((length_byte - 0xC0) as u16) * 256 + offset_byte) by (bit_vector);
        match get_name_from_packet(buf, jump_index as usize, depth + 1) {
            Ok(part) => Ok((part.0, pos + 2)),
            Err(e) => Err(e),
        }
    } else {
        if length_byte == 0 {
            return Ok((String::new(), pos + 1));
        }
        if length_byte as usize > buf.len() - pos - 1 {
            return Err(Malformed::Truncated);
        }
        let end = pos + 1 + length_byte as usize;
        let raw = vstd::slice::slice_to_vec(vstd::slice::slice_subrange(buf, pos + 1, end));
        let text = match string_from_utf8(raw) {
            Some(t) => t,
            None => return Err(Malformed::MalformedName),
        };
        let label = lowercase(text.as_str());
        match get_name_from_packet(buf, end, depth) {
            Ok(rest) => {
                let (rest_name, next) = rest;
                Ok((join_strings(label, rest_name), next))
            },
            Err(e) => Err(e),
        }
    }
}

/// A dotted name of valid form: labels of 1 to 63 bytes, separated by single dots.
pub open spec fn valid_name(s: Seq<u8>) -> bool {
    &&& 0 < s.len()
    &&& s[0] != DOT
    &&& s[s.len() - 1] != DOT
    &&& forall|j: int|
        #![trigger s[j], s[j + 1]]
        0 <= j < s.len() - 1 && s[j] == DOT ==> s[j + 1] != DOT
    &&& forall|a: int| 0 <= a && a + 64 <= s.len() ==> #[trigger] has_dot_in(s, a, a + 64)
}

/// Some byte of `s[a..b]` is a dot.
pub open spec fn has_dot_in(s: Seq<u8>, a: int, b: int) -> bool {
    exists|j: int| a <= j < b && s[j] == DOT
}

/// The name written as the bytes `s`, from the label that starts at `start`
/// on, as the decoder reads it back: each label lowercased, joined by dots;
/// `s[start..i]` holds no dot.
pub open spec fn lower_labels(s: Seq<u8>, start: int, i: int) -> Seq<char>
    decreases s.len() - i,
{
    if i >= s.len() {
        label_text(s.subrange(start, i))
    } else if s[i] == DOT {
        join_name(label_text(s.subrange(start, i)), lower_labels(s, i + 1, i + 1))
    } else {
        lower_labels(s, start, i + 1)
    }
}

#[verifier::rlimit(40)]
proof fn lemma_read_encoded_labels(s: Seq<u8>, start: int, i: int, buf: Seq<u8>, pos: int, depth: int)
    requires
        valid_name(s),
        0 <= start <= i <= s.len(),
        valid_utf8(s.subrange(start, s.len() as int)),
        start < s.len(),
        s[start] != DOT,
        forall|j: int| start <= j < i ==> s[j] != DOT,
        0 <= pos,
        pos + encode_labels(s, start, i).len() <= buf.len(),
        buf.subrange(pos, pos + encode_labels(s, start, i).len()) == encode_labels(s, start, i),
        0 <= depth < MAX_POINTER_DEPTH,
    ensures
        name_at(buf, pos, depth) == Ok::<(Seq<char>, int), Malformed>(
            (lower_labels(s, start, i), pos + encode_labels(s, start, i).len()),
        ),
    decreases s.len() - i,
{
    let e = encode_labels(s, start, i);
    if i < s.len() && s[i] != DOT {
        lemma_read_encoded_labels(s, start, i + 1, buf, pos, depth);
    } else {
        let len = i - start;
        if len >= 64 {
            assert(has_dot_in(s, start, start + 64));
        }
        assert(1 <= len < 64);
        assert(buf[pos] == e[0]);
        assert(buf[pos] as int == len);
        let end = pos + 1 + len;
        let label = s.subrange(start, i);
        assert(buf.subrange(pos + 1, end) =~= label) by {
            assert forall|k: int| 0 <= k < len implies buf.subrange(pos + 1, end)[k] == label[k] by {
                assert(buf[pos + 1 + k] == e[1 + k]);
            }
        }
        let suf = s.subrange(start, s.len() as int);
        if i >= s.len() {
            assert(label =~= suf);
            assert(buf[end] == e[1 + len]);
            assert(name_at(buf, end, depth) == Ok::<(Seq<char>, int), Malformed>((seq![], end + 1)));
            assert(join_name(label_text(label), seq![]) =~= label_text(label));
        } else {
            let e2 = encode_labels(s, i + 1, i + 1);
            assert(e =~= seq![(len % 256) as u8] + s.subrange(start, i) + e2);
            assert(s[i + 1] != DOT);
            let k = i - start;
            assert(suf[k] == DOT);
            is_char_boundary_iff_not_is_continuation_byte(suf, k);
            valid_utf8_split(suf, k);
            assert(suf.subrange(0, k) =~= label);
            let tail = suf.subrange(k, suf.len() as int);
            assert(tail =~= s.subrange(i, s.len() as int));
            lemma_valid_after_ascii(tail);
            assert(tail.subrange(1, tail.len() as int) =~= s.subrange(i + 1, s.len() as int));
            assert(buf.subrange(end, end + e2.len()) =~= e2) by {
                assert forall|k: int| 0 <= k < e2.len() implies buf.subrange(end, end + e2.len())[k] == e2[k] by {
                    assert(buf[end + k] == e[1 + len + k]);
                }
            }
            lemma_read_encoded_labels(s, i + 1, i + 1, buf, end, depth);
        }
    }
}

/// Whether the byte at `p` is a pointer to `target`.
pub open spec fn points_to(buf: Seq<u8>, p: int, target: int) -> bool {
    &&& 0 <= p
    &&& p + 1 < buf.len()
    &&& buf[p] >= 0xC0
    &&& (buf[p] - 0xC0) * 256 + buf[p + 1] == target
}

/// A chain of pointers, each to the next, that is as deep as the jump limit
/// or deeper makes the name unreadable: `MalformedName`.
pub proof fn lemma_pointer_chain_fails(buf: Seq<u8>, chain: Seq<int>, depth: int)
    requires
        0 <= depth <= MAX_POINTER_DEPTH,
        chain.len() > MAX_POINTER_DEPTH,
        forall|k: int| 0 <= k < MAX_POINTER_DEPTH ==> points_to(buf, #[trigger] chain[k], chain[k + 1]),
    ensures
        name_at(buf, chain[depth], depth) == Err::<(Seq<char>, int), Malformed>(Malformed::MalformedName),
    decreases MAX_POINTER_DEPTH - depth,
{
    if depth < MAX_POINTER_DEPTH {
        assert(points_to(buf, chain[depth], chain[depth + 1]));
        lemma_pointer_chain_fails(buf, chain, depth + 1);
    }
}

/// What follows a one-byte character of valid UTF-8 is valid UTF-8.
proof fn lemma_valid_after_ascii(t: Seq<u8>)
    requires
        valid_utf8(t),
        t.len() > 0,
        t[0] < 0x80,
    ensures
        valid_utf8(t.subrange(1, t.len() as int)),
{
    assert(length_of_first_scalar(t) == 1);
    assert(pop_first_scalar(t) == t.subrange(1, t.len() as int));
}

/// Where `buf` holds `a + b` at `pos`, it holds `a` there and `b` right after.
pub(crate) proof fn lemma_split(buf: Seq<u8>, pos: int, a: Seq<u8>, b: Seq<u8>)
    requires
        0 <= pos,
        pos + a.len() + b.len() <= buf.len(),
        buf.subrange(pos, pos + a.len() + b.len()) == a + b,
    ensures
        buf.subrange(pos, pos + a.len()) == a,
        buf.subrange(pos + a.len(), pos + a.len() + b.len()) == b,
{
    let w = buf.subrange(pos, pos + a.len() + b.len());
    assert(buf.subrange(pos, pos + a.len()) =~= a) by {
        assert forall|k: int| 0 <= k < a.len() implies buf.subrange(pos, pos + a.len())[k] == a[k] by {
            assert(w[k] == (a + b)[k]);
        }
    }
    assert(buf.subrange(pos + a.len(), pos + a.len() + b.len()) =~= b) by {
        assert forall|k: int| 0 <= k < b.len() implies buf.subrange(pos + a.len(), pos + a.len() + b.len())[k] == b[k] by {
            assert(w[a.len() + k] == (a + b)[a.len() + k]);
        }
    }
}

/// A name as the decoder gives it back: each of its labels lowercased.
pub open spec fn lower_name(n: Seq<char>) -> Seq<char> {
    lower_labels(encode_utf8(n), 0, 0)
}

/// A domain name of valid form: labels of 1 to 63 bytes, separated by dots.
pub open spec fn valid_domain(n: Seq<char>) -> bool {
    valid_name(encode_utf8(n))
}

/// The name of valid form `n`, written at `pos` of a message, reads back as
/// `n` with each label lowercased, and the read ends just past it.
pub proof fn lemma_name_at_encoded(n: Seq<char>, buf: Seq<u8>, pos: int)
    requires
        valid_domain(n),
        0 <= pos,
        pos + encode_name(encode_utf8(n)).len() <= buf.len(),
        buf.subrange(pos, pos + encode_name(encode_utf8(n)).len()) == encode_name(encode_utf8(n)),
    ensures
        name_at(buf, pos, 0) == Ok::<(Seq<char>, int), Malformed>(
            (lower_name(n), pos + encode_name(encode_utf8(n)).len()),
        ),
{
    let s = encode_utf8(n);
    encode_utf8_valid_utf8(n);
    assert(s.subrange(0, s.len() as int) =~= s);
    lemma_read_encoded_labels(s, 0, 0, buf, pos, 0);
}

/// A domain name of valid form, encoded and read back from the start of a
/// message, is the name with each label lowercased; the read ends just past
/// its encoding.
pub proof fn lemma_domain_name_round_trip(n: Seq<char>, rest: Seq<u8>)
    requires
        valid_domain(n),
    ensures
        name_at(encode_name(encode_utf8(n)) + rest, 0, 0) == Ok::<(Seq<char>, int), Malformed>(
            (lower_name(n), encode_name(encode_utf8(n)).len() as int),
        ),
{
    let e = encode_name(encode_utf8(n));
    assert((e + rest).subrange(0, e.len() as int) =~= e);
    lemma_name_at_encoded(n, e + rest, 0);
}

} // verus!
