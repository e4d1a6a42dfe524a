//! DNS wire format: record types, the header, and the query encoder.

use vstd::prelude::*;
use vstd::set_lib::{lemma_int_range, lemma_len_subset, set_int_range};
use vstd::string::*;
use vstd::utf8::{
    decode_utf8, encode_utf8, encode_utf8_decode_utf8, encode_utf8_valid_utf8, decode_utf8_encode_utf8,
    leading_byte_width_1, valid_utf8,
};
use crate::text::{push_str, str_eq, upper_string, uppercase_of, utf8_text};

verus! {

#[derive(Debug, Clone, Copy, PartialEq, Eq, Structural)]
pub enum RecordType {
    A,
    Ns,
    Cname,
    Soa,
    Ptr,
    Mx,
    Txt,
    Aaaa,
    Any,
}

/// The record type with this numeric code, if it is one of the known ones.
pub open spec fn record_type_of(v: u16) -> Option<RecordType> {
    if v == 1 {
        Some(RecordType::A)
    } else if v == 2 {
        Some(RecordType::Ns)
    } else if v == 5 {
        Some(RecordType::Cname)
    } else if v == 6 {
        Some(RecordType::Soa)
    } else if v == 12 {
        Some(RecordType::Ptr)
    } else if v == 15 {
        Some(RecordType::Mx)
    } else if v == 16 {
        Some(RecordType::Txt)
    } else if v == 28 {
        Some(RecordType::Aaaa)
    } else if v == 255 {
        Some(RecordType::Any)
    } else {
        None
    }
}

/// The record type with this (upper-case) mnemonic.
pub open spec fn record_type_named(s: Seq<char>) -> Option<RecordType> {
    if s == "A"@ {
        Some(RecordType::A)
    } else if s == "NS"@ {
        Some(RecordType::Ns)
    } else if s == "CNAME"@ {
        Some(RecordType::Cname)
    } else if s == "SOA"@ {
        Some(RecordType::Soa)
    } else if s == "PTR"@ {
        Some(RecordType::Ptr)
    } else if s == "MX"@ {
        Some(RecordType::Mx)
    } else if s == "TXT"@ {
        Some(RecordType::Txt)
    } else if s == "AAAA"@ {
        Some(RecordType::Aaaa)
    } else if s == "ANY"@ {
        Some(RecordType::Any)
    } else {
        None
    }
}

impl RecordType {
    /// The numeric code of the type on the wire.
    pub open spec fn code(self) -> u16 {
        match self {
            RecordType::A => 1,
            RecordType::Ns => 2,
            RecordType::Cname => 5,
            RecordType::Soa => 6,
            RecordType::Ptr => 12,
            RecordType::Mx => 15,
            RecordType::Txt => 16,
            RecordType::Aaaa => 28,
            RecordType::Any => 255,
        }
    }

    /// The mnemonic of the type.
    pub open spec fn mnemonic(self) -> Seq<char> {
        match self {
            RecordType::A => "A"@,
            RecordType::Ns => "NS"@,
            RecordType::Cname => "CNAME"@,
            RecordType::Soa => "SOA"@,
            RecordType::Ptr => "PTR"@,
            RecordType::Mx => "MX"@,
            RecordType::Txt => "TXT"@,
            RecordType::Aaaa => "AAAA"@,
            RecordType::Any => "ANY"@,
        }
    }

    pub fn from_u16(v: u16) -> (r: Option<RecordType>)
        ensures
            r == record_type_of(v),
    {
        match v {
            1 => Some(RecordType::A),
            2 => Some(RecordType::Ns),
            5 => Some(RecordType::Cname),
            6 => Some(RecordType::Soa),
            12 => Some(RecordType::Ptr),
            15 => Some(RecordType::Mx),
            16 => Some(RecordType::Txt),
            28 => Some(RecordType::Aaaa),
            255 => Some(RecordType::Any),
            _ => None,
        }
    }

    pub fn to_u16(self) -> (r: u16)
        ensures
            r == self.code(),
    {
        match self {
            RecordType::A => 1,
            RecordType::Ns => 2,
            RecordType::Cname => 5,
            RecordType::Soa => 6,
            RecordType::Ptr => 12,
            RecordType::Mx => 15,
            RecordType::Txt => 16,
            RecordType::Aaaa => 28,
            RecordType::Any => 255,
        }
    }

    /// The type named by `s` in any letter case: `s` is upper-cased with
    /// the standard Unicode mapping and looked up among the mnemonics.
    pub fn from_str(s: &str) -> (r: Option<RecordType>)
        ensures
            r == record_type_named(uppercase_of(s@)),
    {
        let u = upper_string(s);
        RecordType::from_upper(u.as_str())
    }

    /// The type whose mnemonic is exactly `u`.
    pub fn from_upper(u: &str) -> (r: Option<RecordType>)
        ensures
            r == record_type_named(u@),
    {
        if str_eq(u, "A") {
            Some(RecordType::A)
        } else if str_eq(u, "NS") {
            Some(RecordType::Ns)
        } else if str_eq(u, "CNAME") {
            Some(RecordType::Cname)
        } else if str_eq(u, "SOA") {
            Some(RecordType::Soa)
        } else if str_eq(u, "PTR") {
            Some(RecordType::Ptr)
        } else if str_eq(u, "MX") {
            Some(RecordType::Mx)
        } else if str_eq(u, "TXT") {
            Some(RecordType::Txt)
        } else if str_eq(u, "AAAA") {
            Some(RecordType::Aaaa)
        } else if str_eq(u, "ANY") {
            Some(RecordType::Any)
        } else {
            None
        }
    }

    pub fn as_str(self) -> (r: &'static str)
        ensures
            r@ == self.mnemonic(),
    {
        match self {
            RecordType::A => "A",
            RecordType::Ns => "NS",
            RecordType::Cname => "CNAME",
            RecordType::Soa => "SOA",
            RecordType::Ptr => "PTR",
            RecordType::Mx => "MX",
            RecordType::Txt => "TXT",
            RecordType::Aaaa => "AAAA",
            RecordType::Any => "ANY",
        }
    }
}

/// Reading back the code of a type gives the type.
pub proof fn lemma_record_type_code_roundtrip(t: RecordType)
    ensures
        record_type_of(t.code()) == Some(t),
{
}

/// A known code is the code of the type read from it.
pub proof fn lemma_record_type_of_code(v: u16)
    ensures
        record_type_of(v) matches Some(t) ==> t.code() == v,
{
}

/// Looking up the mnemonic of a type gives the type.
pub proof fn lemma_record_type_name_roundtrip(t: RecordType)
    ensures
        record_type_named(t.mnemonic()) == Some(t),
{
    reveal_strlit("A");
    reveal_strlit("NS");
    reveal_strlit("CNAME");
    reveal_strlit("SOA");
    reveal_strlit("PTR");
    reveal_strlit("MX");
    reveal_strlit("TXT");
    reveal_strlit("AAAA");
    reveal_strlit("ANY");
    let m = t.mnemonic();
    assert(m.len() != 1 ==> m != "A"@);
    assert(m != "A"@ && m.len() == 2 ==> (m[0] != "NS"@[0] ==> m != "NS"@));
    assert(m.len() == 3 ==> (m[0] != "SOA"@[0] ==> m != "SOA"@));
    assert(m.len() == 3 ==> (m[0] != "PTR"@[0] ==> m != "PTR"@));
    assert(m.len() == 3 ==> (m[0] != "TXT"@[0] ==> m != "TXT"@));
    assert(m.len() != 5 ==> m != "CNAME"@);
    assert(m.len() != 4 ==> m != "AAAA"@);
}

#[derive(Debug, Clone, Copy, PartialEq, Eq, Structural)]
pub struct Header {
    pub id: u16,
    pub flags: u16,
    pub qd_count: u16,
    pub an_count: u16,
    pub ns_count: u16,
    pub ar_count: u16,
}

impl Header {
    /// QR bit.
    pub fn is_response(&self) -> (b: bool)
        ensures
            b == (self.flags & 0x8000 != 0),
    {
        self.flags & 0x8000 != 0
    }

    /// TC bit.
    pub fn is_truncated(&self) -> (b: bool)
        ensures
            b == (self.flags & 0x0200 != 0),
    {
        self.flags & 0x0200 != 0
    }

    /// The response code (low four bits).
    pub fn rcode(&self) -> (r: u8)
        ensures
            r == self.flags & 0x000F,
    {
        let f: u16 = self.flags;
        let v: u16 = f & 0x000F;
        assert(v < 16) by (bit_vector)
            requires v == f & 0x000F;
        v as u8
    }

    /// RD bit.
    pub fn recursion_desired(&self) -> (b: bool)
        ensures
            b == (self.flags & 0x0100 != 0),
    {
        self.flags & 0x0100 != 0
    }

    /// RA bit.
    pub fn recursion_available(&self) -> (b: bool)
        ensures
            b == (self.flags & 0x0080 != 0),
    {
        self.flags & 0x0080 != 0
    }
}

#[derive(Debug, Clone, PartialEq)]
pub struct Question {
    pub name: String,
    pub qtype: RecordType,
    pub qclass: u16,
}

/// An EDNS option: its code and raw data.
pub struct EdnsOption {
    pub code: u16,
    pub data: Vec<u8>,
}

/// The data of a record, by type; addresses are kept as their bytes.
#[derive(Debug, Clone, PartialEq)]
pub enum Rdata {
    A([u8; 4]),
    Aaaa([u8; 16]),
    Cname(String),
    Mx { priority: u16, exchange: String },
    Ns(String),
    Ptr(String),
    Txt(Vec<Vec<u8>>),
    Soa { mname: String, rname: String, serial: u32, refresh: u32, retry: u32, expire: u32, minimum: u32 },
    Unknown(Vec<u8>),
}

#[derive(Debug, Clone, PartialEq)]
pub struct ResourceRecord {
    pub name: String,
    pub rtype: RecordType,
    pub class: u16,
    pub ttl: u32,
    pub rdata: Rdata,
}

#[derive(Debug, Clone, PartialEq)]
pub struct Message {
    pub header: Header,
    pub questions: Vec<Question>,
    pub answers: Vec<ResourceRecord>,
    pub authority: Vec<ResourceRecord>,
    pub additional: Vec<ResourceRecord>,
}

/// A question as plain values.
pub struct QuestionView {
    pub name: Seq<char>,
    pub qtype: RecordType,
    pub qclass: u16,
}

/// Record data as plain values.
pub enum RdataView {
    A(Seq<u8>),
    Aaaa(Seq<u8>),
    Cname(Seq<char>),
    Mx(u16, Seq<char>),
    Ns(Seq<char>),
    Ptr(Seq<char>),
    Txt(Seq<Seq<u8>>),
    Soa(Seq<char>, Seq<char>, u32, u32, u32, u32, u32),
    Unknown(Seq<u8>),
}

/// A record as plain values.
pub struct RecordView {
    pub name: Seq<char>,
    pub rtype: RecordType,
    pub class: u16,
    pub ttl: u32,
    pub rdata: RdataView,
}

/// A message as plain values.
pub struct MessageView {
    pub header: Header,
    pub questions: Seq<QuestionView>,
    pub answers: Seq<RecordView>,
    pub authority: Seq<RecordView>,
    pub additional: Seq<RecordView>,
}

impl View for Question {
    type V = QuestionView;

    open spec fn view(&self) -> QuestionView {
        QuestionView { name: self.name@, qtype: self.qtype, qclass: self.qclass }
    }
}

impl View for Rdata {
    type V = RdataView;

    open spec fn view(&self) -> RdataView {
        match self {
            Rdata::A(a) => RdataView::A(a@),
            Rdata::Aaaa(a) => RdataView::Aaaa(a@),
            Rdata::Cname(n) => RdataView::Cname(n@),
            Rdata::Mx { priority, exchange } => RdataView::Mx(*priority, exchange@),
            Rdata::Ns(n) => RdataView::Ns(n@),
            Rdata::Ptr(n) => RdataView::Ptr(n@),
            Rdata::Txt(parts) => RdataView::Txt(parts@.map_values(|x: Vec<u8>| x@)),
            Rdata::Soa { mname, rname, serial, refresh, retry, expire, minimum } => RdataView::Soa(
                mname@,
                rname@,
                *serial,
                *refresh,
                *retry,
                *expire,
                *minimum,
            ),
            Rdata::Unknown(b) => RdataView::Unknown(b@),
        }
    }
}

impl View for ResourceRecord {
    type V = RecordView;

    open spec fn view(&self) -> RecordView {
        RecordView { name: self.name@, rtype: self.rtype, class: self.class, ttl: self.ttl, rdata: self.rdata@ }
    }
}

/// The views of a list of records.
pub open spec fn records_view(v: Seq<ResourceRecord>) -> Seq<RecordView> {
    v.map_values(|r: ResourceRecord| r@)
}

impl View for Message {
    type V = MessageView;

    open spec fn view(&self) -> MessageView {
        MessageView {
            header: self.header,
            questions: self.questions@.map_values(|q: Question| q@),
            answers: records_view(self.answers@),
            authority: records_view(self.authority@),
            additional: records_view(self.additional@),
        }
    }
}

#[derive(Debug)]
pub enum DnsError {
    /// The buffer ends before the item at this offset.
    Short(usize),
    BadName(usize, String),
    UnknownType(u16),
    /// A label is not UTF-8.
    Utf8,
}

/// Big-endian bytes of a 16-bit value.
pub open spec fn be16(x: u16) -> Seq<u8> {
    seq![(x / 256) as u8, (x % 256) as u8]
}

/// Index of the first '.' at or after `i` (the length when there is none).
pub open spec fn dot_from(s: Seq<u8>, i: int) -> int
    decreases s.len() - i,
{
    if i >= s.len() {
        s.len() as int
    } else if s[i] == 0x2Eu8 {
        i
    } else {
        dot_from(s, i + 1)
    }
}

/// Wire labels of the dot-separated name `s[start..]`: each label is its
/// length (modulo 256) followed by its bytes; the empty text between two
/// dots is an empty label.
pub open spec fn labels_from(s: Seq<u8>, start: int) -> Seq<u8>
    decreases s.len() - start + 1,
{
    if start > s.len() || start < 0 {
        Seq::empty()
    } else {
        let j = dot_from(s, start);
        let head = seq![((j - start) % 256) as u8] + s.subrange(start, j);
        if start <= j < s.len() {
            head + labels_from(s, j + 1)
        } else {
            head
        }
    }
}

/// The query message: header (id, RD flag when recursion is asked,
/// one question), the name as labels with a root terminator, the type and
/// class IN.
pub open spec fn query_bytes(name: Seq<u8>, qtype: RecordType, id: u16, recurse: bool) -> Seq<u8> {
    be16(id) + be16(if recurse { 0x0100u16 } else { 0u16 }) + be16(1) + be16(0) + be16(0) + be16(0)
        + labels_from(name, 0) + seq![0u8] + be16(qtype.code()) + be16(1)
}

proof fn lemma_dot_from_bounds(s: Seq<u8>, i: int)
    requires
        0 <= i <= s.len(),
    ensures
        i <= dot_from(s, i) <= s.len(),
        dot_from(s, i) < s.len() ==> s[dot_from(s, i)] == 0x2Eu8,
    decreases s.len() - i,
{
    if i < s.len() && s[i] != 0x2Eu8 {
        lemma_dot_from_bounds(s, i + 1);
    }
}

fn push_be16(buf: &mut Vec<u8>, x: u16)
    ensures
        final(buf)@ == old(buf)@ + be16(x),
{
    buf.push((x / 256) as u8);
    buf.push((x % 256) as u8);
    assert(final(buf)@ =~= old(buf)@ + be16(x));
}

pub fn build_query(name: &str, qtype: RecordType, id: u16, recurse: bool) -> (buf: Vec<u8>)
    ensures
        buf@ == query_bytes(name.spec_bytes(), qtype, id, recurse),
{
    let buf = build_query_flags(name, qtype, id, if recurse { 0x0100 } else { 0x0000 });
    assert(buf@ =~= query_bytes(name.spec_bytes(), qtype, id, recurse));
    buf
}

/// The query for `name` and `qtype` with the given header flags (class IN,
/// one question).
pub open spec fn query_flags_bytes(name: Seq<u8>, qtype: RecordType, id: u16, flags: u16) -> Seq<u8> {
    be16(id) + be16(flags) + be16(1) + be16(0) + be16(0) + be16(0)
        + labels_from(name, 0) + seq![0u8] + be16(qtype.code()) + be16(1)
}

/// Builds a query with the given header flags (see `query_flags_bytes`).
pub fn build_query_flags(name: &str, qtype: RecordType, id: u16, flags: u16) -> (buf: Vec<u8>)
    ensures
        buf@ == query_flags_bytes(name.spec_bytes(), qtype, id, flags),
{
    let mut buf: Vec<u8> = Vec::new();
    push_be16(&mut buf, id);
    push_be16(&mut buf, flags);
    push_be16(&mut buf, 1);
    push_be16(&mut buf, 0);
    push_be16(&mut buf, 0);
    push_be16(&mut buf, 0);
    let ghost header = buf@;

    let bytes = name.as_bytes();
    let ghost s = bytes@;
    let n = bytes.len();
    let mut start: usize = 0;
    let mut done = false;
    while !done
        invariant
            s == bytes@,
            n == s.len(),
            start <= n,
            done ==> buf@ == header + labels_from(s, 0),
            !done ==> buf@ + labels_from(s, start as int) == header + labels_from(s, 0),
        decreases n - start + (if done { 0int } else { 1int }),
    {
        let mut j = start;
        while j < n && bytes[j] != 0x2Eu8
            invariant
                start <= j <= n,
                n == s.len(),
                s == bytes@,
                dot_from(s, j as int) == dot_from(s, start as int),
            decreases n - j,
        {
            j = j + 1;
        }
        proof {
            lemma_dot_from_bounds(s, start as int);
            assert(dot_from(s, start as int) == j);
        }
        let ghost before = buf@;
        buf.push(((j - start) % 256) as u8);
        let mut k = start;
        while k < j
            invariant
                start <= k <= j <= n,
                n == s.len(),
                s == bytes@,
                buf@ == before.push((((j - start) as int) % 256) as u8) + s.subrange(start as int, k as int),
            decreases j - k,
        {
            buf.push(bytes[k]);
            k = k + 1;
            assert(buf@ =~= before.push((((j - start) as int) % 256) as u8) + s.subrange(start as int, k as int));
        }
        let ghost head = seq![(((j - start) as int) % 256) as u8] + s.subrange(start as int, j as int);
        assert(buf@ =~= before + head);
        if j < n {
            assert(labels_from(s, start as int) == head + labels_from(s, j + 1));
            assert(buf@ + labels_from(s, (j + 1) as int) =~= before + labels_from(s, start as int));
            start = j + 1;
        } else {
            assert(labels_from(s, start as int) == head);
            done = true;
        }
    }
    buf.push(0u8);
    push_be16(&mut buf, qtype.to_u16());
    push_be16(&mut buf, 1);
    assert(buf@ =~= query_flags_bytes(name.spec_bytes(), qtype, id, flags));
    buf
}


/// Text of the error given for a name whose compression pointers loop.
pub open spec fn loop_text() -> Seq<char> {
    "compression pointer loop"@
}

/// How reading a message fails, as the contracts see it: the buffer ends
/// before an item at an offset, the compression pointers of the name at an
/// offset loop, a label is not UTF-8, or a slice would be taken out of
/// range (a record whose SOA names run past its data).
pub enum ParseFault {
    Short(int),
    Loop(int),
    Utf8,
    OutOfRange,
}

/// A DNS error and a fault agree.
pub open spec fn error_is(e: DnsError, f: ParseFault) -> bool {
    match f {
        ParseFault::Short(q) => e matches DnsError::Short(p) && p == q,
        ParseFault::Loop(q) => e matches DnsError::BadName(p, m) && p == q && m@ == loop_text(),
        ParseFault::Utf8 => e is Utf8,
        ParseFault::OutOfRange => false,
    }
}

/// Big-endian 16-bit value at `p`.
pub open spec fn u16_at(buf: Seq<u8>, p: int) -> u16 {
    (buf[p] as int * 256 + buf[p + 1] as int) as u16
}

/// Big-endian 32-bit value at `p`.
pub open spec fn u32_at(buf: Seq<u8>, p: int) -> u32 {
    (((buf[p] as int * 256 + buf[p + 1] as int) * 256 + buf[p + 2] as int) * 256 + buf[p + 3] as int) as u32
}

/// The labels of the name at `pos`, following compression pointers, with at
/// most `fuel` bytes read. A length byte of 0 ends the name; one of 192 or
/// more starts a two-byte pointer to `(len % 64) * 256 + next`; any other
/// is a label of that many bytes, which must be UTF-8. Running out of fuel
/// gives `Loop` (its offset is filled in by `name_text`).
pub open spec fn name_walk(buf: Seq<u8>, pos: int, fuel: nat) -> Result<Seq<Seq<char>>, ParseFault>
    decreases fuel,
{
    if fuel == 0 {
        Err(ParseFault::Loop(pos))
    } else if pos < 0 || pos >= buf.len() {
        Err(ParseFault::Short(pos))
    } else if buf[pos] == 0 {
        Ok(Seq::empty())
    } else if buf[pos] >= 192 {
        if pos + 1 >= buf.len() {
            Err(ParseFault::Short(pos))
        } else {
            name_walk(buf, (buf[pos] as int % 64) * 256 + buf[pos + 1] as int, (fuel - 1) as nat)
        }
    } else {
        let len = buf[pos] as int;
        if pos + 1 + len > buf.len() {
            Err(ParseFault::Short(pos + 1))
        } else {
            let label = buf.subrange(pos + 1, pos + 1 + len);
            if !valid_utf8(label) {
                Err(ParseFault::Utf8)
            } else {
                match name_walk(buf, pos + 1 + len, (fuel - 1) as nat) {
                    Ok(ls) => Ok(seq![decode_utf8(label)] + ls),
                    Err(e) => Err(e),
                }
            }
        }
    }
}

/// Where the walk of a name goes from `pos` in one step, when it neither
/// ends nor fails there: past a label, or to the target of a pointer.
pub open spec fn walk_next(buf: Seq<u8>, pos: int) -> Option<int> {
    if pos < 0 || pos >= buf.len() || buf[pos] == 0 {
        None
    } else if buf[pos] >= 192 {
        if pos + 1 >= buf.len() {
            None
        } else {
            Some((buf[pos] as int % 64) * 256 + buf[pos + 1] as int)
        }
    } else {
        let len = buf[pos] as int;
        if pos + 1 + len > buf.len() || !valid_utf8(buf.subrange(pos + 1, pos + 1 + len)) {
            None
        } else {
            Some(pos + 1 + len)
        }
    }
}

/// Where the walk from `pos` stands after `k` steps, when it goes on that far.
pub open spec fn walk_at(buf: Seq<u8>, pos: int, k: nat) -> Option<int>
    decreases k,
{
    if k == 0 {
        Some(pos)
    } else {
        match walk_next(buf, pos) {
            Some(n) => walk_at(buf, n, (k - 1) as nat),
            None => None,
        }
    }
}

/// Running out of fuel is going on for that many steps.
proof fn lemma_loop_is_long_walk(buf: Seq<u8>, pos: int, fuel: nat)
    ensures
        (name_walk(buf, pos, fuel) matches Err(ParseFault::Loop(_))) <==> walk_at(buf, pos, fuel) is Some,
    decreases fuel,
{
    if fuel > 0 {
        match walk_next(buf, pos) {
            Some(n) => {
                lemma_loop_is_long_walk(buf, n, (fuel - 1) as nat);
            },
            None => {},
        }
    }
}

proof fn lemma_walk_compose(buf: Seq<u8>, q: int, a: nat, b: nat)
    ensures
        walk_at(buf, q, a + b) == match walk_at(buf, q, a) {
            Some(p) => walk_at(buf, p, b),
            None => None,
        },
    decreases a,
{
    if a > 0 {
        match walk_next(buf, q) {
            Some(n) => {
                lemma_walk_compose(buf, n, (a - 1) as nat, b);
                assert((a - 1) as nat + b == (a + b - 1) as nat);
            },
            None => {},
        }
    }
}

/// A walk that goes `k` steps goes every shorter number of steps, and
/// stands inside the buffer before each step it takes.
proof fn lemma_walk_prefix(buf: Seq<u8>, pos: int, k: nat, m: nat)
    requires
        m <= k,
        walk_at(buf, pos, k) is Some,
    ensures
        walk_at(buf, pos, m) is Some,
        m < k ==> 0 <= walk_at(buf, pos, m)->Some_0 < buf.len(),
{
    lemma_walk_compose(buf, pos, m, (k - m) as nat);
    assert(m + (k - m) as nat == k);
    if m < k {
        let p = walk_at(buf, pos, m)->Some_0;
        assert(walk_at(buf, p, (k - m) as nat) is Some);
    }
}

proof fn lemma_walk_cycle(buf: Seq<u8>, p: int, d: nat, n: nat)
    requires
        walk_at(buf, p, d) == Some(p),
    ensures
        walk_at(buf, p, n * d) == Some(p),
    decreases n,
{
    if n > 0 {
        let m: nat = ((n - 1) as nat * d) as nat;
        lemma_walk_cycle(buf, p, d, (n - 1) as nat);
        lemma_walk_compose(buf, p, m, d);
        assert(m + d == n * d) by (nonlinear_arith)
            requires n > 0, m == (n - 1) as nat * d;
        assert(walk_at(buf, p, m + d) == Some(p));
    } else {
        assert(n * d == 0) by (nonlinear_arith)
            requires n == 0;
    }
}

/// A name whose walk is not over after `buf.len() + 1` steps never ends:
/// such a walk visits some offset twice and from there goes round
/// forever, so no amount of steps reads it. The `Loop` fault stands for
/// exactly these names.
pub proof fn lemma_walk_loops_forever(buf: Seq<u8>, pos: int, fuel: nat)
    requires
        name_walk(buf, pos, (buf.len() + 1) as nat) matches Err(ParseFault::Loop(_)),
    ensures
        name_walk(buf, pos, fuel) matches Err(ParseFault::Loop(_)),
{
    let len = buf.len();
    let k = (len + 1) as nat;
    lemma_loop_is_long_walk(buf, pos, k);
    let ps = Seq::new(k, |i: int| walk_at(buf, pos, i as nat)->Some_0);
    assert forall|i: int| 0 <= i < k implies set_int_range(0, len as int).contains(#[trigger] ps[i]) by {
        lemma_walk_prefix(buf, pos, k, i as nat);
    }
    let (i, j) = if ps.no_duplicates() {
        ps.unique_seq_to_set();
        lemma_int_range(0, len as int);
        assert(ps.to_set().subset_of(set_int_range(0, len as int))) by {
            assert forall|x: int| ps.to_set().contains(x) implies set_int_range(0, len as int).contains(x) by {
                let w = choose|w: int| 0 <= w < ps.len() && ps[w] == x;
                assert(set_int_range(0, len as int).contains(ps[w]));
            }
        }
        lemma_len_subset(ps.to_set(), set_int_range(0, len as int));
        assert(false);
        (0int, 0int)
    } else {
        let (a, b) = choose|a: int, b: int| 0 <= a < ps.len() && 0 <= b < ps.len() && a != b && ps[a] == ps[b];
        if a < b { (a, b) } else { (b, a) }
    };
    assert(0 <= i < j < k && ps[i] == ps[j]);
    let pi = ps[i];
    let d = (j - i) as nat;
    lemma_walk_prefix(buf, pos, k, i as nat);
    lemma_walk_prefix(buf, pos, k, j as nat);
    lemma_walk_compose(buf, pos, i as nat, d);
    assert(i as nat + d == j as nat);
    assert(walk_at(buf, pi, d) == Some(pi));
    if fuel <= i {
        lemma_walk_prefix(buf, pos, k, fuel);
    } else {
        let rest = (fuel - i) as nat;
        let n = rest / d;
        let r = rest % d;
        assert(rest == n * d + r) by (nonlinear_arith)
            requires d > 0, n == rest / d, r == rest % d;
        assert(r < d) by (nonlinear_arith)
            requires d > 0, r == rest % d;
        lemma_walk_cycle(buf, pi, d, n);
        lemma_walk_compose(buf, pos, i as nat, rest);
        lemma_walk_compose(buf, pi, n * d, r);
        lemma_walk_prefix(buf, pos, k, (i + r) as nat);
        lemma_walk_compose(buf, pos, i as nat, r);
        assert(i as nat + rest == fuel);
        assert(walk_at(buf, pos, fuel) is Some);
    }
    lemma_loop_is_long_walk(buf, pos, fuel);
}

/// Where the name written at `pos` ends in place: after its terminating
/// zero byte or after its first compression pointer.
pub open spec fn name_end(buf: Seq<u8>, pos: int) -> int
    decreases buf.len() - pos,
{
    if pos < 0 || pos >= buf.len() {
        pos
    } else if buf[pos] == 0 {
        pos + 1
    } else if buf[pos] >= 192 {
        pos + 2
    } else {
        let next = pos + 1 + buf[pos] as int;
        if next >= buf.len() {
            next
        } else {
            name_end(buf, next)
        }
    }
}

/// Labels joined by dots.
pub open spec fn join_dot(ls: Seq<Seq<char>>) -> Seq<char>
    decreases ls.len(),
{
    if ls.len() == 0 {
        Seq::empty()
    } else if ls.len() == 1 {
        ls[0]
    } else {
        join_dot(ls.drop_last()) + "."@ + ls.last()
    }
}

/// The text of a name: its labels joined by dots, or "." for the root.
pub open spec fn dotted(ls: Seq<Seq<char>>) -> Seq<char> {
    if ls.len() == 0 {
        "."@
    } else {
        join_dot(ls)
    }
}

/// The name at `start` and the offset just past it. Every name that can be
/// read is read within `buf.len() + 1` steps; a walk that is not done by
/// then revisits an offset and never ends.
pub open spec fn name_text(buf: Seq<u8>, start: int) -> Result<(Seq<char>, int), ParseFault> {
    match name_walk(buf, start, (buf.len() + 1) as nat) {
        Ok(ls) => Ok((dotted(ls), name_end(buf, start))),
        Err(ParseFault::Loop(_)) => Err(ParseFault::Loop(start)),
        Err(e) => Err(e),
    }
}

/// The labels read so far in front of the rest of the walk.
pub open spec fn prepend(ls: Seq<Seq<char>>, r: Result<Seq<Seq<char>>, ParseFault>) -> Result<Seq<Seq<char>>, ParseFault> {
    match r {
        Ok(rest) => Ok(ls + rest),
        Err(e) => Err(e),
    }
}

proof fn lemma_join_dot_push(ls: Seq<Seq<char>>, l: Seq<char>)
    ensures
        join_dot(ls.push(l)) == join_dot(ls) + (if ls.len() > 0 { "."@ } else { Seq::<char>::empty() }) + l,
{
    assert(ls.push(l).drop_last() =~= ls);
    if ls.len() == 0 {
        assert(join_dot(ls.push(l)) == l);
        assert(join_dot(ls) + Seq::<char>::empty() + l =~= l);
    }
}

fn copy_bytes(buf: &[u8], lo: usize, hi: usize) -> (v: Vec<u8>)
    requires
        lo <= hi <= buf@.len(),
    ensures
        v@ == buf@.subrange(lo as int, hi as int),
{
    let mut v: Vec<u8> = Vec::new();
    let mut i = lo;
    while i < hi
        invariant
            lo <= i <= hi <= buf@.len(),
            v@ == buf@.subrange(lo as int, i as int),
        decreases hi - i,
    {
        v.push(buf[i]);
        i = i + 1;
    }
    v
}

/// Reads the name at `start` (see `name_text`): its text and the offset
/// just past it in place.
pub fn parse_name(buf: &[u8], start: usize) -> (r: Result<(String, usize), DnsError>)
    ensures
        match (r, name_text(buf@, start as int)) {
            (Ok((s, e)), Ok((t, f))) => s@ == t && e == f,
            (Err(x), Err(y)) => error_is(x, y),
            _ => false,
        },
{
    let n = buf.len();
    let mut text = String::new();
    let mut any = false;
    let ghost mut ls: Seq<Seq<char>> = Seq::empty();
    let mut pos = start;
    let mut end_pos = start;
    let mut jumped = false;
    let mut fuel: usize = n;
    assert(ls + name_walk(buf@, start as int, (n + 1) as nat)->Ok_0 =~= name_walk(buf@, start as int, (n + 1) as nat)->Ok_0);
    loop
        invariant
            n == buf@.len(),
            fuel <= n,
            any == (ls.len() > 0),
            text@ == join_dot(ls),
            name_walk(buf@, start as int, (n + 1) as nat) == prepend(ls, name_walk(buf@, pos as int, (fuel + 1) as nat)),
            !jumped ==> name_end(buf@, pos as int) == name_end(buf@, start as int),
            jumped ==> end_pos == name_end(buf@, start as int),
        decreases fuel,
    {
        if pos >= n {
            return Err(DnsError::Short(pos));
        }
        let len = buf[pos];
        if len == 0 {
            if !jumped {
                end_pos = pos + 1;
            }
            assert(ls + Seq::<Seq<char>>::empty() =~= ls);
            if any {
                return Ok((text, end_pos));
            } else {
                return Ok((String::from_str("."), end_pos));
            }
        }
        if len >= 192 {
            if pos + 1 >= n {
                return Err(DnsError::Short(pos));
            }
            let ptr: usize = ((len as usize) % 64) * 256 + buf[pos + 1] as usize;
            if !jumped {
                end_pos = pos + 2;
            }
            jumped = true;
            if fuel == 0 {
                assert(name_walk(buf@, ptr as int, 0) is Err);
                return Err(DnsError::BadName(start, String::from_str("compression pointer loop")));
            }
            fuel = fuel - 1;
            pos = ptr;
        } else {
            let l = len as usize;
            if l > n - pos - 1 {
                return Err(DnsError::Short(pos + 1));
            }
            let bytes = copy_bytes(buf, pos + 1, pos + 1 + l);
            match utf8_text(bytes.as_slice()) {
                None => {
                    return Err(DnsError::Utf8);
                },
                Some(label) => {
                    proof { lemma_join_dot_push(ls, label@); }
                    if any {
                        push_str(&mut text, ".");
                    }
                    push_str(&mut text, label.as_str());
                    any = true;
                    proof {
                        let rest = name_walk(buf@, pos + 1 + l, fuel as nat);
                        if rest is Ok {
                            assert(ls + (seq![label@] + rest->Ok_0) =~= ls.push(label@) + rest->Ok_0);
                        }
                        ls = ls.push(label@);
                    }
                },
            }
            if fuel == 0 {
                assert(name_walk(buf@, pos + 1 + l, 0) is Err);
                return Err(DnsError::BadName(start, String::from_str("compression pointer loop")));
            }
            fuel = fuel - 1;
            pos = pos + 1 + l;
        }
    }
}

/// The character-strings of TXT data from `i` on: each is a length byte
/// and that many bytes; one that runs past the end ends the list.
pub open spec fn txt_strings(rd: Seq<u8>, i: int) -> Seq<Seq<u8>>
    decreases rd.len() - i,
{
    if i < 0 || i >= rd.len() {
        Seq::empty()
    } else {
        let j = i + 1;
        let slen = rd[i] as int;
        if j + slen > rd.len() {
            Seq::empty()
        } else {
            seq![rd.subrange(j, j + slen)] + txt_strings(rd, j + slen)
        }
    }
}

/// TXT data written from `ss`: each string as its length byte and its bytes.
pub open spec fn txt_wire(ss: Seq<Seq<u8>>) -> Seq<u8>
    decreases ss.len(),
{
    if ss.len() == 0 {
        Seq::empty()
    } else {
        seq![ss[0].len() as u8] + ss[0] + txt_wire(ss.drop_first())
    }
}

proof fn lemma_txt_read_back_from(p: Seq<u8>, ss: Seq<Seq<u8>>)
    requires
        forall|k: int| 0 <= k < ss.len() ==> #[trigger] ss[k].len() < 256,
    ensures
        txt_strings(p + txt_wire(ss), p.len() as int) == ss,
    decreases ss.len(),
{
    let w = p + txt_wire(ss);
    if ss.len() == 0 {
        assert(w =~= p);
        assert(ss =~= Seq::<Seq<u8>>::empty());
    } else {
        let s0 = ss[0];
        assert(s0.len() < 256);
        let rest = ss.drop_first();
        assert forall|k: int| 0 <= k < rest.len() implies #[trigger] rest[k].len() < 256 by {
            assert(rest[k] == ss[k + 1]);
        }
        let p2 = p + seq![s0.len() as u8] + s0;
        assert(w =~= p2 + txt_wire(rest));
        let i = p.len() as int;
        assert(w[i] == s0.len() as u8);
        assert((s0.len() as u8) as int == s0.len());
        assert(w.subrange(i + 1, i + 1 + s0.len()) =~= s0);
        lemma_txt_read_back_from(p2, rest);
        assert(p2.len() == i + 1 + s0.len());
        assert(ss =~= seq![s0] + rest);
    }
}

/// TXT data read back from its own wire form gives every string, in order:
/// for strings shorter than 256 bytes each, reading the length-prefixed
/// concatenation returns exactly those strings.
pub proof fn lemma_txt_read_back(ss: Seq<Seq<u8>>)
    requires
        forall|k: int| 0 <= k < ss.len() ==> #[trigger] ss[k].len() < 256,
    ensures
        txt_strings(txt_wire(ss), 0) == ss,
{
    lemma_txt_read_back_from(Seq::empty(), ss);
    assert(Seq::<u8>::empty() + txt_wire(ss) =~= txt_wire(ss));
}

/// A name read at `p`, kept as its text alone.
pub open spec fn name_only(buf: Seq<u8>, p: int) -> Result<Seq<char>, ParseFault> {
    match name_text(buf, p) {
        Ok((t, _)) => Ok(t),
        Err(e) => Err(e),
    }
}

/// The data of a record of type `rtype` held in `buf[off..off + rdlen]`.
/// Names inside it are read from the whole message (they may point
/// anywhere); TXT strings stay inside the data.
pub open spec fn rdata_spec(buf: Seq<u8>, off: int, rdlen: int, rtype: RecordType) -> Result<RdataView, ParseFault> {
    let rd = buf.subrange(off, off + rdlen);
    match rtype {
        RecordType::A => if rdlen < 4 {
            Err(ParseFault::Short(off))
        } else {
            Ok(RdataView::A(rd.subrange(0, 4)))
        },
        RecordType::Aaaa => if rdlen < 16 {
            Err(ParseFault::Short(off))
        } else {
            Ok(RdataView::Aaaa(rd.subrange(0, 16)))
        },
        RecordType::Cname => match name_only(buf, off) {
            Ok(t) => Ok(RdataView::Cname(t)),
            Err(e) => Err(e),
        },
        RecordType::Ns => match name_only(buf, off) {
            Ok(t) => Ok(RdataView::Ns(t)),
            Err(e) => Err(e),
        },
        RecordType::Ptr => match name_only(buf, off) {
            Ok(t) => Ok(RdataView::Ptr(t)),
            Err(e) => Err(e),
        },
        RecordType::Mx => if rdlen < 2 {
            Err(ParseFault::Short(off))
        } else {
            match name_only(buf, off + 2) {
                Ok(t) => Ok(RdataView::Mx(u16_at(buf, off), t)),
                Err(e) => Err(e),
            }
        },
        RecordType::Txt => Ok(RdataView::Txt(txt_strings(rd, 0))),
        RecordType::Soa => match name_text(buf, off) {
            Err(e) => Err(e),
            Ok((m, p1)) => match name_text(buf, p1) {
                Err(e) => Err(e),
                Ok((r, p2)) => if p2 > off + rdlen {
                    Err(ParseFault::OutOfRange)
                } else if off + rdlen - p2 < 20 {
                    Err(ParseFault::Short(p2))
                } else {
                    Ok(RdataView::Soa(
                        m,
                        r,
                        u32_at(buf, p2),
                        u32_at(buf, p2 + 4),
                        u32_at(buf, p2 + 8),
                        u32_at(buf, p2 + 12),
                        u32_at(buf, p2 + 16),
                    ))
                },
            },
        },
        RecordType::Any => Ok(RdataView::Unknown(rd)),
    }
}

/// One question at `p` and the offset after it: its name, type (ANY when
/// unknown) and class.
pub open spec fn question_step(buf: Seq<u8>, p: int) -> Result<(QuestionView, int), ParseFault> {
    match name_text(buf, p) {
        Err(e) => Err(e),
        Ok((nm, e)) => if e + 4 > buf.len() {
            Err(ParseFault::Short(e))
        } else {
            let qtype = match record_type_of(u16_at(buf, e)) {
                Some(t) => t,
                None => RecordType::Any,
            };
            Ok((QuestionView { name: nm, qtype, qclass: u16_at(buf, e + 2) }, e + 4))
        },
    }
}

/// One resource record at `p` and the offset after it: name, type (A when
/// unknown), class, TTL, data length and data.
pub open spec fn record_step(buf: Seq<u8>, p: int) -> Result<(RecordView, int), ParseFault> {
    match name_text(buf, p) {
        Err(e) => Err(e),
        Ok((nm, e)) => if e + 10 > buf.len() {
            Err(ParseFault::Short(e))
        } else {
            let rtype = match record_type_of(u16_at(buf, e)) {
                Some(t) => t,
                None => RecordType::A,
            };
            let rdlen = u16_at(buf, e + 8) as int;
            let q = e + 10;
            if q + rdlen > buf.len() {
                Err(ParseFault::Short(q))
            } else {
                match rdata_spec(buf, q, rdlen, rtype) {
                    Err(x) => Err(x),
                    Ok(rd) => Ok((
                        RecordView { name: nm, rtype, class: u16_at(buf, e + 2), ttl: u32_at(buf, e + 4), rdata: rd },
                        q + rdlen,
                    )),
                }
            }
        },
    }
}

/// `count` questions from `pos` on, and the offset after them.
pub open spec fn questions_spec(buf: Seq<u8>, pos: int, count: nat) -> Result<(Seq<QuestionView>, int), ParseFault>
    decreases count,
{
    if count == 0 {
        Ok((Seq::empty(), pos))
    } else {
        match questions_spec(buf, pos, (count - 1) as nat) {
            Err(e) => Err(e),
            Ok((qs, p)) => match question_step(buf, p) {
                Err(e) => Err(e),
                Ok((q, e)) => Ok((qs.push(q), e)),
            },
        }
    }
}

/// `count` records from `pos` on, and the offset after them.
pub open spec fn records_spec(buf: Seq<u8>, pos: int, count: nat) -> Result<(Seq<RecordView>, int), ParseFault>
    decreases count,
{
    if count == 0 {
        Ok((Seq::empty(), pos))
    } else {
        match records_spec(buf, pos, (count - 1) as nat) {
            Err(e) => Err(e),
            Ok((rs, p)) => match record_step(buf, p) {
                Err(e) => Err(e),
                Ok((r, e)) => Ok((rs.push(r), e)),
            },
        }
    }
}

/// The header in the first twelve bytes.
pub open spec fn header_spec(buf: Seq<u8>) -> Header {
    Header {
        id: u16_at(buf, 0),
        flags: u16_at(buf, 2),
        qd_count: u16_at(buf, 4),
        an_count: u16_at(buf, 6),
        ns_count: u16_at(buf, 8),
        ar_count: u16_at(buf, 10),
    }
}

/// The message in `buf`: the header, then as many questions, answers,
/// authority and additional records as it counts, each read after the
/// previous one; or why it cannot be read.
pub open spec fn message_spec(buf: Seq<u8>) -> Result<MessageView, ParseFault> {
    if buf.len() < 12 {
        Err(ParseFault::Short(0))
    } else {
        let h = header_spec(buf);
        match questions_spec(buf, 12, h.qd_count as nat) {
            Err(e) => Err(e),
            Ok((qs, p1)) => match records_spec(buf, p1, h.an_count as nat) {
                Err(e) => Err(e),
                Ok((an, p2)) => match records_spec(buf, p2, h.ns_count as nat) {
                    Err(e) => Err(e),
                    Ok((ns, p3)) => match records_spec(buf, p3, h.ar_count as nat) {
                        Err(e) => Err(e),
                        Ok((ar, _)) => Ok(MessageView { header: h, questions: qs, answers: an, authority: ns, additional: ar }),
                    },
                },
            },
        }
    }
}

/// The dot-separated pieces of `s[start..]`, as `labels_from` writes them.
pub open spec fn pieces_from(s: Seq<u8>, start: int) -> Seq<Seq<u8>>
    decreases s.len() - start + 1,
{
    if start > s.len() || start < 0 {
        Seq::empty()
    } else {
        let j = dot_from(s, start);
        if start <= j < s.len() {
            seq![s.subrange(start, j)] + pieces_from(s, j + 1)
        } else {
            seq![s.subrange(start, j)]
        }
    }
}

/// Every piece of `s[start..]` is 1 to 63 bytes of UTF-8.
pub open spec fn plain_from(s: Seq<u8>, start: int) -> bool
    decreases s.len() - start + 1,
{
    if start > s.len() || start < 0 {
        true
    } else {
        let j = dot_from(s, start);
        &&& 0 < j - start < 64
        &&& valid_utf8(s.subrange(start, j))
        &&& (start <= j < s.len() ==> plain_from(s, j + 1))
    }
}

/// A name that a query carries label by label: no empty piece (so no
/// leading, trailing or doubled dot), none longer than 63 bytes, each UTF-8.
pub open spec fn plain_name(s: Seq<u8>) -> bool {
    plain_from(s, 0)
}

/// The pieces decoded as text.
pub open spec fn decode_all(ps: Seq<Seq<u8>>) -> Seq<Seq<char>> {
    ps.map_values(|p: Seq<u8>| decode_utf8(p))
}

proof fn lemma_walk_labels(buf: Seq<u8>, base: int, s: Seq<u8>, start: int, fuel: nat)
    requires
        0 <= start <= s.len(),
        plain_from(s, start),
        0 <= base,
        base + labels_from(s, start).len() + 1 <= buf.len(),
        buf.subrange(base, base + labels_from(s, start).len() + 1) == labels_from(s, start).push(0u8),
        fuel >= labels_from(s, start).len() + 1,
    ensures
        name_walk(buf, base, fuel) == Ok::<Seq<Seq<char>>, ParseFault>(decode_all(pieces_from(s, start))),
        name_end(buf, base) == base + labels_from(s, start).len() + 1,
    decreases s.len() - start,
{
    lemma_dot_from_bounds(s, start);
    let j = dot_from(s, start);
    let len = j - start;
    let lab = labels_from(s, start);
    let piece = s.subrange(start, j);
    let head = seq![(len % 256) as u8] + piece;
    assert(buf.subrange(base, base + lab.len() + 1)[0] == buf[base]);
    assert(buf[base] == len);
    assert(buf.subrange(base + 1, base + 1 + len) =~= piece) by {
        assert forall|k: int| 0 <= k < len implies buf.subrange(base + 1, base + 1 + len)[k] == piece[k] by {
            assert(buf.subrange(base, base + lab.len() + 1)[1 + k] == lab.push(0u8)[1 + k]);
            assert(lab[1 + k] == head[1 + k]);
        }
    }
    if j < s.len() {
        let rest = labels_from(s, j + 1);
        assert(lab == head + rest);
        let base2 = base + 1 + len;
        assert(buf.subrange(base2, base2 + rest.len() + 1) =~= rest.push(0u8)) by {
            assert forall|k: int| 0 <= k < rest.len() + 1 implies buf.subrange(base2, base2 + rest.len() + 1)[k] == rest.push(0u8)[k] by {
                assert(buf.subrange(base, base + lab.len() + 1)[1 + len + k] == lab.push(0u8)[1 + len + k]);
            }
        }
        lemma_walk_labels(buf, base2, s, j + 1, (fuel - 1) as nat);
        assert(decode_all(pieces_from(s, start)) =~= seq![decode_utf8(piece)] + decode_all(pieces_from(s, j + 1)));
    } else {
        assert(lab == head);
        let end = base + 1 + len;
        assert(buf.subrange(base, base + lab.len() + 1)[1 + len] == buf[end]);
        assert(buf[end] == 0);
        assert(name_walk(buf, end, (fuel - 1) as nat) == Ok::<Seq<Seq<char>>, ParseFault>(Seq::empty()));
        assert(decode_all(pieces_from(s, start)) =~= seq![decode_utf8(piece)] + Seq::<Seq<char>>::empty());
        assert(name_end(buf, end) == end + 1);
    }
}

/// The message a query is read back as: the header that was written and
/// one question with the name's labels, the type and class IN.
pub open spec fn query_read_back(name: Seq<u8>, qtype: RecordType, id: u16, recurse: bool) -> MessageView {
    MessageView {
        header: Header {
            id,
            flags: if recurse { 0x0100u16 } else { 0u16 },
            qd_count: 1,
            an_count: 0,
            ns_count: 0,
            ar_count: 0,
        },
        questions: seq![QuestionView { name: dotted(decode_all(pieces_from(name, 0))), qtype, qclass: 1 }],
        answers: Seq::empty(),
        authority: Seq::empty(),
        additional: Seq::empty(),
    }
}

proof fn lemma_be16_at(buf: Seq<u8>, p: int, x: u16)
    requires
        0 <= p,
        p + 2 <= buf.len(),
        buf[p] == be16(x)[0],
        buf[p + 1] == be16(x)[1],
    ensures
        u16_at(buf, p) == x,
{
}

/// The header bytes of a query.
pub open spec fn query_header(id: u16, flags: u16) -> Seq<u8> {
    be16(id) + be16(flags) + be16(1) + be16(0) + be16(0) + be16(0)
}

proof fn lemma_query_parts(name: Seq<u8>, qtype: RecordType, id: u16, recurse: bool)
    ensures
        ({
            let buf = query_bytes(name, qtype, id, recurse);
            let lab = labels_from(name, 0);
            let e = 12 + lab.len() as int + 1;
            &&& buf.len() == e + 4
            &&& buf.subrange(0, 12) == query_header(id, if recurse { 0x0100u16 } else { 0u16 })
            &&& buf.subrange(12, e) == lab.push(0u8)
            &&& buf.subrange(e, e + 4) == be16(qtype.code()) + be16(1)
        }),
{
    let buf = query_bytes(name, qtype, id, recurse);
    let flags: u16 = if recurse { 0x0100u16 } else { 0u16 };
    let lab = labels_from(name, 0);
    let hdr = query_header(id, flags);
    let tail = be16(qtype.code()) + be16(1);
    assert(hdr.len() == 12);
    assert(buf =~= hdr + lab.push(0u8) + tail);
    let e = 12 + lab.len() as int + 1;
    assert(buf.subrange(0, 12) =~= hdr);
    assert(buf.subrange(12, e) =~= lab.push(0u8));
    assert(buf.subrange(e, e + 4) =~= tail);
}

proof fn lemma_header_read(buf: Seq<u8>, id: u16, flags: u16)
    requires
        buf.len() >= 12,
        buf.subrange(0, 12) == query_header(id, flags),
    ensures
        header_spec(buf) == (Header { id, flags, qd_count: 1, an_count: 0, ns_count: 0, ar_count: 0 }),
{
    let h = query_header(id, flags);
    assert forall|k: int| 0 <= k < 12 implies buf[k] == h[k] by {
        assert(buf.subrange(0, 12)[k] == buf[k]);
    }
    lemma_be16_at(buf, 0, id);
    lemma_be16_at(buf, 2, flags);
    lemma_be16_at(buf, 4, 1);
    lemma_be16_at(buf, 6, 0);
    lemma_be16_at(buf, 8, 0);
    lemma_be16_at(buf, 10, 0);
}

proof fn lemma_question_read(buf: Seq<u8>, name: Seq<u8>, qtype: RecordType)
    requires
        plain_name(name),
        buf.len() == 12 + labels_from(name, 0).len() + 1 + 4,
        buf.subrange(12, 12 + labels_from(name, 0).len() as int + 1) == labels_from(name, 0).push(0u8),
        buf.subrange(12 + labels_from(name, 0).len() as int + 1, buf.len() as int) == be16(qtype.code()) + be16(1),
    ensures
        questions_spec(buf, 12, 1) == Ok::<(Seq<QuestionView>, int), ParseFault>((
            seq![QuestionView { name: dotted(decode_all(pieces_from(name, 0))), qtype, qclass: 1 }],
            buf.len() as int,
        )),
{
    let e: int = 12 + labels_from(name, 0).len() as int + 1;
    lemma_walk_labels(buf, 12, name, 0, (buf.len() + 1) as nat);
    let tail = be16(qtype.code()) + be16(1);
    assert forall|k: int| 0 <= k < 4 implies buf[e + k] == tail[k] by {
        assert(buf.subrange(e, buf.len() as int)[k] == buf[e + k]);
    }
    assert(buf[e] == tail[0] && buf[e + 1] == tail[1] && buf[e + 2] == tail[2] && buf[e + 3] == tail[3]) by {
        assert(buf.subrange(e, buf.len() as int)[0] == buf[e]);
        assert(buf.subrange(e, buf.len() as int)[1] == buf[e + 1]);
        assert(buf.subrange(e, buf.len() as int)[2] == buf[e + 2]);
        assert(buf.subrange(e, buf.len() as int)[3] == buf[e + 3]);
    }
    assert(tail[0] == be16(qtype.code())[0] && tail[1] == be16(qtype.code())[1]);
    assert(tail[2] == be16(1)[0] && tail[3] == be16(1)[1]);
    lemma_be16_at(buf, e, qtype.code());
    lemma_be16_at(buf, e + 2, 1);
    lemma_record_type_code_roundtrip(qtype);
    let q = QuestionView { name: dotted(decode_all(pieces_from(name, 0))), qtype, qclass: 1 };
    assert(question_step(buf, 12) == Ok::<(QuestionView, int), ParseFault>((q, e + 4)));
    assert(questions_spec(buf, 12, 0) == Ok::<(Seq<QuestionView>, int), ParseFault>((Seq::empty(), 12)));
    assert(Seq::<QuestionView>::empty().push(q) =~= seq![q]);
}

/// What `build_query` writes, `parse_message` reads back: the id, the
/// recursion flag, one question with the labels of the name, its type and
/// class IN, and no records, for every name whose pieces are 1 to 63 bytes
/// of UTF-8.
pub proof fn lemma_query_read_back(name: Seq<u8>, qtype: RecordType, id: u16, recurse: bool)
    requires
        plain_name(name),
    ensures
        message_spec(query_bytes(name, qtype, id, recurse)) == Ok::<MessageView, ParseFault>(
            query_read_back(name, qtype, id, recurse),
        ),
{
    let buf = query_bytes(name, qtype, id, recurse);
    let flags: u16 = if recurse { 0x0100u16 } else { 0u16 };
    lemma_query_parts(name, qtype, id, recurse);
    lemma_header_read(buf, id, flags);
    lemma_question_read(buf, name, qtype);
    let n = buf.len() as int;
    assert(records_spec(buf, n, 0) == Ok::<(Seq<RecordView>, int), ParseFault>((Seq::empty(), n)));
}

proof fn lemma_encode_concat(a: Seq<char>, b: Seq<char>)
    ensures
        encode_utf8(a + b) == encode_utf8(a) + encode_utf8(b),
    decreases a.len(),
{
    if a.len() == 0 {
        assert(a + b =~= b);
    } else {
        assert((a + b).drop_first() =~= a.drop_first() + b);
        assert((a + b)[0] == a[0]);
        lemma_encode_concat(a.drop_first(), b);
    }
}

/// Decoding two valid byte strings in a row decodes each.
proof fn lemma_decode_concat(x: Seq<u8>, y: Seq<u8>)
    requires
        valid_utf8(x),
        valid_utf8(y),
    ensures
        valid_utf8(x + y),
        decode_utf8(x + y) == decode_utf8(x) + decode_utf8(y),
{
    let cx = decode_utf8(x);
    let cy = decode_utf8(y);
    decode_utf8_encode_utf8(x);
    decode_utf8_encode_utf8(y);
    lemma_encode_concat(cx, cy);
    encode_utf8_valid_utf8(cx + cy);
    encode_utf8_decode_utf8(cx + cy);
}

proof fn lemma_dot_byte()
    ensures
        valid_utf8(seq![0x2Eu8]),
        decode_utf8(seq![0x2Eu8]) == seq!['.'],
{
    let d = seq!['.'];
    assert(leading_byte_width_1(0x2Eu32) == 0x2Eu8) by (bit_vector);
    assert(encode_utf8(d.drop_first()) == Seq::<u8>::empty());
    assert(encode_utf8(d) =~= seq![0x2Eu8]);
    encode_utf8_valid_utf8(d);
    encode_utf8_decode_utf8(d);
}

proof fn lemma_join_dot_front(x: Seq<char>, rest: Seq<Seq<char>>)
    requires
        rest.len() > 0,
    ensures
        join_dot(seq![x] + rest) == x + "."@ + join_dot(rest),
    decreases rest.len(),
{
    let all = seq![x] + rest;
    if rest.len() == 1 {
        assert(all.drop_last() =~= seq![x]);
        assert(join_dot(seq![x]) == x);
    } else {
        assert(all.drop_last() =~= seq![x] + rest.drop_last());
        lemma_join_dot_front(x, rest.drop_last());
        assert(all.last() == rest.last());
    }
}

/// The bytes of `s[start..]` are valid UTF-8 and decode to the decoded
/// pieces joined by dots.
proof fn lemma_pieces_decode(s: Seq<u8>, start: int)
    requires
        0 <= start <= s.len(),
        plain_from(s, start),
    ensures
        valid_utf8(s.subrange(start, s.len() as int)),
        decode_utf8(s.subrange(start, s.len() as int)) == join_dot(decode_all(pieces_from(s, start))),
        pieces_from(s, start).len() > 0,
    decreases s.len() - start,
{
    lemma_dot_from_bounds(s, start);
    let j = dot_from(s, start);
    let piece = s.subrange(start, j);
    if j < s.len() {
        lemma_pieces_decode(s, j + 1);
        let rest = s.subrange(j + 1, s.len() as int);
        assert(s.subrange(start, s.len() as int) =~= piece + seq![0x2Eu8] + rest);
        lemma_dot_byte();
        lemma_decode_concat(piece, seq![0x2Eu8]);
        lemma_decode_concat(piece + seq![0x2Eu8], rest);
        assert(decode_all(pieces_from(s, start)) =~= seq![decode_utf8(piece)] + decode_all(pieces_from(s, j + 1)));
        lemma_join_dot_front(decode_utf8(piece), decode_all(pieces_from(s, j + 1)));
        reveal_strlit(".");
        assert(seq!['.'] =~= "."@);
    } else {
        assert(s.subrange(start, s.len() as int) =~= piece);
        assert(decode_all(pieces_from(s, start)) =~= seq![decode_utf8(piece)]);
    }
}

/// The labels of a name written as text read back as that text.
pub proof fn lemma_name_text_read_back(name: Seq<char>)
    requires
        plain_name(encode_utf8(name)),
    ensures
        dotted(decode_all(pieces_from(encode_utf8(name), 0))) == name,
{
    let b = encode_utf8(name);
    lemma_pieces_decode(b, 0);
    assert(b.subrange(0, b.len() as int) =~= b);
    encode_utf8_decode_utf8(name);
}

/// What `build_query` writes for a name given as text, `parse_message`
/// reads back with that text as the question's name, when every piece of
/// the name is 1 to 63 bytes.
pub proof fn lemma_query_text_read_back(name: &str, qtype: RecordType, id: u16, recurse: bool)
    requires
        plain_name(name.spec_bytes()),
    ensures
        message_spec(query_bytes(name.spec_bytes(), qtype, id, recurse)) matches Ok(m)
            && m == query_read_back(name.spec_bytes(), qtype, id, recurse)
            && m.questions[0].name == name@,
{
    lemma_query_read_back(name.spec_bytes(), qtype, id, recurse);
    lemma_name_text_read_back(name@);
}

/// A failed read: an error the reader reports, or an input on which a
/// slice would be taken out of range.
enum ReadFail {
    Dns(DnsError),
    OutOfRange,
}

spec fn fail_is(f: ReadFail, pf: ParseFault) -> bool {
    match f {
        ReadFail::Dns(e) => error_is(e, pf),
        ReadFail::OutOfRange => pf is OutOfRange,
    }
}

fn be16_at(buf: &[u8], p: usize) -> (r: u16)
    requires
        p + 1 < buf@.len(),
    ensures
        r == u16_at(buf@, p as int),
{
    (buf[p] as u16) * 256 + buf[p + 1] as u16
}

fn be32_at(buf: &[u8], p: usize) -> (r: u32)
    requires
        p + 3 < buf@.len(),
    ensures
        r == u32_at(buf@, p as int),
{
    (((buf[p] as u32) * 256 + buf[p + 1] as u32) * 256 + buf[p + 2] as u32) * 256 + buf[p + 3] as u32
}

/// A name's text alone, or the reason it cannot be read.
fn read_name_only(buf: &[u8], p: usize) -> (r: Result<String, ReadFail>)
    ensures
        match (r, name_only(buf@, p as int)) {
            (Ok(s), Ok(t)) => s@ == t,
            (Err(x), Err(y)) => fail_is(x, y),
            _ => false,
        },
{
    match parse_name(buf, p) {
        Ok((s, _)) => Ok(s),
        Err(e) => Err(ReadFail::Dns(e)),
    }
}

/// TXT character-strings of `buf[offset..offset + rdlen]`.
fn read_txt(buf: &[u8], offset: usize, rdlen: usize) -> (v: Vec<Vec<u8>>)
    requires
        offset + rdlen <= buf@.len(),
    ensures
        v@.map_values(|x: Vec<u8>| x@) == txt_strings(buf@.subrange(offset as int, offset + rdlen), 0),
{
    let ghost rd = buf@.subrange(offset as int, offset + rdlen);
    let mut strings: Vec<Vec<u8>> = Vec::new();
    let mut i: usize = 0;
    let mut done = false;
    let n = buf.len();
    assert(offset + rdlen <= n);
    let end = offset + rdlen;
    assert(strings@.map_values(|x: Vec<u8>| x@) + txt_strings(rd, 0) =~= txt_strings(rd, 0));
    while !done && i < rdlen
        invariant
            i <= rdlen,
            end == offset + rdlen,
            offset + rdlen <= buf@.len(),
            rd == buf@.subrange(offset as int, offset + rdlen),
            !done ==> strings@.map_values(|x: Vec<u8>| x@) + txt_strings(rd, i as int) == txt_strings(rd, 0),
            done ==> strings@.map_values(|x: Vec<u8>| x@) == txt_strings(rd, 0),
        decreases rdlen - i + (if done { 0int } else { 1int }),
    {
        let slen = buf[offset + i] as usize;
        let j = i + 1;
        if slen > rdlen - j {
            assert(txt_strings(rd, i as int) == Seq::<Seq<u8>>::empty());
            assert(strings@.map_values(|x: Vec<u8>| x@) + Seq::<Seq<u8>>::empty() =~= strings@.map_values(|x: Vec<u8>| x@));
            done = true;
        } else {
            let part = copy_bytes(buf, offset + j, offset + j + slen);
            let ghost before = strings@.map_values(|x: Vec<u8>| x@);
            assert(part@ == rd.subrange(j as int, j + slen));
            strings.push(part);
            assert(strings@.map_values(|x: Vec<u8>| x@) =~= before.push(part@));
            assert(txt_strings(rd, i as int) == seq![part@] + txt_strings(rd, j + slen));
            assert(before.push(part@) + txt_strings(rd, (j + slen) as int) =~= before + (seq![part@] + txt_strings(rd, (j + slen) as int)));
            i = j + slen;
        }
    }
    if !done {
        assert(txt_strings(rd, i as int) == Seq::<Seq<u8>>::empty());
        assert(strings@.map_values(|x: Vec<u8>| x@) + Seq::<Seq<u8>>::empty() =~= strings@.map_values(|x: Vec<u8>| x@));
    }
    strings
}

fn parse_rdata(buf: &[u8], offset: usize, rdlen: usize, rtype: RecordType) -> (r: Result<Rdata, ReadFail>)
    requires
        offset + rdlen <= buf@.len(),
    ensures
        match (r, rdata_spec(buf@, offset as int, rdlen as int, rtype)) {
            (Ok(x), Ok(y)) => x@ == y,
            (Err(x), Err(y)) => fail_is(x, y),
            _ => false,
        },
{
    let ghost rd = buf@.subrange(offset as int, offset + rdlen);
    let n = buf.len();
    assert(offset + rdlen <= n);
    match rtype {
        RecordType::A => {
            if rdlen < 4 {
                return Err(ReadFail::Dns(DnsError::Short(offset)));
            }
            let a: [u8; 4] = [buf[offset], buf[offset + 1], buf[offset + 2], buf[offset + 3]];
            assert(a@ =~= rd.subrange(0, 4));
            Ok(Rdata::A(a))
        },
        RecordType::Aaaa => {
            if rdlen < 16 {
                return Err(ReadFail::Dns(DnsError::Short(offset)));
            }
            let o = offset;
            let a: [u8; 16] = [
                buf[o], buf[o + 1], buf[o + 2], buf[o + 3], buf[o + 4], buf[o + 5], buf[o + 6], buf[o + 7],
                buf[o + 8], buf[o + 9], buf[o + 10], buf[o + 11], buf[o + 12], buf[o + 13], buf[o + 14], buf[o + 15],
            ];
            assert(a@ =~= rd.subrange(0, 16));
            Ok(Rdata::Aaaa(a))
        },
        RecordType::Cname => match read_name_only(buf, offset) {
            Ok(t) => Ok(Rdata::Cname(t)),
            Err(e) => Err(e),
        },
        RecordType::Ns => match read_name_only(buf, offset) {
            Ok(t) => Ok(Rdata::Ns(t)),
            Err(e) => Err(e),
        },
        RecordType::Ptr => match read_name_only(buf, offset) {
            Ok(t) => Ok(Rdata::Ptr(t)),
            Err(e) => Err(e),
        },
        RecordType::Mx => {
            if rdlen < 2 {
                return Err(ReadFail::Dns(DnsError::Short(offset)));
            }
            let priority = be16_at(buf, offset);
            match read_name_only(buf, offset + 2) {
                Ok(t) => Ok(Rdata::Mx { priority, exchange: t }),
                Err(e) => Err(e),
            }
        },
        RecordType::Txt => {
            let parts = read_txt(buf, offset, rdlen);
            Ok(Rdata::Txt(parts))
        },
        RecordType::Soa => {
            let (mname, p1) = match parse_name(buf, offset) {
                Ok(x) => x,
                Err(e) => {
                    return Err(ReadFail::Dns(e));
                },
            };
            let (rname, p2) = match parse_name(buf, p1) {
                Ok(x) => x,
                Err(e) => {
                    return Err(ReadFail::Dns(e));
                },
            };
            let end = offset + rdlen;
            if p2 > end {
                return Err(ReadFail::OutOfRange);
            }
            if end - p2 < 20 {
                return Err(ReadFail::Dns(DnsError::Short(p2)));
            }
            let serial = be32_at(buf, p2);
            let refresh = be32_at(buf, p2 + 4);
            let retry = be32_at(buf, p2 + 8);
            let expire = be32_at(buf, p2 + 12);
            let minimum = be32_at(buf, p2 + 16);
            Ok(Rdata::Soa { mname, rname, serial, refresh, retry, expire, minimum })
        },
        RecordType::Any => {
            let b = copy_bytes(buf, offset, offset + rdlen);
            Ok(Rdata::Unknown(b))
        },
    }
}

fn parse_question(buf: &[u8], p: usize) -> (r: Result<(Question, usize), ReadFail>)
    ensures
        match (r, question_step(buf@, p as int)) {
            (Ok((q, e)), Ok((v, f))) => q@ == v && e == f,
            (Err(x), Err(y)) => fail_is(x, y),
            _ => false,
        },
{
    let n = buf.len();
    let (name, e) = match parse_name(buf, p) {
        Ok(x) => x,
        Err(err) => {
            return Err(ReadFail::Dns(err));
        },
    };
    if e > n || n - e < 4 {
        return Err(ReadFail::Dns(DnsError::Short(e)));
    }
    let raw = be16_at(buf, e);
    let qtype = match RecordType::from_u16(raw) {
        Some(t) => t,
        None => RecordType::Any,
    };
    let qclass = be16_at(buf, e + 2);
    Ok((Question { name, qtype, qclass }, e + 4))
}

fn parse_record(buf: &[u8], p: usize) -> (r: Result<(ResourceRecord, usize), ReadFail>)
    ensures
        match (r, record_step(buf@, p as int)) {
            (Ok((rr, e)), Ok((v, f))) => rr@ == v && e == f,
            (Err(x), Err(y)) => fail_is(x, y),
            _ => false,
        },
{
    let n = buf.len();
    let (name, e) = match parse_name(buf, p) {
        Ok(x) => x,
        Err(err) => {
            return Err(ReadFail::Dns(err));
        },
    };
    if e > n || n - e < 10 {
        return Err(ReadFail::Dns(DnsError::Short(e)));
    }
    let raw = be16_at(buf, e);
    let class = be16_at(buf, e + 2);
    let ttl = be32_at(buf, e + 4);
    let rdlen = be16_at(buf, e + 8) as usize;
    let q = e + 10;
    if rdlen > n - q {
        return Err(ReadFail::Dns(DnsError::Short(q)));
    }
    let rtype = match RecordType::from_u16(raw) {
        Some(t) => t,
        None => RecordType::A,
    };
    let rdata = match parse_rdata(buf, q, rdlen, rtype) {
        Ok(d) => d,
        Err(f) => {
            return Err(f);
        },
    };
    Ok((ResourceRecord { name, rtype, class, ttl, rdata }, q + rdlen))
}

/// A failed prefix of the questions fails the whole list the same way.
proof fn lemma_questions_err(buf: Seq<u8>, pos: int, k: nat, m: nat)
    requires
        k <= m,
        questions_spec(buf, pos, k) is Err,
    ensures
        questions_spec(buf, pos, m) == questions_spec(buf, pos, k),
    decreases m - k,
{
    if k < m {
        lemma_questions_err(buf, pos, k, (m - 1) as nat);
    }
}

/// A failed prefix of the records fails the whole list the same way.
proof fn lemma_records_err(buf: Seq<u8>, pos: int, k: nat, m: nat)
    requires
        k <= m,
        records_spec(buf, pos, k) is Err,
    ensures
        records_spec(buf, pos, m) == records_spec(buf, pos, k),
    decreases m - k,
{
    if k < m {
        lemma_records_err(buf, pos, k, (m - 1) as nat);
    }
}

fn parse_questions(buf: &[u8], pos: usize, count: u16) -> (r: Result<(Vec<Question>, usize), ReadFail>)
    ensures
        match (r, questions_spec(buf@, pos as int, count as nat)) {
            (Ok((v, e)), Ok((s, f))) => v@.map_values(|q: Question| q@) == s && e == f,
            (Err(x), Err(y)) => fail_is(x, y),
            _ => false,
        },
{
    let mut out: Vec<Question> = Vec::new();
    let mut p = pos;
    let mut k: u16 = 0;
    assert(out@.map_values(|q: Question| q@) =~= Seq::<QuestionView>::empty());
    while k < count
        invariant
            k <= count,
            questions_spec(buf@, pos as int, k as nat) == Ok::<(Seq<QuestionView>, int), ParseFault>((out@.map_values(|q: Question| q@), p as int)),
        decreases count - k,
    {
        let ghost before = out@.map_values(|q: Question| q@);
        match parse_question(buf, p) {
            Ok((q, e)) => {
                out.push(q);
                assert(out@.map_values(|q: Question| q@) =~= before.push(q@));
                p = e;
            },
            Err(f) => {
                proof { lemma_questions_err(buf@, pos as int, (k + 1) as nat, count as nat); }
                return Err(f);
            },
        }
        k = k + 1;
    }
    Ok((out, p))
}

fn parse_records(buf: &[u8], pos: usize, count: u16) -> (r: Result<(Vec<ResourceRecord>, usize), ReadFail>)
    ensures
        match (r, records_spec(buf@, pos as int, count as nat)) {
            (Ok((v, e)), Ok((s, f))) => records_view(v@) == s && e == f,
            (Err(x), Err(y)) => fail_is(x, y),
            _ => false,
        },
{
    let mut out: Vec<ResourceRecord> = Vec::new();
    let mut p = pos;
    let mut k: u16 = 0;
    assert(records_view(out@) =~= Seq::<RecordView>::empty());
    while k < count
        invariant
            k <= count,
            records_spec(buf@, pos as int, k as nat) == Ok::<(Seq<RecordView>, int), ParseFault>((records_view(out@), p as int)),
        decreases count - k,
    {
        let ghost before = records_view(out@);
        match parse_record(buf, p) {
            Ok((rr, e)) => {
                out.push(rr);
                assert(records_view(out@) =~= before.push(rr@));
                p = e;
            },
            Err(f) => {
                proof { lemma_records_err(buf@, pos as int, (k + 1) as nat, count as nat); }
                return Err(f);
            },
        }
        k = k + 1;
    }
    Ok((out, p))
}

fn read_message(buf: &[u8]) -> (r: Result<Message, ReadFail>)
    ensures
        match (r, message_spec(buf@)) {
            (Ok(m), Ok(v)) => m@ == v,
            (Err(x), Err(y)) => fail_is(x, y),
            _ => false,
        },
{
    if buf.len() < 12 {
        return Err(ReadFail::Dns(DnsError::Short(0)));
    }
    let header = Header {
        id: be16_at(buf, 0),
        flags: be16_at(buf, 2),
        qd_count: be16_at(buf, 4),
        an_count: be16_at(buf, 6),
        ns_count: be16_at(buf, 8),
        ar_count: be16_at(buf, 10),
    };
    let (questions, p1) = match parse_questions(buf, 12, header.qd_count) {
        Ok(x) => x,
        Err(f) => {
            return Err(f);
        },
    };
    let (answers, p2) = match parse_records(buf, p1, header.an_count) {
        Ok(x) => x,
        Err(f) => {
            return Err(f);
        },
    };
    let (authority, p3) = match parse_records(buf, p2, header.ns_count) {
        Ok(x) => x,
        Err(f) => {
            return Err(f);
        },
    };
    let (additional, _) = match parse_records(buf, p3, header.ar_count) {
        Ok(x) => x,
        Err(f) => {
            return Err(f);
        },
    };
    Ok(Message { header, questions, answers, authority, additional })
}

/// Whether `parse_message` would take a slice out of range on this buffer:
/// an SOA record whose two names end past its data. `parse_message` does
/// not accept such a buffer.
pub fn message_overruns(buf: &[u8]) -> (b: bool)
    ensures
        b == (message_spec(buf@) matches Err(ParseFault::OutOfRange)),
{
    match read_message(buf) {
        Ok(_) => false,
        Err(ReadFail::OutOfRange) => true,
        Err(ReadFail::Dns(_)) => false,
    }
}

/// Reads a DNS message (see `message_spec`): the message, or the error at
/// the first item that cannot be read.
pub fn parse_message(buf: &[u8]) -> (r: Result<Message, DnsError>)
    requires
        !(message_spec(buf@) matches Err(ParseFault::OutOfRange)),
    ensures
        match (r, message_spec(buf@)) {
            (Ok(m), Ok(v)) => m@ == v,
            (Err(x), Err(y)) => error_is(x, y),
            _ => false,
        },
{
    match read_message(buf) {
        Ok(m) => Ok(m),
        Err(ReadFail::Dns(e)) => Err(e),
        Err(ReadFail::OutOfRange) => {
            assert(false);
            Err(DnsError::Short(0))
        },
    }
}

} // verus!
