//! Presentation of DNS messages: the dig-style answer report and the
//! short form, plus the shared column and record-data helpers.

pub mod common;
pub mod format;
pub mod output;

use vstd::prelude::*;
use crate::dig::dns::{Header, Message, Question, QuestionView, Rdata, RdataView, RecordView, ResourceRecord};
use crate::ipv6::{ipv6_text, ipv6_to_string};
use crate::text::{dec, hex_bytes, hex_encode, lossy_text, push_str, push_u32, push_u64, utf8_lossy};

verus! {

/// Which parts of a message the report shows.
pub struct PrintOpts {
    pub short: bool,
    pub show_question: bool,
    pub show_answer: bool,
    pub show_authority: bool,
    pub show_additional: bool,
    pub show_stats: bool,
    pub show_comments: bool,
}

impl Default for PrintOpts {
    fn default() -> (o: Self)
        ensures
            !o.short,
            o.show_question,
            o.show_answer,
            o.show_authority,
            o.show_additional,
            o.show_stats,
            o.show_comments,
    {
        PrintOpts {
            short: false,
            show_question: true,
            show_answer: true,
            show_authority: true,
            show_additional: true,
            show_stats: true,
            show_comments: true,
        }
    }
}

/// Dotted-decimal text of four address bytes.
pub open spec fn ipv4_text(a: Seq<u8>) -> Seq<char> {
    dec(a[0] as nat) + "."@ + dec(a[1] as nat) + "."@ + dec(a[2] as nat) + "."@ + dec(a[3] as nat)
}

/// TXT strings, each in double quotes (invalid UTF-8 replaced), separated
/// by spaces.
pub open spec fn txt_quoted(parts: Seq<Seq<u8>>) -> Seq<char>
    decreases parts.len(),
{
    if parts.len() == 0 {
        Seq::empty()
    } else {
        let q = "\""@ + utf8_lossy(parts.last()) + "\""@;
        if parts.len() == 1 {
            q
        } else {
            txt_quoted(parts.drop_last()) + " "@ + q
        }
    }
}

/// The presentation text of record data.
pub open spec fn rdata_text(r: RdataView) -> Seq<char> {
    match r {
        RdataView::A(a) => ipv4_text(a),
        RdataView::Aaaa(a) => ipv6_text(a),
        RdataView::Cname(s) => s + "."@,
        RdataView::Ns(s) => s + "."@,
        RdataView::Ptr(s) => s + "."@,
        RdataView::Mx(p, e) => dec(p as nat) + " "@ + e + "."@,
        RdataView::Txt(parts) => txt_quoted(parts),
        RdataView::Soa(m, r, serial, refresh, retry, expire, minimum) => m + ". "@ + r + ". "@ + dec(serial as nat)
            + " "@ + dec(refresh as nat) + " "@ + dec(retry as nat) + " "@ + dec(expire as nat) + " "@ + dec(
            minimum as nat,
        ),
        RdataView::Unknown(b) => "\\# "@ + dec(b.len()) + " "@ + hex_bytes(b),
    }
}

fn push_ipv4(out: &mut String, a: &[u8; 4])
    ensures
        final(out)@ == old(out)@ + ipv4_text(a@),
{
    push_u32(out, a[0] as u32);
    push_str(out, ".");
    push_u32(out, a[1] as u32);
    push_str(out, ".");
    push_u32(out, a[2] as u32);
    push_str(out, ".");
    push_u32(out, a[3] as u32);
    assert(final(out)@ =~= old(out)@ + ipv4_text(a@));
}

fn push_txt(out: &mut String, parts: &Vec<Vec<u8>>)
    ensures
        final(out)@ == old(out)@ + txt_quoted(parts@.map_values(|x: Vec<u8>| x@)),
{
    let ghost start = out@;
    let ghost all = parts@.map_values(|x: Vec<u8>| x@);
    let mut i: usize = 0;
    assert(all.take(0) =~= Seq::<Seq<u8>>::empty());
    assert(out@ =~= start + txt_quoted(all.take(0)));
    while i < parts.len()
        invariant
            i <= parts@.len(),
            all == parts@.map_values(|x: Vec<u8>| x@),
            out@ == start + txt_quoted(all.take(i as int)),
        decreases parts@.len() - i,
    {
        assert(all.take(i + 1).drop_last() =~= all.take(i as int));
        assert(all.take(i + 1).last() == parts@[i as int]@);
        if i > 0 {
            push_str(out, " ");
        }
        push_str(out, "\"");
        let t = lossy_text(parts[i].as_slice());
        push_str(out, t.as_str());
        push_str(out, "\"");
        i = i + 1;
    }
    assert(all.take(parts@.len() as int) =~= all);
}

/// The presentation text of record data.
pub fn rdata_to_string(rdata: &Rdata) -> (s: String)
    ensures
        s@ == rdata_text(rdata@),
{
    let mut out = String::new();
    match rdata {
        Rdata::A(a) => push_ipv4(&mut out, a),
        Rdata::Aaaa(a) => {
            let t = ipv6_to_string(*a);
            push_str(&mut out, t.as_str());
        },
        Rdata::Cname(s) | Rdata::Ns(s) | Rdata::Ptr(s) => {
            push_str(&mut out, s.as_str());
            push_str(&mut out, ".");
        },
        Rdata::Mx { priority, exchange } => {
            push_u32(&mut out, *priority as u32);
            push_str(&mut out, " ");
            push_str(&mut out, exchange.as_str());
            push_str(&mut out, ".");
        },
        Rdata::Txt(parts) => push_txt(&mut out, parts),
        Rdata::Soa { mname, rname, serial, refresh, retry, expire, minimum } => {
            push_str(&mut out, mname.as_str());
            push_str(&mut out, ". ");
            push_str(&mut out, rname.as_str());
            push_str(&mut out, ". ");
            push_u32(&mut out, *serial);
            push_str(&mut out, " ");
            push_u32(&mut out, *refresh);
            push_str(&mut out, " ");
            push_u32(&mut out, *retry);
            push_str(&mut out, " ");
            push_u32(&mut out, *expire);
            push_str(&mut out, " ");
            push_u32(&mut out, *minimum);
        },
        Rdata::Unknown(b) => {
            push_str(&mut out, "\\# ");
            push_u64(&mut out, b.len() as u64);
            push_str(&mut out, " ");
            let h = hex_encode(b.as_slice());
            push_str(&mut out, h.as_str());
        },
    }
    assert(out@ =~= rdata_text(rdata@));
    out
}

/// The data of the records, one per line, with a final newline.
pub open spec fn short_lines(rs: Seq<RecordView>) -> Seq<char>
    decreases rs.len(),
{
    if rs.len() == 0 {
        Seq::empty()
    } else if rs.len() == 1 {
        rdata_text(rs[0].rdata)
    } else {
        short_lines(rs.drop_last()) + "\n"@ + rdata_text(rs.last().rdata)
    }
}

/// The short report: the data of each answer on a line of its own.
pub fn print_short(msg: &Message) -> (s: String)
    ensures
        s@ == short_lines(msg@.answers) + "\n"@,
{
    let mut out = String::new();
    let ghost all = msg@.answers;
    let mut i: usize = 0;
    assert(all.take(0) =~= Seq::<RecordView>::empty());
    while i < msg.answers.len()
        invariant
            i <= msg.answers@.len(),
            all == msg@.answers,
            all.len() == msg.answers@.len(),
            out@ == short_lines(all.take(i as int)),
        decreases msg.answers@.len() - i,
    {
        assert(all.take(i + 1).drop_last() =~= all.take(i as int));
        assert(all.take(i + 1).last() == msg.answers@[i as int]@);
        if i > 0 {
            push_str(&mut out, "\n");
        }
        let t = rdata_to_string(&msg.answers[i].rdata);
        push_str(&mut out, t.as_str());
        i = i + 1;
    }
    assert(all.take(msg.answers@.len() as int) =~= all);
    push_str(&mut out, "\n");
    out
}

/// The status word of a response code.
pub open spec fn rcode_text(rc: u16) -> Seq<char> {
    if rc == 0 {
        "NOERROR"@
    } else if rc == 1 {
        "FORMERR"@
    } else if rc == 2 {
        "SERVFAIL"@
    } else if rc == 3 {
        "NXDOMAIN"@
    } else {
        "UNKNOWN"@
    }
}

/// The status line: status word and id.
pub open spec fn status_line(h: Header) -> Seq<char> {
    ";; Got answer:\n;; ->>HEADER<<- opcode: QUERY, status: "@ + rcode_text(h.flags & 0x000F) + ", id: "@
        + dec(h.id as nat) + "\n"@
}

/// The flags (always "qr", then "rd" and "ra" when set).
pub open spec fn flags_text(h: Header) -> Seq<char> {
    "qr"@ + (if h.flags & 0x0100 != 0 { " rd"@ } else { Seq::empty() }) + (if h.flags & 0x0080 != 0 {
        " ra"@
    } else {
        Seq::empty()
    })
}

/// The counts line.
pub open spec fn counts_text(h: Header) -> Seq<char> {
    "; QUERY: "@ + dec(h.qd_count as nat) + ", ANSWER: "@ + dec(h.an_count as nat) + ", AUTHORITY: "@ + dec(
        h.ns_count as nat,
    ) + ", ADDITIONAL: "@ + dec(h.ar_count as nat) + "\n\n"@
}

/// The comment lines: status, id, flags and counts.
pub open spec fn comments_text(h: Header) -> Seq<char> {
    status_line(h) + ";; flags: "@ + flags_text(h) + counts_text(h)
}

/// The question lines.
pub open spec fn question_lines(qs: Seq<QuestionView>) -> Seq<char>
    decreases qs.len(),
{
    if qs.len() == 0 {
        Seq::empty()
    } else {
        question_lines(qs.drop_last()) + ";"@ + qs.last().name + ".\t\t\tIN\t"@ + qs.last().qtype.mnemonic() + "\n"@
    }
}

/// The line of one record: owner, TTL, class IN, type and data.
pub open spec fn record_line(r: RecordView) -> Seq<char> {
    r.name + ".\t\t"@ + dec(r.ttl as nat) + "\tIN\t"@ + r.rtype.mnemonic() + "\t"@ + rdata_text(r.rdata) + "\n"@
}

/// The lines of records.
pub open spec fn record_lines(rs: Seq<RecordView>) -> Seq<char>
    decreases rs.len(),
{
    if rs.len() == 0 {
        Seq::empty()
    } else {
        record_lines(rs.drop_last()) + record_line(rs.last())
    }
}

/// A record section when shown and not empty: its title, its lines and a
/// blank line.
pub open spec fn section_text(show: bool, title: Seq<char>, rs: Seq<RecordView>) -> Seq<char> {
    if show && rs.len() > 0 {
        ";; "@ + title + " SECTION:\n"@ + record_lines(rs) + "\n"@
    } else {
        Seq::empty()
    }
}

/// The statistics lines: the query time when known, then the server.
pub open spec fn stats_text(server: Seq<char>, query_time_ms: Option<u64>) -> Seq<char> {
    (match query_time_ms {
        Some(ms) => ";; Query time: "@ + dec(ms as nat) + " msec\n"@,
        None => Seq::empty(),
    }) + ";; SERVER: "@ + server + "#53("@ + server + ")\n"@
}

/// The comments and question parts of the report.
pub open spec fn head_text(msg: crate::dig::dns::MessageView, opts: PrintOpts) -> Seq<char> {
    (if opts.show_comments { comments_text(msg.header) } else { Seq::empty() }) + (if opts.show_question
        && msg.questions.len() > 0 {
        ";; QUESTION SECTION:\n"@ + question_lines(msg.questions) + "\n"@
    } else {
        Seq::empty()
    })
}

/// The three record sections of the report.
pub open spec fn sections_text(msg: crate::dig::dns::MessageView, opts: PrintOpts) -> Seq<char> {
    section_text(opts.show_answer, "ANSWER"@, msg.answers) + section_text(opts.show_authority, "AUTHORITY"@, msg.authority)
        + section_text(opts.show_additional, "ADDITIONAL"@, msg.additional)
}

/// The full report of a message (or the short form when asked for).
pub open spec fn message_text(
    msg: crate::dig::dns::MessageView,
    opts: PrintOpts,
    server: Seq<char>,
    query_time_ms: Option<u64>,
) -> Seq<char> {
    if opts.short {
        short_lines(msg.answers) + "\n"@
    } else {
        head_text(msg, opts) + sections_text(msg, opts) + (if opts.show_stats {
            stats_text(server, query_time_ms)
        } else {
            Seq::empty()
        })
    }
}

fn push_record_lines(out: &mut String, rs: &Vec<ResourceRecord>)
    ensures
        final(out)@ == old(out)@ + record_lines(crate::dig::dns::records_view(rs@)),
{
    let ghost start = out@;
    let ghost all = crate::dig::dns::records_view(rs@);
    let mut i: usize = 0;
    assert(all.take(0) =~= Seq::<RecordView>::empty());
    assert(out@ =~= start + record_lines(all.take(0)));
    while i < rs.len()
        invariant
            i <= rs@.len(),
            all == crate::dig::dns::records_view(rs@),
            all.len() == rs@.len(),
            out@ == start + record_lines(all.take(i as int)),
        decreases rs@.len() - i,
    {
        assert(all.take(i + 1).drop_last() =~= all.take(i as int));
        assert(all.take(i + 1).last() == rs@[i as int]@);
        let rr = &rs[i];
        let ghost before = out@;
        push_str(out, rr.name.as_str());
        push_str(out, ".\t\t");
        push_u32(out, rr.ttl);
        push_str(out, "\tIN\t");
        push_str(out, rr.rtype.as_str());
        push_str(out, "\t");
        let t = rdata_to_string(&rr.rdata);
        push_str(out, t.as_str());
        push_str(out, "\n");
        assert(out@ =~= before + record_line(rr@));
        i = i + 1;
    }
    assert(all.take(rs@.len() as int) =~= all);
}

fn push_section(out: &mut String, show: bool, title: &str, rs: &Vec<ResourceRecord>)
    ensures
        final(out)@ == old(out)@ + section_text(show, title@, crate::dig::dns::records_view(rs@)),
{
    if show && rs.len() > 0 {
        push_str(out, ";; ");
        push_str(out, title);
        push_str(out, " SECTION:\n");
        push_record_lines(out, rs);
        push_str(out, "\n");
    }
}

fn push_questions(out: &mut String, qs: &Vec<Question>)
    ensures
        final(out)@ == old(out)@ + question_lines(qs@.map_values(|q: Question| q@)),
{
    let ghost start = out@;
    let ghost all = qs@.map_values(|q: Question| q@);
    let mut i: usize = 0;
    assert(all.take(0) =~= Seq::<QuestionView>::empty());
    assert(out@ =~= start + question_lines(all.take(0)));
    while i < qs.len()
        invariant
            i <= qs@.len(),
            all == qs@.map_values(|q: Question| q@),
            all.len() == qs@.len(),
            out@ == start + question_lines(all.take(i as int)),
        decreases qs@.len() - i,
    {
        assert(all.take(i + 1).drop_last() =~= all.take(i as int));
        assert(all.take(i + 1).last() == qs@[i as int]@);
        let ghost before = out@;
        push_str(out, ";");
        push_str(out, qs[i].name.as_str());
        push_str(out, ".\t\t\tIN\t");
        push_str(out, qs[i].qtype.as_str());
        push_str(out, "\n");
        assert(out@ =~= before + ";"@ + qs@[i as int].name@ + ".\t\t\tIN\t"@ + qs@[i as int].qtype.mnemonic() + "\n"@);
        i = i + 1;
    }
    assert(all.take(qs@.len() as int) =~= all);
}

fn status_word(rc: u16) -> (w: &'static str)
    ensures
        w@ == rcode_text(rc),
{
    if rc == 0 {
        "NOERROR"
    } else if rc == 1 {
        "FORMERR"
    } else if rc == 2 {
        "SERVFAIL"
    } else if rc == 3 {
        "NXDOMAIN"
    } else {
        "UNKNOWN"
    }
}

fn push_status_line(out: &mut String, h: &Header)
    ensures
        final(out)@ == old(out)@ + status_line(*h),
{
    let status = status_word(h.flags & 0x000F);
    push_str(out, ";; Got answer:\n;; ->>HEADER<<- opcode: QUERY, status: ");
    push_str(out, status);
    push_str(out, ", id: ");
    push_u32(out, h.id as u32);
    push_str(out, "\n");
    assert(final(out)@ =~= old(out)@ + status_line(*h));
}

fn push_flags(out: &mut String, h: &Header)
    ensures
        final(out)@ == old(out)@ + flags_text(*h),
{
    push_str(out, "qr");
    if h.recursion_desired() {
        push_str(out, " rd");
    }
    if h.recursion_available() {
        push_str(out, " ra");
    }
    assert(final(out)@ =~= old(out)@ + flags_text(*h));
}

fn push_counts(out: &mut String, h: &Header)
    ensures
        final(out)@ == old(out)@ + counts_text(*h),
{
    push_str(out, "; QUERY: ");
    push_u32(out, h.qd_count as u32);
    push_str(out, ", ANSWER: ");
    push_u32(out, h.an_count as u32);
    push_str(out, ", AUTHORITY: ");
    push_u32(out, h.ns_count as u32);
    push_str(out, ", ADDITIONAL: ");
    push_u32(out, h.ar_count as u32);
    push_str(out, "\n\n");
    assert(final(out)@ =~= old(out)@ + counts_text(*h));
}

fn push_comments(out: &mut String, h: &Header)
    ensures
        final(out)@ == old(out)@ + comments_text(*h),
{
    push_status_line(out, h);
    push_str(out, ";; flags: ");
    push_flags(out, h);
    push_counts(out, h);
    assert(final(out)@ =~= old(out)@ + comments_text(*h));
}

fn push_head(out: &mut String, msg: &Message, opts: &PrintOpts)
    ensures
        final(out)@ == old(out)@ + head_text(msg@, *opts),
{
    let ghost o = out@;
    if opts.show_comments {
        push_comments(out, &msg.header);
    }
    let ghost o1 = out@;
    if opts.show_question && msg.questions.len() > 0 {
        push_str(out, ";; QUESTION SECTION:\n");
        push_questions(out, &msg.questions);
        push_str(out, "\n");
    }
    assert(out@ =~= o + head_text(msg@, *opts));
}

fn push_stats(out: &mut String, server: &str, query_time_ms: Option<u64>)
    ensures
        final(out)@ == old(out)@ + stats_text(server@, query_time_ms),
{
    let ghost o = out@;
    if let Some(ms) = query_time_ms {
        push_str(out, ";; Query time: ");
        push_u64(out, ms);
        push_str(out, " msec\n");
    }
    let ghost o1 = out@;
    push_str(out, ";; SERVER: ");
    push_str(out, server);
    push_str(out, "#53(");
    push_str(out, server);
    push_str(out, ")\n");
    assert(out@ =~= o + stats_text(server@, query_time_ms));
}

/// The dig-style report of a message: comments, question, answer,
/// authority and additional sections and statistics, each as the options
/// ask; the short form when `opts.short`.
pub fn print_message(msg: &Message, opts: &PrintOpts, server: &str, query_time_ms: Option<u64>) -> (s: String)
    ensures
        s@ == message_text(msg@, *opts, server@, query_time_ms),
{
    if opts.short {
        return print_short(msg);
    }
    let mut out = String::new();
    push_head(&mut out, msg, opts);
    let ghost b = out@;
    push_section(&mut out, opts.show_answer, "ANSWER", &msg.answers);
    push_section(&mut out, opts.show_authority, "AUTHORITY", &msg.authority);
    push_section(&mut out, opts.show_additional, "ADDITIONAL", &msg.additional);
    assert(out@ =~= b + sections_text(msg@, *opts));
    if opts.show_stats {
        push_stats(&mut out, server, query_time_ms);
    }
    assert(out@ =~= message_text(msg@, *opts, server@, query_time_ms));
    out
}

} // verus!
