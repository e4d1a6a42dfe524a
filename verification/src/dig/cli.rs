//! The command line of the DNS lookup tool: the server, the names and
//! types to ask for, and the `+` options that shape the query and the
//! report.

use vstd::prelude::*;
use vstd::string::*;
use crate::bgpq4::expander::texts;
use crate::dig::dns::{record_type_named, RecordType};
use crate::dig::printer::PrintOpts;
use crate::dig::query::{class_of, has_prefix, parse_class, ResolverConfig};
use crate::text::{
    chars_of, find_char, find_char_from, lemma_find_char_from, opt_text, parse_u16_spec, parse_u16_str,
    parse_u32_spec, parse_u32_str, parse_u64_spec, parse_u64_str, parse_u8_spec, parse_u8_str,
    push_str, str_eq, string_range, upper_string, uppercase_of,
};

verus! {

/// One query asked for: the name, its type and its class.
pub struct DigQuery {
    pub name: String,
    pub qtype: RecordType,
    pub class: u16,
}

/// What the command line asks for.
pub struct DigArgs {
    pub server: Option<String>,
    pub names: Vec<DigQuery>,
    pub reverse: Option<String>,
    pub port: u16,
    /// The query id; the default 0x1234 stands for "pick one".
    pub id: u16,
    /// Whether the query asks for recursion.
    pub recurse: bool,
    pub resolver: ResolverConfig,
    pub print_opts: PrintOpts,
    pub trace: bool,
    pub use_usec: bool,
    pub batch_file: Option<String>,
    pub class: u16,
    /// Header bits asked for besides RD (AA, TC, RA, Z, AD, CD).
    pub header_bits: u16,
}

/// `DigArgs` as plain values.
#[verifier::ext_equal]
pub struct DigView {
    pub server: Option<Seq<char>>,
    pub names: Seq<(Seq<char>, RecordType, u16)>,
    pub reverse: Option<Seq<char>>,
    pub port: u16,
    pub id: u16,
    pub recurse: bool,
    pub resolver: ResolverConfig,
    pub print: PrintOpts,
    pub trace: bool,
    pub use_usec: bool,
    pub batch: Option<Seq<char>>,
    pub class: u16,
    pub header_bits: u16,
}

pub open spec fn query_view(q: DigQuery) -> (Seq<char>, RecordType, u16) {
    (q.name@, q.qtype, q.class)
}

impl View for DigArgs {
    type V = DigView;

    open spec fn view(&self) -> DigView {
        DigView {
            server: opt_text(&self.server),
            names: self.names@.map_values(|q: DigQuery| query_view(q)),
            reverse: opt_text(&self.reverse),
            port: self.port,
            id: self.id,
            recurse: self.recurse,
            resolver: self.resolver,
            print: self.print_opts,
            trace: self.trace,
            use_usec: self.use_usec,
            batch: opt_text(&self.batch_file),
            class: self.class,
            header_bits: self.header_bits,
        }
    }
}

/// The settings before any argument.
pub open spec fn initial_view() -> DigView {
    DigView {
        server: None,
        names: Seq::empty(),
        reverse: None,
        port: 53,
        id: 0x1234,
        recurse: true,
        resolver: ResolverConfig { use_tcp: false, ignore_tc: false, timeout_secs: 5, tries: 3, retry: 0, udp_bufsize: 1232 },
        print: PrintOpts {
            short: false,
            show_question: true,
            show_answer: true,
            show_authority: true,
            show_additional: true,
            show_stats: true,
            show_comments: true,
        },
        trace: false,
        use_usec: false,
        batch: None,
        class: 1,
        header_bits: 0,
    }
}

/// How a command line ends when it asks for no lookup.
pub enum DigStop {
    Version,
    Help,
    Error(String),
}

pub enum DigStopView {
    Version,
    Help,
    Error(Seq<char>),
}

pub open spec fn stop_is(x: DigStop, y: DigStopView) -> bool {
    match y {
        DigStopView::Version => x is Version,
        DigStopView::Help => x is Help,
        DigStopView::Error(m) => x matches DigStop::Error(t) && t@ == m,
    }
}

/// The display switches of a `+` option: `short` and the sections, and
/// `all` for every section with the comments and statistics.
pub open spec fn display_set(p: PrintOpts, bare: Seq<char>, on: bool) -> Option<PrintOpts> {
    if bare == "short"@ {
        Some(PrintOpts { short: on, ..p })
    } else if bare == "comments"@ {
        Some(PrintOpts { show_comments: on, ..p })
    } else if bare == "question"@ {
        Some(PrintOpts { show_question: on, ..p })
    } else if bare == "answer"@ {
        Some(PrintOpts { show_answer: on, ..p })
    } else if bare == "authority"@ {
        Some(PrintOpts { show_authority: on, ..p })
    } else if bare == "additional"@ {
        Some(PrintOpts { show_additional: on, ..p })
    } else if bare == "stats"@ {
        Some(PrintOpts { show_stats: on, ..p })
    } else if bare == "all"@ {
        Some(PrintOpts {
            show_comments: on,
            show_question: on,
            show_answer: on,
            show_authority: on,
            show_additional: on,
            show_stats: on,
            ..p
        })
    } else {
        None
    }
}

/// `+` options that are accepted and change nothing this library acts on
/// (report details, header bits and EDNS settings it does not produce).
pub open spec fn ignored_option_a(b: Seq<char>) -> bool {
    b == "cmd"@ || b == "qr"@ || b == "identify"@ || b == "multiline"@ || b == "ttlid"@ || b == "ttl"@
        || b == "ttlunits"@ || b == "class"@ || b == "rrcomments"@ || b == "unknownformat"@
        || b == "yaml"@ || b == "dnssec"@ || b == "do"@ || b == "header-only"@ || b == "ednsflags"@ || b == "split"@
}

/// The query header bit a `+` option sets or clears: AA, TC, RA, Z, AD or
/// CD; 0 for any other option.
pub open spec fn header_bit(b: Seq<char>) -> u16 {
    if b == "aaflag"@ || b == "aaonly"@ {
        0x0400
    } else if b == "tcflag"@ {
        0x0200
    } else if b == "raflag"@ {
        0x0080
    } else if b == "zflag"@ {
        0x0040
    } else if b == "adflag"@ {
        0x0020
    } else if b == "cdflag"@ || b == "cd"@ {
        0x0010
    } else {
        0
    }
}

/// `+` options that are acknowledged and not implemented.
pub open spec fn ignored_option_b(b: Seq<char>) -> bool {
    b == "keepopen"@ || b == "keepalive"@ || b == "besteffort"@ || b == "fail"@ || b == "nssearch"@
        || b == "showsearch"@ || b == "search"@ || b == "defname"@ || b == "onesoa"@ || b == "nsid"@
        || b == "cookie"@ || b == "subnet"@ || b == "expire"@ || b == "padding"@
        || b == "ednsnegotiation"@ || b == "badcookie"@ || b == "showbadcookie"@
        || b == "showbadvers"@ || b == "showtruncated"@ || b == "showallmessages"@
        || b == "dns64prefix"@ || b == "idn"@ || b == "idnin"@ || b == "idnout"@ || b == "mapped"@
        || b == "expandaaaa"@ || b == "zoneversion"@ || b == "svcparamkeycompat"@
}

/// The opcodes that may be given by name or number.
pub open spec fn opcode_named(s: Seq<char>) -> bool {
    s == "QUERY"@ || s == "query"@ || s == "0"@ || s == "IQUERY"@ || s == "1"@ || s == "STATUS"@
        || s == "2"@ || s == "NOTIFY"@ || s == "4"@ || s == "UPDATE"@ || s == "5"@
}

/// The `+` options that take a value.
pub open spec fn value_option(v: DigView, bare: Seq<char>, val: Option<Seq<char>>, on: bool, flag: Seq<char>) -> Result<DigView, Seq<char>> {
    if bare == "edns"@ {
        match val {
            Some(s) => if !on || parse_u8_spec(s) is Some { Ok(v) } else { Err("invalid EDNS version"@) },
            None => Ok(v),
        }
    } else if bare == "bufsize"@ {
        match val {
            Some(s) => if parse_u16_spec(s) is Some { Ok(v) } else { Err("invalid bufsize"@) },
            None => Ok(v),
        }
    } else if bare == "retry"@ || bare == "retries"@ {
        match val {
            Some(s) => match parse_u32_spec(s) {
                Some(n) => Ok(DigView { resolver: ResolverConfig { retry: n, ..v.resolver }, ..v }),
                None => Err("invalid retry"@),
            },
            None => Ok(v),
        }
    } else if bare == "tries"@ {
        match val {
            Some(s) => match parse_u32_spec(s) {
                Some(n) => Ok(DigView { resolver: ResolverConfig { tries: if n == 0 { 1 } else { n }, ..v.resolver }, ..v }),
                None => Err("invalid tries"@),
            },
            None => Ok(v),
        }
    } else if bare == "timeout"@ || bare == "time"@ {
        match val {
            Some(s) => match parse_u64_spec(s) {
                Some(n) => Ok(DigView { resolver: ResolverConfig { timeout_secs: n, ..v.resolver }, ..v }),
                None => Err("invalid timeout"@),
            },
            None => Ok(v),
        }
    } else if bare == "opcode"@ {
        match val {
            Some(s) => if opcode_named(s) || parse_u8_spec(s) is Some { Ok(v) } else { Err("invalid opcode: "@ + s) },
            None => Ok(v),
        }
    } else if bare == "qid"@ {
        match val {
            Some(s) => match parse_u16_spec(s) {
                Some(n) => Ok(DigView { id: n, ..v }),
                None => Err("invalid qid"@),
            },
            None => Ok(v),
        }
    } else {
        Err("unknown option: +"@ + flag)
    }
}

/// A `+` option by its name without "no" (`on` is false when it had one).
pub open spec fn plus_named(v: DigView, bare: Seq<char>, val: Option<Seq<char>>, on: bool, flag: Seq<char>) -> Result<DigView, Seq<char>> {
    match display_set(v.print, bare, on) {
        Some(p) => Ok(DigView { print: p, ..v }),
        None => if ignored_option_a(bare) || ignored_option_b(bare) {
            Ok(v)
        } else if header_bit(bare) != 0 {
            Ok(DigView {
                header_bits: if on { v.header_bits | header_bit(bare) } else { v.header_bits & !header_bit(bare) },
                ..v
            })
        } else if bare == "tcp"@ || bare == "vc"@ {
            Ok(DigView { resolver: ResolverConfig { use_tcp: on, ..v.resolver }, ..v })
        } else if bare == "ignore"@ {
            Ok(DigView { resolver: ResolverConfig { ignore_tc: on, ..v.resolver }, ..v })
        } else if bare == "recurse"@ || bare == "rdflag"@ {
            Ok(DigView { recurse: on, ..v })
        } else if bare == "trace"@ {
            Ok(DigView { trace: on, recurse: if on { false } else { v.recurse }, ..v })
        } else {
            value_option(v, bare, val, on, flag)
        },
    }
}

/// A `+` option (the text after '+'): `[no]name[=value]`.
pub open spec fn plus_spec(v: DigView, flag: Seq<char>) -> Result<DigView, Seq<char>> {
    let e = find_char_from(flag, '=', 0);
    let name = flag.subrange(0, e);
    let val = if e < flag.len() { Some(flag.subrange(e + 1, flag.len() as int)) } else { None };
    let no = has_prefix(name, "no"@);
    let bare = if no { name.subrange(2, name.len() as int) } else { name };
    plus_named(v, bare, val, !no, flag)
}

/// Where reading stands: the settings, and a name or a type waiting for
/// its partner.
pub struct ScanState {
    pub v: DigView,
    pub cur_name: Option<Seq<char>>,
    pub cur_type: Option<RecordType>,
}

/// One step: on to the argument at the index, or a stop.
pub enum DigStep {
    Go(ScanState, int),
    End(DigStopView),
}

pub open spec fn push_name(v: DigView, n: Seq<char>, t: RecordType) -> DigView {
    DigView { names: v.names.push((n, t, v.class)), ..v }
}

/// An argument that is neither an option nor a server: a type when it
/// names one, else a name.
pub open spec fn positional(st: ScanState, a: Seq<char>) -> ScanState {
    match record_type_named(uppercase_of(a)) {
        Some(rt) => match st.cur_name {
            Some(n) => ScanState { v: push_name(st.v, n, rt), cur_name: None, ..st },
            None => if st.cur_type is None { ScanState { cur_type: Some(rt), ..st } } else { st },
        },
        None => match st.cur_name {
            Some(n) => ScanState {
                v: push_name(st.v, n, match st.cur_type { Some(t) => t, None => RecordType::A }),
                cur_name: Some(a),
                cur_type: None,
            },
            None => ScanState { cur_name: Some(a), ..st },
        },
    }
}

/// The options that take the next argument.
pub open spec fn arg_step(args: Seq<Seq<char>>, i: int, st: ScanState) -> Option<DigStep> {
    match arg_step_a(args, i, st) {
        Some(s) => Some(s),
        None => arg_step_b(args, i, st),
    }
}

/// `-p`, `-t`, `-c` and `-x`.
pub open spec fn arg_step_a(args: Seq<Seq<char>>, i: int, st: ScanState) -> Option<DigStep> {
    let a = args[i];
    let v = st.v;
    let missing = i + 1 >= args.len();
    if a == "-p"@ {
        Some(if missing { DigStep::End(DigStopView::Error("-p requires an argument"@)) } else {
            match parse_u16_spec(args[i + 1]) {
                Some(p) => DigStep::Go(ScanState { v: DigView { port: p, ..v }, ..st }, i + 2),
                None => DigStep::End(DigStopView::Error("invalid port"@)),
            }
        })
    } else if a == "-t"@ {
        Some(if missing { DigStep::End(DigStopView::Error("-t requires an argument"@)) } else {
            match record_type_named(uppercase_of(args[i + 1])) {
                Some(t) => DigStep::Go(ScanState { cur_type: Some(t), ..st }, i + 2),
                None => DigStep::End(DigStopView::Error("unknown type: "@ + args[i + 1])),
            }
        })
    } else if a == "-c"@ {
        Some(if missing { DigStep::End(DigStopView::Error("-c requires an argument"@)) } else {
            match class_of(uppercase_of(args[i + 1])) {
                Some(c) => DigStep::Go(ScanState { v: DigView { class: c, ..v }, ..st }, i + 2),
                None => DigStep::End(DigStopView::Error("unknown class: "@ + args[i + 1])),
            }
        })
    } else if a == "-x"@ {
        Some(if missing { DigStep::End(DigStopView::Error("-x requires an argument"@)) } else {
            DigStep::Go(ScanState { v: DigView { reverse: Some(args[i + 1]), ..v }, ..st }, i + 2)
        })
    } else {
        None
    }
}

/// `-b`, `-q`, `-f`, `-k` and `-y`.
pub open spec fn arg_step_b(args: Seq<Seq<char>>, i: int, st: ScanState) -> Option<DigStep> {
    let a = args[i];
    let v = st.v;
    let missing = i + 1 >= args.len();
    if a == "-b"@ {
        Some(if missing { DigStep::End(DigStopView::Error("-b requires an argument"@)) } else {
            DigStep::Go(st, i + 2)
        })
    } else if a == "-q"@ {
        Some(if missing { DigStep::End(DigStopView::Error("-q requires an argument"@)) } else {
            DigStep::Go(ScanState { cur_name: Some(args[i + 1]), ..st }, i + 2)
        })
    } else if a == "-f"@ {
        Some(if missing { DigStep::End(DigStopView::Error("-f requires an argument"@)) } else {
            DigStep::Go(ScanState { v: DigView { batch: Some(args[i + 1]), ..v }, ..st }, i + 2)
        })
    } else if a == "-k"@ || a == "-y"@ {
        Some(if missing { DigStep::End(DigStopView::Error(a + " requires an argument"@)) } else {
            DigStep::Go(st, i + 2)
        })
    } else {
        None
    }
}

/// The options that stand alone.
pub open spec fn plain_step(a: Seq<char>, st: ScanState, i: int) -> Option<DigStep> {
    if a == "-4"@ || a == "-6"@ {
        Some(DigStep::Go(st, i + 1))
    } else if a == "-u"@ {
        Some(DigStep::Go(ScanState { v: DigView { use_usec: true, ..st.v }, ..st }, i + 1))
    } else if a == "-v"@ || a == "--version"@ {
        Some(DigStep::End(DigStopView::Version))
    } else if a == "-h"@ || a == "--help"@ {
        Some(DigStep::End(DigStopView::Help))
    } else {
        None
    }
}

/// The argument at `i`: "@server", a `+` option, an option, or a name or
/// type; other arguments starting with '-' are passed over.
pub open spec fn dig_step(args: Seq<Seq<char>>, i: int, st: ScanState) -> DigStep {
    let a = args[i];
    if a.len() > 0 && a[0] == '@' {
        DigStep::Go(ScanState { v: DigView { server: Some(a.subrange(1, a.len() as int)), ..st.v }, ..st }, i + 1)
    } else if a.len() > 0 && a[0] == '+' {
        match plus_spec(st.v, a.subrange(1, a.len() as int)) {
            Ok(v2) => DigStep::Go(ScanState { v: v2, ..st }, i + 1),
            Err(m) => DigStep::End(DigStopView::Error(m)),
        }
    } else {
        match arg_step(args, i, st) {
            Some(s) => s,
            None => match plain_step(a, st, i) {
                Some(s) => s,
                None => if a.len() > 0 && a[0] == '-' {
                    DigStep::Go(st, i + 1)
                } else {
                    DigStep::Go(positional(st, a), i + 1)
                },
            },
        }
    }
}

pub enum DigScan {
    Done(ScanState),
    Stopped(DigStopView),
}

/// Reads the arguments from `i` on.
pub open spec fn dig_scan(args: Seq<Seq<char>>, i: int, st: ScanState) -> DigScan
    decreases args.len() - i,
{
    if i < 0 || i >= args.len() {
        DigScan::Done(st)
    } else {
        match dig_step(args, i, st) {
            DigStep::Go(s2, j) => if j > i { dig_scan(args, j, s2) } else { DigScan::Done(s2) },
            DigStep::End(e) => DigScan::Stopped(e),
        }
    }
}

/// The waiting name (with the waiting type, or A) or the waiting type
/// (for the root) becomes a query; a line without any query is refused.
pub open spec fn dig_finish(sc: DigScan) -> Result<DigView, DigStopView> {
    match sc {
        DigScan::Done(st) => {
            let v = match st.cur_name {
                Some(n) => push_name(st.v, n, match st.cur_type { Some(t) => t, None => RecordType::A }),
                None => match st.cur_type {
                    Some(t) => push_name(st.v, "."@, t),
                    None => st.v,
                },
            };
            if v.names.len() == 0 && v.reverse is None && v.batch is None {
                Err(DigStopView::Error("no query specified"@))
            } else {
                Ok(v)
            }
        },
        DigScan::Stopped(e) => Err(e),
    }
}

/// What a command line (the program name first) asks for.
pub open spec fn dig_spec(args: Seq<Seq<char>>) -> Result<DigView, DigStopView> {
    dig_finish(dig_scan(args, 1, ScanState { v: initial_view(), cur_name: None, cur_type: None }))
}

impl DigArgs {
    /// The settings before any argument.
    pub fn new() -> (a: DigArgs)
        ensures
            a@ == initial_view(),
    {
        let a = DigArgs {
            server: None,
            names: Vec::new(),
            reverse: None,
            port: 53,
            id: 0x1234,
            recurse: true,
            resolver: ResolverConfig::default(),
            print_opts: PrintOpts::default(),
            trace: false,
            use_usec: false,
            batch_file: None,
            class: 1,
            header_bits: 0,
        };
        assert(a@.names =~= Seq::<(Seq<char>, RecordType, u16)>::empty());
        assert(a@ =~= initial_view());
        a
    }
}

fn display_set_exec(p: &PrintOpts, bare: &str, on: bool) -> (r: Option<PrintOpts>)
    ensures
        r == display_set(*p, bare@, on),
{
    let mut q = PrintOpts {
        short: p.short,
        show_question: p.show_question,
        show_answer: p.show_answer,
        show_authority: p.show_authority,
        show_additional: p.show_additional,
        show_stats: p.show_stats,
        show_comments: p.show_comments,
    };
    if str_eq(bare, "short") {
        q.short = on;
    } else if str_eq(bare, "comments") {
        q.show_comments = on;
    } else if str_eq(bare, "question") {
        q.show_question = on;
    } else if str_eq(bare, "answer") {
        q.show_answer = on;
    } else if str_eq(bare, "authority") {
        q.show_authority = on;
    } else if str_eq(bare, "additional") {
        q.show_additional = on;
    } else if str_eq(bare, "stats") {
        q.show_stats = on;
    } else if str_eq(bare, "all") {
        q.show_comments = on;
        q.show_question = on;
        q.show_answer = on;
        q.show_authority = on;
        q.show_additional = on;
        q.show_stats = on;
    } else {
        return None;
    }
    Some(q)
}

fn is_ignored_a(b: &str) -> (r: bool)
    ensures
        r == ignored_option_a(b@),
{
    str_eq(b, "cmd") || str_eq(b, "qr") || str_eq(b, "identify") || str_eq(b, "multiline") || str_eq(b, "ttlid")
        || str_eq(b, "ttl") || str_eq(b, "ttlunits") || str_eq(b, "class") || str_eq(b, "rrcomments")
        || str_eq(b, "unknownformat") || str_eq(b, "yaml") || str_eq(b, "dnssec") || str_eq(b, "do")
        || str_eq(b, "header-only") || str_eq(b, "ednsflags") || str_eq(b, "split")
}

fn header_bit_exec(b: &str) -> (r: u16)
    ensures
        r == header_bit(b@),
{
    if str_eq(b, "aaflag") || str_eq(b, "aaonly") {
        0x0400
    } else if str_eq(b, "tcflag") {
        0x0200
    } else if str_eq(b, "raflag") {
        0x0080
    } else if str_eq(b, "zflag") {
        0x0040
    } else if str_eq(b, "adflag") {
        0x0020
    } else if str_eq(b, "cdflag") || str_eq(b, "cd") {
        0x0010
    } else {
        0
    }
}

fn is_ignored_b(b: &str) -> (r: bool)
    ensures
        r == ignored_option_b(b@),
{
    str_eq(b, "keepopen") || str_eq(b, "keepalive") || str_eq(b, "besteffort") || str_eq(b, "fail")
        || str_eq(b, "nssearch") || str_eq(b, "showsearch") || str_eq(b, "search") || str_eq(b, "defname")
        || str_eq(b, "onesoa") || str_eq(b, "nsid") || str_eq(b, "cookie") || str_eq(b, "subnet")
        || str_eq(b, "expire") || str_eq(b, "padding") || str_eq(b, "ednsnegotiation")
        || str_eq(b, "badcookie") || str_eq(b, "showbadcookie") || str_eq(b, "showbadvers")
        || str_eq(b, "showtruncated") || str_eq(b, "showallmessages") || str_eq(b, "dns64prefix")
        || str_eq(b, "idn") || str_eq(b, "idnin") || str_eq(b, "idnout") || str_eq(b, "mapped")
        || str_eq(b, "expandaaaa") || str_eq(b, "zoneversion") || str_eq(b, "svcparamkeycompat")
}

fn is_opcode_named(s: &str) -> (r: bool)
    ensures
        r == opcode_named(s@),
{
    str_eq(s, "QUERY") || str_eq(s, "query") || str_eq(s, "0") || str_eq(s, "IQUERY") || str_eq(s, "1")
        || str_eq(s, "STATUS") || str_eq(s, "2") || str_eq(s, "NOTIFY") || str_eq(s, "4")
        || str_eq(s, "UPDATE") || str_eq(s, "5")
}

fn error_text(m: &str) -> (e: String)
    ensures
        e@ == m@,
{
    String::from_str(m)
}

fn joined(a: &str, b: &str) -> (e: String)
    ensures
        e@ == a@ + b@,
{
    let mut e = String::from_str(a);
    push_str(&mut e, b);
    e
}

#[verifier::spinoff_prover]
#[verifier::rlimit(40)]
fn value_option_exec(a: &mut DigArgs, bare: &str, val: &Option<String>, on: bool, flag: &str) -> (r: Result<(), String>)
    ensures
        match value_option(old(a)@, bare@, opt_text(val), on, flag@) {
            Ok(v) => r is Ok && final(a)@ == v,
            Err(m) => r matches Err(e) && e@ == m,
        },
{
    if str_eq(bare, "edns") {
        if let Some(s) = val {
            if on && parse_u8_str(s.as_str()).is_none() {
                return Err(error_text("invalid EDNS version"));
            }
        }
        Ok(())
    } else if str_eq(bare, "bufsize") {
        if let Some(s) = val {
            if parse_u16_str(s.as_str()).is_none() {
                return Err(error_text("invalid bufsize"));
            }
        }
        Ok(())
    } else if str_eq(bare, "retry") || str_eq(bare, "retries") {
        if let Some(s) = val {
            match parse_u32_str(s.as_str()) {
                Some(n) => {
                    a.resolver.retry = n;
                },
                None => {
                    return Err(error_text("invalid retry"));
                },
            }
        }
        Ok(())
    } else if str_eq(bare, "tries") {
        if let Some(s) = val {
            match parse_u32_str(s.as_str()) {
                Some(n) => {
                    a.resolver.tries = if n == 0 { 1 } else { n };
                },
                None => {
                    return Err(error_text("invalid tries"));
                },
            }
        }
        Ok(())
    } else if str_eq(bare, "timeout") || str_eq(bare, "time") {
        if let Some(s) = val {
            match parse_u64_str(s.as_str()) {
                Some(n) => {
                    a.resolver.timeout_secs = n;
                },
                None => {
                    return Err(error_text("invalid timeout"));
                },
            }
        }
        Ok(())
    } else if str_eq(bare, "opcode") {
        if let Some(s) = val {
            if !is_opcode_named(s.as_str()) && parse_u8_str(s.as_str()).is_none() {
                return Err(joined("invalid opcode: ", s.as_str()));
            }
        }
        Ok(())
    } else if str_eq(bare, "qid") {
        if let Some(s) = val {
            match parse_u16_str(s.as_str()) {
                Some(n) => {
                    a.id = n;
                },
                None => {
                    return Err(error_text("invalid qid"));
                },
            }
        }
        Ok(())
    } else {
        Err(joined("unknown option: +", flag))
    }
}

#[verifier::spinoff_prover]
#[verifier::rlimit(40)]
fn plus_named_exec(a: &mut DigArgs, bare: &str, val: &Option<String>, on: bool, flag: &str) -> (r: Result<(), String>)
    ensures
        match plus_named(old(a)@, bare@, opt_text(val), on, flag@) {
            Ok(v) => r is Ok && final(a)@ == v,
            Err(m) => r matches Err(e) && e@ == m,
        },
{
    match display_set_exec(&a.print_opts, bare, on) {
        Some(p) => {
            a.print_opts = p;
            return Ok(());
        },
        None => {},
    }
    let bit = header_bit_exec(bare);
    if is_ignored_a(bare) || is_ignored_b(bare) {
        Ok(())
    } else if bit != 0 {
        if on {
            a.header_bits = a.header_bits | bit;
        } else {
            a.header_bits = a.header_bits & !bit;
        }
        Ok(())
    } else if str_eq(bare, "tcp") || str_eq(bare, "vc") {
        a.resolver.use_tcp = on;
        Ok(())
    } else if str_eq(bare, "ignore") {
        a.resolver.ignore_tc = on;
        Ok(())
    } else if str_eq(bare, "recurse") || str_eq(bare, "rdflag") {
        a.recurse = on;
        Ok(())
    } else if str_eq(bare, "trace") {
        a.trace = on;
        if on {
            a.recurse = false;
        }
        Ok(())
    } else {
        value_option_exec(a, bare, val, on, flag)
    }
}

/// Applies a `+` option (the text after '+'; see `plus_spec`).
pub fn parse_plus_option(a: &mut DigArgs, flag: &str) -> (r: Result<(), String>)
    ensures
        match plus_spec(old(a)@, flag@) {
            Ok(v) => r is Ok && final(a)@ == v,
            Err(m) => r matches Err(e) && e@ == m,
        },
{
    let fv = chars_of(flag);
    proof {
        lemma_find_char_from(flag@, '=', 0);
    }
    let e = find_char(&fv, '=', 0);
    let name = string_range(&fv, 0, e);
    let val: Option<String> = if e < fv.len() { Some(string_range(&fv, e + 1, fv.len())) } else { None };
    let no = crate::dig::query::starts_with_str(name.as_str(), "no");
    let nv = chars_of(name.as_str());
    let bare = if no {
        proof {
            reveal_strlit("no");
        }
        string_range(&nv, 2, nv.len())
    } else {
        name
    };
    plus_named_exec(a, bare.as_str(), &val, !no, flag)
}

/// A step, in exec form.
pub enum StepOut {
    Go(usize),
    End(DigStop),
}

pub open spec fn scan_of(a: DigArgs, cn: Option<String>, ct: Option<RecordType>) -> ScanState {
    ScanState { v: a@, cur_name: opt_text(&cn), cur_type: ct }
}

pub open spec fn out_is(o: StepOut, s: DigStep, a: DigArgs, cn: Option<String>, ct: Option<RecordType>) -> bool {
    match (o, s) {
        (StepOut::Go(j), DigStep::Go(st, k)) => j == k && scan_of(a, cn, ct) == st,
        (StepOut::End(x), DigStep::End(y)) => stop_is(x, y),
        _ => false,
    }
}

#[verifier::spinoff_prover]
#[verifier::rlimit(40)]
fn arg_step_a_exec(raw: &Vec<String>, i: usize, a: &mut DigArgs, cn: &mut Option<String>, ct: &mut Option<RecordType>) -> (r: Option<StepOut>)
    requires
        1 <= i < raw@.len(),
    ensures
        match arg_step_a(texts(raw@), i as int, scan_of(*old(a), *old(cn), *old(ct))) {
            Some(s) => r matches Some(o) && out_is(o, s, *final(a), *final(cn), *final(ct)),
            None => r is None && *final(a) == *old(a) && *final(cn) == *old(cn) && *final(ct) == *old(ct),
        },
{
    let ghost t = texts(raw@);
    assert(t[i as int] == raw@[i as int]@);
    let arg = raw[i].as_str();
    let n = raw.len();
    let has_next = i + 1 < n;
    if has_next {
        assert(t[i + 1] == raw@[i + 1]@);
    }
    if str_eq(arg, "-p") {
        if !has_next {
            return Some(StepOut::End(DigStop::Error(error_text("-p requires an argument"))));
        }
        match parse_u16_str(raw[i + 1].as_str()) {
            Some(p) => {
                a.port = p;
                Some(StepOut::Go(i + 2))
            },
            None => Some(StepOut::End(DigStop::Error(error_text("invalid port")))),
        }
    } else if str_eq(arg, "-t") {
        if !has_next {
            return Some(StepOut::End(DigStop::Error(error_text("-t requires an argument"))));
        }
        let u = upper_string(raw[i + 1].as_str());
        match RecordType::from_upper(u.as_str()) {
            Some(rt) => {
                *ct = Some(rt);
                Some(StepOut::Go(i + 2))
            },
            None => Some(StepOut::End(DigStop::Error(joined("unknown type: ", raw[i + 1].as_str())))),
        }
    } else if str_eq(arg, "-c") {
        if !has_next {
            return Some(StepOut::End(DigStop::Error(error_text("-c requires an argument"))));
        }
        let u = upper_string(raw[i + 1].as_str());
        match parse_class(u.as_str()) {
            Some(c) => {
                a.class = c;
                Some(StepOut::Go(i + 2))
            },
            None => Some(StepOut::End(DigStop::Error(joined("unknown class: ", raw[i + 1].as_str())))),
        }
    } else if str_eq(arg, "-x") {
        if !has_next {
            return Some(StepOut::End(DigStop::Error(error_text("-x requires an argument"))));
        }
        a.reverse = Some(raw[i + 1].clone());
        Some(StepOut::Go(i + 2))
    } else {
        None
    }
}

#[verifier::spinoff_prover]
#[verifier::rlimit(40)]
fn arg_step_b_exec(raw: &Vec<String>, i: usize, a: &mut DigArgs, cn: &mut Option<String>, ct: &mut Option<RecordType>) -> (r: Option<StepOut>)
    requires
        1 <= i < raw@.len(),
    ensures
        match arg_step_b(texts(raw@), i as int, scan_of(*old(a), *old(cn), *old(ct))) {
            Some(s) => r matches Some(o) && out_is(o, s, *final(a), *final(cn), *final(ct)),
            None => r is None && *final(a) == *old(a) && *final(cn) == *old(cn) && *final(ct) == *old(ct),
        },
{
    let ghost t = texts(raw@);
    assert(t[i as int] == raw@[i as int]@);
    let arg = raw[i].as_str();
    let n = raw.len();
    let has_next = i + 1 < n;
    if has_next {
        assert(t[i + 1] == raw@[i + 1]@);
    }
    if str_eq(arg, "-b") {
        if !has_next {
            return Some(StepOut::End(DigStop::Error(error_text("-b requires an argument"))));
        }
        Some(StepOut::Go(i + 2))
    } else if str_eq(arg, "-q") {
        if !has_next {
            return Some(StepOut::End(DigStop::Error(error_text("-q requires an argument"))));
        }
        *cn = Some(raw[i + 1].clone());
        Some(StepOut::Go(i + 2))
    } else if str_eq(arg, "-f") {
        if !has_next {
            return Some(StepOut::End(DigStop::Error(error_text("-f requires an argument"))));
        }
        a.batch_file = Some(raw[i + 1].clone());
        Some(StepOut::Go(i + 2))
    } else if str_eq(arg, "-k") || str_eq(arg, "-y") {
        if !has_next {
            return Some(StepOut::End(DigStop::Error(joined(arg, " requires an argument"))));
        }
        Some(StepOut::Go(i + 2))
    } else {
        None
    }
}

fn plain_step_exec(arg: &str, i: usize, a: &mut DigArgs, cn: &Option<String>, ct: &Option<RecordType>) -> (r: Option<StepOut>)
    requires
        i < usize::MAX,
    ensures
        match plain_step(arg@, scan_of(*old(a), *cn, *ct), i as int) {
            Some(s) => r matches Some(o) && out_is(o, s, *final(a), *cn, *ct),
            None => r is None && *final(a) == *old(a),
        },
{
    if str_eq(arg, "-4") || str_eq(arg, "-6") {
        Some(StepOut::Go(i + 1))
    } else if str_eq(arg, "-u") {
        a.use_usec = true;
        Some(StepOut::Go(i + 1))
    } else if str_eq(arg, "-v") || str_eq(arg, "--version") {
        Some(StepOut::End(DigStop::Version))
    } else if str_eq(arg, "-h") || str_eq(arg, "--help") {
        Some(StepOut::End(DigStop::Help))
    } else {
        None
    }
}

fn push_query(a: &mut DigArgs, n: String, t: RecordType)
    ensures
        final(a)@ == push_name(old(a)@, n@, t),
{
    let c = a.class;
    a.names.push(DigQuery { name: n, qtype: t, class: c });
    assert(a@.names =~= push_name(old(a)@, n@, t).names);
    assert(a@ =~= push_name(old(a)@, n@, t));
}

fn positional_exec(a: &mut DigArgs, cn: &mut Option<String>, ct: &mut Option<RecordType>, arg: &str)
    ensures
        scan_of(*final(a), *final(cn), *final(ct)) == positional(scan_of(*old(a), *old(cn), *old(ct)), arg@),
{
    match RecordType::from_str(arg) {
        Some(rt) => {
            match cn.take() {
                Some(n) => {
                    push_query(a, n, rt);
                },
                None => {
                    if ct.is_none() {
                        *ct = Some(rt);
                    }
                },
            }
        },
        None => {
            match cn.take() {
                Some(n) => {
                    let t = match ct.take() {
                        Some(t) => t,
                        None => RecordType::A,
                    };
                    push_query(a, n, t);
                    *cn = Some(String::from_str(arg));
                },
                None => {
                    *cn = Some(String::from_str(arg));
                },
            }
        },
    }
}

#[verifier::spinoff_prover]
#[verifier::rlimit(40)]
fn step_exec(raw: &Vec<String>, i: usize, a: &mut DigArgs, cn: &mut Option<String>, ct: &mut Option<RecordType>) -> (o: StepOut)
    requires
        1 <= i < raw@.len(),
    ensures
        out_is(o, dig_step(texts(raw@), i as int, scan_of(*old(a), *old(cn), *old(ct))), *final(a), *final(cn), *final(ct)),
        o matches StepOut::Go(j) ==> i < j <= raw@.len(),
{
    let ghost t = texts(raw@);
    assert(t[i as int] == raw@[i as int]@);
    let arg = raw[i].as_str();
    let n = raw.len();
    assert(i + 1 <= n);
    let v = chars_of(arg);
    if v.len() > 0 && v[0] == '@' {
        a.server = Some(string_range(&v, 1, v.len()));
        return StepOut::Go(i + 1);
    }
    if v.len() > 0 && v[0] == '+' {
        let f = string_range(&v, 1, v.len());
        return match parse_plus_option(a, f.as_str()) {
            Ok(()) => StepOut::Go(i + 1),
            Err(m) => StepOut::End(DigStop::Error(m)),
        };
    }
    match arg_step_a_exec(raw, i, a, cn, ct) {
        Some(o) => {
            return o;
        },
        None => {},
    }
    match arg_step_b_exec(raw, i, a, cn, ct) {
        Some(o) => {
            return o;
        },
        None => {},
    }
    match plain_step_exec(arg, i, a, cn, ct) {
        Some(o) => {
            return o;
        },
        None => {},
    }
    if v.len() > 0 && v[0] == '-' {
        StepOut::Go(i + 1)
    } else {
        positional_exec(a, cn, ct, arg);
        StepOut::Go(i + 1)
    }
}

/// Reads the command line of the lookup tool (the program name first; see
/// `dig_spec`): what to ask for, or how it stops.
pub fn parse_args(raw: &Vec<String>) -> (r: Result<DigArgs, DigStop>)
    ensures
        match (r, dig_spec(texts(raw@))) {
            (Ok(a), Ok(v)) => a@ == v,
            (Err(x), Err(y)) => stop_is(x, y),
            _ => false,
        },
{
    let ghost t = texts(raw@);
    let mut a = DigArgs::new();
    let mut cn: Option<String> = None;
    let mut ct: Option<RecordType> = None;
    let mut i: usize = 1;
    assert(scan_of(a, cn, ct) == ScanState { v: initial_view(), cur_name: None, cur_type: None });
    while i < raw.len()
        invariant
            t == texts(raw@),
            t.len() == raw@.len(),
            1 <= i,
            dig_spec(t) == dig_finish(dig_scan(t, i as int, scan_of(a, cn, ct))),
        decreases raw@.len() - i,
    {
        let out = step_exec(raw, i, &mut a, &mut cn, &mut ct);
        match out {
            StepOut::Go(j) => {
                i = j;
            },
            StepOut::End(x) => {
                return Err(x);
            },
        }
    }
    assert(dig_scan(t, i as int, scan_of(a, cn, ct)) == DigScan::Done(scan_of(a, cn, ct)));
    let ghost st = scan_of(a, cn, ct);
    match cn.take() {
        Some(n) => {
            let tt = match ct {
                Some(t) => t,
                None => RecordType::A,
            };
            push_query(&mut a, n, tt);
        },
        None => {
            match ct {
                Some(tt) => {
                    push_query(&mut a, String::from_str("."), tt);
                },
                None => {},
            }
        },
    }
    if a.names.len() == 0 && a.reverse.is_none() && a.batch_file.is_none() {
        return Err(DigStop::Error(error_text("no query specified")));
    }
    Ok(a)
}

} // verus!
