//! The command line of a sweep: the block to scan and the probe settings.

use vstd::prelude::*;
use vstd::string::*;
use crate::text::{opt_text, parse_u32_spec, parse_u32_str, parse_usize_spec, parse_usize_str, push_str, str_eq};

verus! {

/// The settings of a sweep.
#[derive(Debug)]
pub struct IpmapArgs {
    pub cidr: String,
    pub timeout_ms: u32,
    pub count: u32,
    pub concurrency: usize,
    pub quiet: bool,
}

/// A refused command line: the message, and whether the usage text
/// follows it.
#[derive(Debug)]
pub struct ArgError {
    pub message: String,
    pub show_usage: bool,
}

/// The settings read so far, as plain values.
pub struct ScanOpts {
    pub cidr: Option<Seq<char>>,
    pub timeout_ms: u32,
    pub count: u32,
    pub concurrency: usize,
    pub quiet: bool,
}

/// The settings before any option: 500 ms, three probes, 64 at a time.
pub open spec fn default_opts() -> ScanOpts {
    ScanOpts { cidr: None, timeout_ms: 500, count: 3, concurrency: 64, quiet: false }
}

/// Reads the arguments from `i` on: `-t ms`, `-r count` (at least one),
/// `-c concurrency`, `-q`, and the one block to scan; any other word
/// starting with '-' is refused. A refusal gives its message and whether
/// the usage text follows.
pub open spec fn scan_args(raw: Seq<Seq<char>>, i: int, st: ScanOpts) -> Result<ScanOpts, (Seq<char>, bool)>
    decreases raw.len() - i,
{
    if i < 0 || i >= raw.len() {
        Ok(st)
    } else {
        let a = raw[i];
        if a == "-t"@ {
            if i + 1 >= raw.len() {
                Err(("error: -t requires a value"@, true))
            } else {
                match parse_u32_spec(raw[i + 1]) {
                    Some(v) => scan_args(raw, i + 2, ScanOpts { timeout_ms: v, ..st }),
                    None => Err(("error: invalid timeout: "@ + raw[i + 1], false)),
                }
            }
        } else if a == "-r"@ {
            if i + 1 >= raw.len() {
                Err(("error: -r requires a value"@, true))
            } else {
                match parse_u32_spec(raw[i + 1]) {
                    Some(v) => if v == 0 {
                        Err(("error: -r must be at least 1"@, false))
                    } else {
                        scan_args(raw, i + 2, ScanOpts { count: v, ..st })
                    },
                    None => Err(("error: invalid count: "@ + raw[i + 1], false)),
                }
            }
        } else if a == "-c"@ {
            if i + 1 >= raw.len() {
                Err(("error: -c requires a value"@, true))
            } else {
                match parse_usize_spec(raw[i + 1]) {
                    Some(v) => scan_args(raw, i + 2, ScanOpts { concurrency: v, ..st }),
                    None => Err(("error: invalid concurrency: "@ + raw[i + 1], false)),
                }
            }
        } else if a == "-q"@ {
            scan_args(raw, i + 1, ScanOpts { quiet: true, ..st })
        } else if a.len() > 0 && a[0] == '-' {
            Err(("error: unknown option: "@ + a, true))
        } else if st.cidr is Some {
            Err(("error: unexpected argument: "@ + a, true))
        } else {
            scan_args(raw, i + 1, ScanOpts { cidr: Some(a), ..st })
        }
    }
}

/// The settings of a command line (the program name first), or why it is
/// refused; the block to scan is required.
pub open spec fn ipmap_args_spec(raw: Seq<Seq<char>>) -> Result<ScanOpts, (Seq<char>, bool)> {
    match scan_args(raw, 1, default_opts()) {
        Ok(st) => if st.cidr is Some {
            Ok(st)
        } else {
            Err(("error: CIDR argument required"@, true))
        },
        Err(e) => Err(e),
    }
}

fn refuse_plain(msg: &str, show_usage: bool) -> (e: ArgError)
    ensures
        e.message@ == msg@,
        e.show_usage == show_usage,
{
    ArgError { message: String::from_str(msg), show_usage }
}

fn refuse(head: &str, tail: &str, show_usage: bool) -> (e: ArgError)
    ensures
        e.message@ == head@ + tail@,
        e.show_usage == show_usage,
{
    let mut m = String::from_str(head);
    push_str(&mut m, tail);
    ArgError { message: m, show_usage }
}

/// Reads the command line of a sweep (see `ipmap_args_spec`).
pub fn parse_args(raw: &Vec<String>) -> (r: Result<IpmapArgs, ArgError>)
    ensures
        match (r, ipmap_args_spec(raw@.map_values(|s: String| s@))) {
            (Ok(a), Ok(st)) => st.cidr == Some(a.cidr@) && a.timeout_ms == st.timeout_ms && a.count == st.count
                && a.concurrency == st.concurrency && a.quiet == st.quiet,
            (Err(e), Err((m, u))) => e.message@ == m && e.show_usage == u,
            _ => false,
        },
{
    let ghost words = raw@.map_values(|s: String| s@);
    let mut cidr: Option<String> = None;
    let mut timeout_ms: u32 = 500;
    let mut count: u32 = 3;
    let mut concurrency: usize = 64;
    let mut quiet = false;
    let mut i: usize = 1;
    let ghost mut st = default_opts();
    while i < raw.len()
        invariant
            words == raw@.map_values(|s: String| s@),
            1 <= i,
            st == (ScanOpts {
                cidr: opt_text(&cidr),
                timeout_ms,
                count,
                concurrency,
                quiet,
            }),
            ipmap_args_spec(words) == (match scan_args(words, i as int, st) {
                Ok(s) => if s.cidr is Some { Ok(s) } else { Err(("error: CIDR argument required"@, true)) },
                Err(e) => Err(e),
            }),
        decreases raw@.len() - i,
    {
        let a = raw[i].as_str();
        assert(words[i as int] == a@);
        if str_eq(a, "-t") {
            if i + 1 >= raw.len() {
                return Err(refuse_plain("error: -t requires a value", true));
            }
            assert(words[i + 1] == raw@[i + 1]@);
            match parse_u32_str(raw[i + 1].as_str()) {
                Some(v) => {
                    timeout_ms = v;
                    i = i + 2;
                },
                None => {
                    return Err(refuse("error: invalid timeout: ", raw[i + 1].as_str(), false));
                },
            }
        } else if str_eq(a, "-r") {
            if i + 1 >= raw.len() {
                return Err(refuse_plain("error: -r requires a value", true));
            }
            assert(words[i + 1] == raw@[i + 1]@);
            match parse_u32_str(raw[i + 1].as_str()) {
                Some(v) => {
                    if v == 0 {
                        return Err(refuse_plain("error: -r must be at least 1", false));
                    }
                    count = v;
                    i = i + 2;
                },
                None => {
                    return Err(refuse("error: invalid count: ", raw[i + 1].as_str(), false));
                },
            }
        } else if str_eq(a, "-c") {
            if i + 1 >= raw.len() {
                return Err(refuse_plain("error: -c requires a value", true));
            }
            assert(words[i + 1] == raw@[i + 1]@);
            match parse_usize_str(raw[i + 1].as_str()) {
                Some(v) => {
                    concurrency = v;
                    i = i + 2;
                },
                None => {
                    return Err(refuse("error: invalid concurrency: ", raw[i + 1].as_str(), false));
                },
            }
        } else if str_eq(a, "-q") {
            quiet = true;
            i = i + 1;
        } else if a.as_bytes().len() > 0 && crate::text::chars_of(a)[0] == '-' {
            return Err(refuse("error: unknown option: ", a, true));
        } else if cidr.is_some() {
            return Err(refuse("error: unexpected argument: ", a, true));
        } else {
            cidr = Some(String::from_str(a));
            i = i + 1;
        }
        proof {
            st = ScanOpts {
                cidr: opt_text(&cidr),
                timeout_ms,
                count,
                concurrency,
                quiet,
            };
        }
    }
    match cidr {
        Some(c) => Ok(IpmapArgs { cidr: c, timeout_ms, count, concurrency, quiet }),
        None => Err(refuse_plain("error: CIDR argument required", true)),
    }
}

} // verus!
