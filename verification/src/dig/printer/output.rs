//! Pieces of the long report: calendar dates of signature times, EDNS
//! option lines, extended-error descriptions and YAML quoting.

use vstd::prelude::*;
use vstd::utf8::{decode_utf8, valid_utf8};
use crate::dig::dns::{u16_at, EdnsOption};
use crate::text::{dec, hex_bytes, hex_encode, push_char, push_str, push_u32, push_u64, utf8_text};

verus! {

/// A broken-down UTC time (month and weekday from 0, years since 1970).
pub struct Tm {
    pub tm_wday: usize,
    pub tm_mon: usize,
    pub tm_mday: usize,
    pub tm_hour: usize,
    pub tm_min: usize,
    pub tm_sec: usize,
    pub tm_year: usize,
}

/// Gregorian leap year.
pub open spec fn is_leap_spec(y: int) -> bool {
    (y % 4 == 0 && y % 100 != 0) || y % 400 == 0
}

pub fn is_leap(y: i32) -> (b: bool)
    ensures
        b == is_leap_spec(y as int),
{
    (y % 4 == 0 && y % 100 != 0) || (y % 400 == 0)
}

/// Days in a year.
pub open spec fn year_days(y: int) -> nat {
    if is_leap_spec(y) {
        366
    } else {
        365
    }
}

/// The year that day `days` (counted from the start of `year`) falls in,
/// and the day within that year.
pub open spec fn year_of(days: nat, year: int) -> (int, nat)
    decreases days,
{
    if days < year_days(year) {
        (year, days)
    } else {
        year_of((days - year_days(year)) as nat, year + 1)
    }
}

proof fn lemma_year_of_grows(days: nat, year: int)
    ensures
        year_of(days, year).0 >= year,
        year_of(days, year).1 < year_days(year_of(days, year).0),
    decreases days,
{
    if days >= year_days(year) {
        lemma_year_of_grows((days - year_days(year)) as nat, year + 1);
    }
}

/// Days of the year before month `i` (from 0).
pub open spec fn cum_days(leap: bool, i: int) -> nat {
    if i <= 0 {
        0
    } else if i == 1 {
        31
    } else {
        let extra: nat = if leap { 1 } else { 0 };
        let ends: Seq<nat> = seq![59, 90, 120, 151, 181, 212, 243, 273, 304, 334];
        if i <= 11 {
            ends[i - 2] + extra
        } else {
            366
        }
    }
}

/// The first month from `i` on whose successor starts after day `d`.
pub open spec fn month_from(d: nat, leap: bool, i: int) -> int
    decreases 12 - i,
{
    if i >= 12 {
        0
    } else if d < cum_days(leap, i + 1) {
        i
    } else {
        month_from(d, leap, i + 1)
    }
}

proof fn lemma_month_from(d: nat, leap: bool, i: int)
    requires
        0 <= i < 12,
        d < 366,
        cum_days(leap, i) <= d,
    ensures
        i <= month_from(d, leap, i) < 12,
        cum_days(leap, month_from(d, leap, i)) <= d,
    decreases 12 - i,
{
    if d >= cum_days(leap, i + 1) {
        assert(i + 1 < 12);
        lemma_month_from(d, leap, i + 1);
    }
}

/// The broken-down time of `secs` seconds after the epoch. The weekday is
/// computed from the seconds within the minute, divided by a day's length.
pub open spec fn tm_spec(secs: u64) -> Tm {
    let tod = secs % 86400;
    let (year, d) = year_of((secs / 86400) as nat, 1970);
    let leap = is_leap_spec(year);
    let month = month_from(d, leap, 0);
    Tm {
        tm_wday: ((4 + ((tod % 60) / 86400) % 7) % 7) as usize,
        tm_mon: month as usize,
        tm_mday: (d - cum_days(leap, month) + 1) as usize,
        tm_hour: (tod / 3600) as usize,
        tm_min: ((tod % 3600) / 60) as usize,
        tm_sec: (tod % 60) as usize,
        tm_year: (year - 1970) as usize,
    }
}

fn cum_days_exec(leap: bool, i: usize) -> (r: u64)
    requires
        i <= 12,
    ensures
        r == cum_days(leap, i as int),
{
    let feb: u64 = if leap { 1 } else { 0 };
    match i {
        0 => 0,
        1 => 31,
        2 => 59 + feb,
        3 => 90 + feb,
        4 => 120 + feb,
        5 => 151 + feb,
        6 => 181 + feb,
        7 => 212 + feb,
        8 => 243 + feb,
        9 => 273 + feb,
        10 => 304 + feb,
        11 => 334 + feb,
        _ => 366,
    }
}

/// Splits seconds since the epoch into a UTC calendar time. Inputs whose
/// year does not fit an `i32` are left out.
pub fn epoch_secs_to_tm(secs: u64) -> (t: Tm)
    requires
        year_of((secs / 86400) as nat, 1970).0 < i32::MAX,
    ensures
        t == tm_spec(secs),
{
    let mut days = secs / 86400;
    let time_of_day = secs % 86400;
    let hours = time_of_day / 3600;
    let mins = (time_of_day % 3600) / 60;
    let sec = time_of_day % 60;
    let ghost target = year_of((secs / 86400) as nat, 1970);
    let mut year: i32 = 1970;
    proof { lemma_year_of_grows(days as nat, 1970); }
    loop
        invariant
            year_of(days as nat, year as int) == target,
            target.0 < i32::MAX,
            year as int <= target.0,
        ensures
            year_of(days as nat, year as int) == target,
            days < year_days(year as int),
        decreases days,
    {
        let leap_year = is_leap(year);
        let days_in_year: u64 = if leap_year { 366 } else { 365 };
        if days < days_in_year {
            break;
        }
        days = days - days_in_year;
        proof { lemma_year_of_grows(days as nat, year + 1); }
        year = year + 1;
    }
    assert(target == (year as int, days as nat));
    proof { lemma_year_of_grows((secs / 86400) as nat, 1970); }
    let leap = is_leap(year);
    let mut month: usize = 0;
    let mut i: usize = 0;
    let mut found = false;
    while i < 12 && !found
        invariant
            i <= 12,
            !found ==> month_from(days as nat, leap, i as int) == month_from(days as nat, leap, 0),
            !found ==> month == 0,
            found ==> month == month_from(days as nat, leap, 0),
        decreases 12 - i + (if found { 0int } else { 1int }),
    {
        let next = cum_days_exec(leap, i + 1);
        if days < next {
            month = i;
            found = true;
        } else {
            i = i + 1;
        }
    }
    assert(month == month_from(days as nat, leap, 0));
    proof { lemma_month_from(days as nat, leap, 0); }
    let day_of_month = days - cum_days_exec(leap, month) + 1;
    let day_of_week = ((4 + (sec / 86400) % 7) as usize) % 7;
    Tm {
        tm_wday: day_of_week,
        tm_mon: month,
        tm_mday: day_of_month as usize,
        tm_hour: hours as usize,
        tm_min: mins as usize,
        tm_sec: sec as usize,
        tm_year: (year - 1970) as usize,
    }
}

/// Three-letter weekday names from Sunday; "???" past Saturday.
pub open spec fn weekday_text(d: usize) -> Seq<char> {
    if d == 0 {
        "Sun"@
    } else if d == 1 {
        "Mon"@
    } else if d == 2 {
        "Tue"@
    } else if d == 3 {
        "Wed"@
    } else if d == 4 {
        "Thu"@
    } else if d == 5 {
        "Fri"@
    } else if d == 6 {
        "Sat"@
    } else {
        "???"@
    }
}

pub fn format_weekday(d: usize) -> (r: &'static str)
    ensures
        r@ == weekday_text(d),
{
    match d {
        0 => "Sun",
        1 => "Mon",
        2 => "Tue",
        3 => "Wed",
        4 => "Thu",
        5 => "Fri",
        6 => "Sat",
        _ => "???",
    }
}

/// Three-letter month names from January; "???" past December.
pub open spec fn month_text(m: usize) -> Seq<char> {
    let names: Seq<Seq<char>> = seq![
        "Jan"@, "Feb"@, "Mar"@, "Apr"@, "May"@, "Jun"@, "Jul"@, "Aug"@, "Sep"@, "Oct"@, "Nov"@, "Dec"@,
    ];
    if m < 12 {
        names[m as int]
    } else {
        "???"@
    }
}

pub fn format_month(m: usize) -> (r: &'static str)
    ensures
        r@ == month_text(m),
{
    match m {
        0 => "Jan",
        1 => "Feb",
        2 => "Mar",
        3 => "Apr",
        4 => "May",
        5 => "Jun",
        6 => "Jul",
        7 => "Aug",
        8 => "Sep",
        9 => "Oct",
        10 => "Nov",
        11 => "Dec",
        _ => "???",
    }
}

/// The description of an extended DNS error code (RFC 8914).
pub open spec fn ede_description(code: u16) -> Seq<char> {
    let names: Seq<Seq<char>> = seq![
        "Other"@,
        "Unsupported DNSKEY Algorithm"@,
        "Unsupported DS Digest Type"@,
        "Stale Answer"@,
        "Forged Answer"@,
        "DNSSEC Indeterminate"@,
        "DNSSEC Bogus"@,
        "Signature Expired"@,
        "Signature Not Yet Valid"@,
        "DNSKEY Missing"@,
        "RRSIGs Missing"@,
        "No Zone Key Bit Set"@,
        "NSEC Missing"@,
        "Cached Error"@,
        "Not Ready"@,
        "Blocked"@,
        "Censored"@,
        "Filtered"@,
        "Prohibited"@,
        "Stale NXDOMAIN Answer"@,
        "Bogus NXDOMAIN"@,
        "Not Authoritative"@,
        "Not Supported"@,
        "No Reachable Authority"@,
        "Network Error"@,
        "Invalid Data"@,
    ];
    if code < 26 {
        names[code as int]
    } else {
        "Unknown"@
    }
}

pub fn ede_text(code: u16) -> (r: &'static str)
    ensures
        r@ == ede_description(code),
{
    match code {
        0 => "Other",
        1 => "Unsupported DNSKEY Algorithm",
        2 => "Unsupported DS Digest Type",
        3 => "Stale Answer",
        4 => "Forged Answer",
        5 => "DNSSEC Indeterminate",
        6 => "DNSSEC Bogus",
        7 => "Signature Expired",
        8 => "Signature Not Yet Valid",
        9 => "DNSKEY Missing",
        10 => "RRSIGs Missing",
        11 => "No Zone Key Bit Set",
        12 => "NSEC Missing",
        13 => "Cached Error",
        14 => "Not Ready",
        15 => "Blocked",
        16 => "Censored",
        17 => "Filtered",
        18 => "Prohibited",
        19 => "Stale NXDOMAIN Answer",
        20 => "Bogus NXDOMAIN",
        21 => "Not Authoritative",
        22 => "Not Supported",
        23 => "No Reachable Authority",
        24 => "Network Error",
        25 => "Invalid Data",
        _ => "Unknown",
    }
}

/// A text with every single quote doubled.
pub open spec fn yaml_quoted(s: Seq<char>) -> Seq<char>
    decreases s.len(),
{
    if s.len() == 0 {
        Seq::empty()
    } else {
        yaml_quoted(s.drop_last()) + (if s.last() == '\'' { "''"@ } else { seq![s.last()] })
    }
}

/// Escapes a text for a single-quoted YAML scalar.
pub fn yaml_single_quote_escape(s: &str) -> (r: String)
    ensures
        r@ == yaml_quoted(s@),
{
    let v = crate::text::chars_of(s);
    let mut out = String::new();
    let mut i: usize = 0;
    assert(v@.take(0) =~= Seq::<char>::empty());
    while i < v.len()
        invariant
            i <= v@.len(),
            v@ == s@,
            out@ == yaml_quoted(v@.take(i as int)),
        decreases v@.len() - i,
    {
        assert(v@.take(i + 1).drop_last() =~= v@.take(i as int));
        let c = v[i];
        if c == '\'' {
            push_str(&mut out, "''");
        } else {
            push_char(&mut out, c);
        }
        i = i + 1;
    }
    assert(v@.take(v@.len() as int) =~= v@);
    out
}

/// An extended error's code, description and, when there is more, its
/// text (hexadecimal when it is not UTF-8).
pub open spec fn ede_detail(data: Seq<u8>) -> Seq<char> {
    let c = u16_at(data, 0);
    let extra = data.subrange(2, data.len() as int);
    dec(c as nat) + " ("@ + ede_description(c) + ")"@ + (if data.len() > 2 {
        ": "@ + (if valid_utf8(extra) { decode_utf8(extra) } else { hex_bytes(extra) })
    } else {
        Seq::empty()
    })
}

/// The line of an EDNS option: NSID, cookie, client subnet and unknown
/// options as hexadecimal; an extended error as its code, description and
/// text (hexadecimal when not UTF-8); TCP keepalive as its timeouts;
/// padding as its length.
pub open spec fn edns_option_text(code: u16, data: Seq<u8>) -> Seq<char> {
    if code == 3 {
        "; NSID: "@ + hex_bytes(data) + "\n"@
    } else if code == 10 {
        "; COOKIE: "@ + hex_bytes(data) + "\n"@
    } else if code == 15 {
        "; EDE: "@ + (if data.len() >= 2 {
            ede_detail(data)
        } else {
            hex_bytes(data)
        }) + "\n"@
    } else if code == 8 {
        "; CLIENT-SUBNET: "@ + hex_bytes(data) + "\n"@
    } else if code == 11 {
        "; TCP-KEEPALIVE: "@ + (if data.len() >= 2 {
            dec(u16_at(data, 0) as nat) + (if data.len() >= 4 {
                " "@ + dec(u16_at(data, 2) as nat)
            } else {
                Seq::empty()
            })
        } else {
            Seq::empty()
        }) + "\n"@
    } else if code == 12 {
        "; PADDING: "@ + dec(data.len()) + " bytes\n"@
    } else {
        "; OPTION"@ + dec(code as nat) + ": "@ + hex_bytes(data) + "\n"@
    }
}

fn push_hex(out: &mut String, b: &[u8])
    ensures
        final(out)@ == old(out)@ + hex_bytes(b@),
{
    let h = hex_encode(b);
    push_str(out, h.as_str());
}

fn tail_bytes(b: &Vec<u8>, from: usize) -> (t: Vec<u8>)
    requires
        from <= b@.len(),
    ensures
        t@ == b@.subrange(from as int, b@.len() as int),
{
    let mut t: Vec<u8> = Vec::new();
    let mut i = from;
    while i < b.len()
        invariant
            from <= i <= b@.len(),
            t@ == b@.subrange(from as int, i as int),
        decreases b@.len() - i,
    {
        t.push(b[i]);
        i = i + 1;
    }
    t
}

fn push_ede(out: &mut String, data: &Vec<u8>)
    requires
        data@.len() >= 2,
    ensures
        final(out)@ == old(out)@ + ede_detail(data@),
{
    let code: u16 = (data[0] as u16) * 256 + data[1] as u16;
    let ghost o = out@;
    push_u32(out, code as u32);
    push_str(out, " (");
    push_str(out, ede_text(code));
    push_str(out, ")");
    let ghost o1 = out@;
    if data.len() > 2 {
        push_str(out, ": ");
        let extra = tail_bytes(data, 2);
        match utf8_text(extra.as_slice()) {
            Some(s) => push_str(out, s.as_str()),
            None => push_hex(out, extra.as_slice()),
        }
    }
}

/// Appends the line of one EDNS option (see `edns_option_text`).
pub fn print_edns_option(out: &mut String, opt: &EdnsOption)
    ensures
        final(out)@ == old(out)@ + edns_option_text(opt.code, opt.data@),
{
    let ghost o = out@;
    match opt.code {
        3 => {
            push_str(out, "; NSID: ");
            push_hex(out, opt.data.as_slice());
            push_str(out, "\n");
        },
        10 => {
            push_str(out, "; COOKIE: ");
            push_hex(out, opt.data.as_slice());
            push_str(out, "\n");
        },
        15 => {
            push_str(out, "; EDE: ");
            if opt.data.len() >= 2 {
                push_ede(out, &opt.data);
            } else {
                push_hex(out, opt.data.as_slice());
            }
            push_str(out, "\n");
        },
        8 => {
            push_str(out, "; CLIENT-SUBNET: ");
            push_hex(out, opt.data.as_slice());
            push_str(out, "\n");
        },
        11 => {
            push_str(out, "; TCP-KEEPALIVE: ");
            if opt.data.len() >= 2 {
                let timeout: u16 = (opt.data[0] as u16) * 256 + opt.data[1] as u16;
                push_u32(out, timeout as u32);
                if opt.data.len() >= 4 {
                    let idle: u16 = (opt.data[2] as u16) * 256 + opt.data[3] as u16;
                    push_str(out, " ");
                    push_u32(out, idle as u32);
                }
            }
            push_str(out, "\n");
        },
        12 => {
            push_str(out, "; PADDING: ");
            push_u64(out, opt.data.len() as u64);
            push_str(out, " bytes\n");
        },
        _ => {
            push_str(out, "; OPTION");
            push_u32(out, opt.code as u32);
            push_str(out, ": ");
            push_hex(out, opt.data.as_slice());
            push_str(out, "\n");
        },
    }
    assert(out@ =~= o + edns_option_text(opt.code, opt.data@));
}

} // verus!
