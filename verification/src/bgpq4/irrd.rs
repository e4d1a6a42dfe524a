//! The IRRd whois protocol: what its answer lines mean and how a data
//! block splits into items. The connection itself is driven from outside
//! the library.

use vstd::prelude::*;
use vstd::string::*;
use crate::text::{
    lossy_text, utf8_lossy,
    chars_of, is_white, is_white_exec, parse_usize_range, parse_usize_spec, string_from_chars,
    trim_at, trim_spec,
};

verus! {

#[derive(Debug, PartialEq)]
pub enum IrrdResponse {
    Data(Vec<String>),
    Empty,
    NotFound,
    MultipleKeys,
    Error(String),
}

/// What the first line of an answer announces.
#[derive(Debug)]
pub enum ResponseHead {
    /// A data block of this many bytes follows.
    Data(usize),
    Empty,
    NotFound,
    MultipleKeys,
    Error(String),
}

/// Why an answer line is refused.
#[derive(Debug, Clone, Copy, PartialEq, Eq, Structural)]
pub enum HeadError {
    BadByteCount,
    Unexpected,
}

/// Length of `s` once trailing '\r' and '\n' are removed.
pub open spec fn crlf_len(s: Seq<char>) -> nat
    decreases s.len(),
{
    if s.len() > 0 && (s.last() == '\r' || s.last() == '\n') {
        crlf_len(s.drop_last())
    } else {
        s.len()
    }
}

/// The code line of an answer: the line without its trailing '\r'/'\n'.
pub open spec fn code_of(line: Seq<char>) -> Seq<char> {
    line.subrange(0, crlf_len(line) as int)
}

/// What an answer line announces: "A<count>" a data block, "C" success
/// without data, "D" key not found, "E" multiple keys, "F<text>" an error;
/// anything else is unexpected.
pub open spec fn head_spec(line: Seq<char>) -> Result<(u8, usize, Seq<char>), HeadError> {
    let code = code_of(line);
    if code.len() == 0 {
        Err(HeadError::Unexpected)
    } else if code[0] == 'A' {
        match parse_usize_spec(trim_spec(code.subrange(1, code.len() as int))) {
            Some(n) => Ok((0u8, n, Seq::empty())),
            None => Err(HeadError::BadByteCount),
        }
    } else if code[0] == 'C' {
        Ok((1u8, 0usize, Seq::empty()))
    } else if code[0] == 'D' {
        Ok((2u8, 0usize, Seq::empty()))
    } else if code[0] == 'E' {
        Ok((3u8, 0usize, Seq::empty()))
    } else if code[0] == 'F' {
        Ok((4u8, 0usize, trim_spec(code.subrange(1, code.len() as int))))
    } else {
        Err(HeadError::Unexpected)
    }
}

/// The announced head matches its meaning, given as a tag (0 data with
/// its byte count, 1 empty, 2 not found, 3 multiple keys, 4 error with its
/// text).
pub open spec fn head_matches(h: ResponseHead, s: (u8, usize, Seq<char>)) -> bool {
    match h {
        ResponseHead::Data(n) => s.0 == 0 && s.1 == n,
        ResponseHead::Empty => s.0 == 1,
        ResponseHead::NotFound => s.0 == 2,
        ResponseHead::MultipleKeys => s.0 == 3,
        ResponseHead::Error(t) => s.0 == 4 && t@ == s.2,
    }
}

fn take_chars(v: &Vec<char>, lo: usize, hi: usize) -> (a: Vec<char>)
    requires
        lo <= hi <= v@.len(),
    ensures
        a@ == v@.subrange(lo as int, hi as int),
{
    let mut a: Vec<char> = Vec::new();
    let mut i: usize = lo;
    while i < hi
        invariant
            lo <= i <= hi <= v@.len(),
            a@ == v@.subrange(lo as int, i as int),
        decreases hi - i,
    {
        a.push(v[i]);
        i = i + 1;
        assert(a@ =~= v@.subrange(lo as int, i as int));
    }
    a
}

/// Reads the first line of an answer (see `head_spec`).
pub fn response_head(line: &str) -> (r: Result<ResponseHead, HeadError>)
    ensures
        match (r, head_spec(line@)) {
            (Ok(h), Ok(s)) => head_matches(h, s),
            (Err(e), Err(f)) => e == f,
            _ => false,
        },
{
    let v = chars_of(line);
    let mut n = v.len();
    assert(v@.subrange(0, n as int) =~= line@);
    while n > 0 && (v[n - 1] == '\r' || v[n - 1] == '\n')
        invariant
            n <= v@.len(),
            crlf_len(v@.subrange(0, n as int)) == crlf_len(line@),
            v@ == line@,
        decreases n,
    {
        assert(v@.subrange(0, n as int).drop_last() =~= v@.subrange(0, n - 1));
        n = n - 1;
    }
    proof {
        assert(v@ =~= v@.subrange(0, v@.len() as int));
        if n > 0 {
            assert(v@.subrange(0, n as int).last() == v@[n - 1]);
        }
        assert(code_of(line@) =~= v@.subrange(0, n as int));
    }
    if n == 0 {
        return Err(HeadError::Unexpected);
    }
    let c = v[0];
    if c == 'A' {
        let (b, e) = trim_at(&v, 1, n);
        proof {
            assert(v@.subrange(1, n as int) =~= code_of(line@).subrange(1, code_of(line@).len() as int));
        }
        match parse_usize_range(&v, b, e) {
            Some(count) => Ok(ResponseHead::Data(count)),
            None => Err(HeadError::BadByteCount),
        }
    } else if c == 'C' {
        Ok(ResponseHead::Empty)
    } else if c == 'D' {
        Ok(ResponseHead::NotFound)
    } else if c == 'E' {
        Ok(ResponseHead::MultipleKeys)
    } else if c == 'F' {
        let (b, e) = trim_at(&v, 1, n);
        proof {
            assert(v@.subrange(1, n as int) =~= code_of(line@).subrange(1, code_of(line@).len() as int));
        }
        let t = take_chars(&v, b, e);
        Ok(ResponseHead::Error(string_from_chars(t.as_slice())))
    } else {
        Err(HeadError::Unexpected)
    }
}

/// End of the run of non-white characters starting at `p`.
pub open spec fn word_end(s: Seq<char>, p: int) -> int
    decreases s.len() - p,
{
    if p < 0 || p >= s.len() || is_white(s[p]) { p } else { word_end(s, p + 1) }
}

/// End of the run of white characters starting at `p`.
pub open spec fn white_end(s: Seq<char>, p: int) -> int
    decreases s.len() - p,
{
    if p < 0 || p >= s.len() || !is_white(s[p]) { p } else { white_end(s, p + 1) }
}

/// The white-space separated words of `s` from position `p`
/// (`str::split_whitespace`).
pub open spec fn words_from(s: Seq<char>, p: int) -> Seq<Seq<char>>
    decreases s.len() - p, 1int,
{
    if p < 0 || p >= s.len() {
        Seq::empty()
    } else if is_white(s[p]) {
        words_from_skip(s, p)
    } else {
        let e = word_end(s, p);
        if e <= p || e > s.len() { Seq::empty() } else { seq![s.subrange(p, e)] + words_from(s, e) }
    }
}

pub open spec fn words_from_skip(s: Seq<char>, p: int) -> Seq<Seq<char>>
    decreases s.len() - p, 0int,
{
    let w = white_end(s, p);
    if 0 <= p < w <= s.len() { words_from(s, w) } else { Seq::empty() }
}

proof fn lemma_word_end(s: Seq<char>, p: int)
    requires
        0 <= p <= s.len(),
    ensures
        p <= word_end(s, p) <= s.len(),
    decreases s.len() - p,
{
    if p < s.len() && !is_white(s[p]) {
        lemma_word_end(s, p + 1);
    }
}

proof fn lemma_white_end(s: Seq<char>, p: int)
    requires
        0 <= p <= s.len(),
    ensures
        p <= white_end(s, p) <= s.len(),
    decreases s.len() - p,
{
    if p < s.len() && is_white(s[p]) {
        lemma_white_end(s, p + 1);
    }
}

/// The white-space separated items of a data block.
pub fn data_items(text: &str) -> (r: Vec<String>)
    ensures
        r@.map_values(|x: String| x@) == words_from(text@, 0),
{
    let v = chars_of(text);
    let n = v.len();
    let mut out: Vec<String> = Vec::new();
    let mut p: usize = 0;
    while p < n
        invariant
            p <= n,
            n == v@.len(),
            v@ == text@,
            out@.map_values(|x: String| x@) + words_from(v@, p as int) == words_from(v@, 0),
        decreases n - p,
    {
        let ghost before = out@.map_values(|x: String| x@);
        if is_white_exec(v[p]) {
            let mut w = p;
            while w < n && is_white_exec(v[w])
                invariant
                    p <= w <= n,
                    n == v@.len(),
                    white_end(v@, w as int) == white_end(v@, p as int),
                decreases n - w,
            {
                w = w + 1;
            }
            proof {
                lemma_white_end(v@, p as int);
                lemma_white_end(v@, p + 1);
                assert(is_white(v@[p as int]));
                assert(white_end(v@, p as int) == white_end(v@, p + 1));
                assert(white_end(v@, w as int) == w as int);
                assert(words_from(v@, p as int) == words_from_skip(v@, p as int));
                assert(words_from_skip(v@, p as int) == words_from(v@, white_end(v@, p as int)));
                assert(words_from(v@, p as int) == words_from(v@, w as int));
            }
            p = w;
        } else {
            let mut e = p;
            while e < n && !is_white_exec(v[e])
                invariant
                    p <= e <= n,
                    n == v@.len(),
                    word_end(v@, e as int) == word_end(v@, p as int),
                decreases n - e,
            {
                e = e + 1;
            }
            proof {
                lemma_word_end(v@, p as int);
                assert(word_end(v@, e as int) == e as int);
            }
            let w = take_chars(&v, p, e);
            out.push(string_from_chars(w.as_slice()));
            assert(out@.map_values(|x: String| x@) =~= before.push(v@.subrange(p as int, e as int)));
            assert(words_from(v@, p as int) == seq![v@.subrange(p as int, e as int)] + words_from(v@, e as int));
            assert(out@.map_values(|x: String| x@) + words_from(v@, e as int)
                =~= before + words_from(v@, p as int));
            p = e;
        }
    }
    assert(words_from(v@, n as int).len() == 0);
    assert(out@.map_values(|x: String| x@) =~= words_from(v@, 0));
    out
}

/// The items of a data block read as bytes.
pub fn response_items(data: &[u8]) -> (r: Vec<String>)
    ensures
        r@.map_values(|x: String| x@) == words_from(utf8_lossy(data@), 0),
{
    let t = lossy_text(data);
    data_items(t.as_str())
}

/// A `!s` (set sources) answer accepts the sources: it starts with 'C'
/// once trimmed.
pub fn sources_accepted(resp: &str) -> (b: bool)
    ensures
        b == (trim_spec(resp@).len() > 0 && trim_spec(resp@)[0] == 'C'),
{
    let v = chars_of(resp);
    let (b, e) = trim_at(&v, 0, v.len());
    assert(v@.subrange(0, v@.len() as int) =~= v@);
    if b < e {
        assert(trim_spec(resp@)[0] == v@[b as int]);
    }
    b < e && v[b] == 'C'
}

/// The byte count of a `!s-lc` answer ("A<count>" once trimmed; a count
/// that is not a number reads as 0), or `None` when it is no data answer.
pub fn sources_list_count(resp: &str) -> (r: Option<usize>)
    ensures
        r == (if trim_spec(resp@).len() > 0 && trim_spec(resp@)[0] == 'A' {
            Some(match parse_usize_spec(trim_spec(resp@).subrange(1, trim_spec(resp@).len() as int)) {
                Some(n) => n,
                None => 0,
            })
        } else {
            None
        }),
{
    let v = chars_of(resp);
    let (b, e) = trim_at(&v, 0, v.len());
    assert(v@.subrange(0, v@.len() as int) =~= v@);
    if !(b < e && v[b] == 'A') {
        return None;
    }
    assert(v@.subrange(b + 1, e as int) =~= trim_spec(resp@).subrange(1, trim_spec(resp@).len() as int));
    match parse_usize_range(&v, b + 1, e) {
        Some(n) => Some(n),
        None => Some(0),
    }
}

/// The answer to a bare `!a` shows that the server knows `!a` queries.
pub fn a_query_supported(resp: &str) -> (b: bool)
    ensures
        b == (resp@.len() >= "F Missing required set name"@.len()
            && resp@.subrange(0, "F Missing required set name"@.len() as int) == "F Missing required set name"@),
{
    let v = chars_of(resp);
    let pat = chars_of("F Missing required set name");
    if v.len() < pat.len() {
        return false;
    }
    let mut i: usize = 0;
    while i < pat.len()
        invariant
            i <= pat@.len() <= v@.len(),
            v@ == resp@,
            pat@ == "F Missing required set name"@,
            v@.subrange(0, i as int) == pat@.subrange(0, i as int),
        decreases pat@.len() - i,
    {
        if v[i] != pat[i] {
            assert(v@.subrange(0, pat@.len() as int)[i as int] != pat@[i as int]);
            return false;
        }
        i = i + 1;
        assert(v@.subrange(0, i as int) =~= pat@.subrange(0, i as int)) by {
            assert forall|k: int| 0 <= k < i implies v@.subrange(0, i as int)[k] == pat@.subrange(0, i as int)[k] by {
                if k < i - 1 {
                    assert(v@.subrange(0, i - 1)[k] == pat@.subrange(0, i - 1)[k]);
                }
            }
        }
    }
    assert(pat@.subrange(0, pat@.len() as int) =~= pat@);
    true
}

} // verus!
