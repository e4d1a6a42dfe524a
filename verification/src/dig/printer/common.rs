//! Column layout of presentation-format records: tabs and spaces up to the
//! owner, TTL, class, type and data columns.

use vstd::prelude::*;
use vstd::string::*;
use vstd::utf8::{decode_utf8, encode_utf8, is_continuation_byte};
use crate::text::{push_char, push_str};

verus! {

pub const TAB_WIDTH: usize = 8;
pub const TTL_COL: usize = 24;
pub const CLASS_COL: usize = 32;
pub const TYPE_COL: usize = 40;
pub const RDATA_COL: usize = 48;
pub const LINE_LEN: usize = 80;

/// `n` copies of `c`.
pub open spec fn repeat_char(c: char, n: nat) -> Seq<char> {
    Seq::new(n, |i: int| c)
}

/// Tabs, then spaces, taking a line from column `from` to column `to`
/// (nothing when `to` is not past `from`).
pub open spec fn indent_text(from: nat, to: nat) -> Seq<char> {
    if to <= from {
        Seq::empty()
    } else {
        let ntabs: nat = if to / 8 >= from / 8 { (to / 8 - from / 8) as nat } else { 0 };
        let tabs_end: nat = (from / 8 + ntabs) * 8;
        repeat_char('\t', ntabs) + (if to > tabs_end { repeat_char(' ', (to - tabs_end) as nat) } else { Seq::empty() })
    }
}

/// The column after one more character: a newline goes back to 0, a tab to
/// the next multiple of 8, anything else one further.
pub open spec fn step_col(col: nat, c: char) -> nat {
    if c == '\n' { 0 } else if c == '\t' { (col / 8 + 1) * 8 } else { col + 1 }
}

/// The column at the end of a text.
pub open spec fn column_after(s: Seq<char>) -> nat
    decreases s.len(),
{
    if s.len() == 0 { 0 } else { step_col(column_after(s.drop_last()), s.last()) }
}

/// The column after a text that starts at column `c`.
pub open spec fn column_from(c: nat, s: Seq<char>) -> nat
    decreases s.len(),
{
    if s.len() == 0 { c } else { step_col(column_from(c, s.drop_last()), s.last()) }
}

proof fn lemma_column_from_zero(s: Seq<char>)
    ensures
        column_after(s) == column_from(0, s),
    decreases s.len(),
{
    if s.len() > 0 {
        lemma_column_from_zero(s.drop_last());
    }
}

proof fn lemma_column_from_concat(a: Seq<char>, b: Seq<char>)
    ensures
        column_after(a + b) == column_from(column_after(a), b),
    decreases b.len(),
{
    if b.len() == 0 {
        assert(a + b =~= a);
    } else {
        assert((a + b).drop_last() =~= a + b.drop_last());
        assert((a + b).last() == b.last());
        lemma_column_from_concat(a, b.drop_last());
    }
}

proof fn lemma_column_from_newline(c1: nat, c2: nat, b: Seq<char>)
    requires
        b.contains('\n'),
    ensures
        column_from(c1, b) == column_from(c2, b),
    decreases b.len(),
{
    if b.last() != '\n' {
        let k = choose|k: int| 0 <= k < b.len() && b[k] == '\n';
        assert(b.drop_last()[k] == '\n');
        lemma_column_from_newline(c1, c2, b.drop_last());
    }
}

/// The column after `a + b`: the column after `b` alone when `b` holds a
/// newline, else `b`'s characters stepped on from the column after `a`.
pub proof fn lemma_column_after_concat(a: Seq<char>, b: Seq<char>)
    ensures
        column_after(a + b) == if b.contains('\n') { column_after(b) } else { column_from(column_after(a), b) },
{
    lemma_column_from_concat(a, b);
    if b.contains('\n') {
        lemma_column_from_zero(b);
        lemma_column_from_newline(column_after(a), 0, b);
    }
}

pub proof fn lemma_column_bound(s: Seq<char>)
    ensures
        column_after(s) <= 8 * s.len(),
    decreases s.len(),
{
    if s.len() > 0 {
        lemma_column_bound(s.drop_last());
    }
}

fn push_repeat(out: &mut String, c: char, n: usize)
    ensures
        final(out)@ == old(out)@ + repeat_char(c, n as nat),
{
    let ghost start = out@;
    let mut i: usize = 0;
    while i < n
        invariant
            i <= n,
            out@ == start + repeat_char(c, i as nat),
        decreases n - i,
    {
        push_char(out, c);
        i = i + 1;
        assert(out@ =~= start + repeat_char(c, i as nat));
    }
}

/// Pads from column `from` to column `to`.
pub fn indent(out: &mut String, from: usize, to: usize)
    ensures
        final(out)@ == old(out)@ + indent_text(from as nat, to as nat),
{
    if to <= from {
        assert(final(out)@ =~= old(out)@ + indent_text(from as nat, to as nat));
        return;
    }
    let ntabs: usize = if to / TAB_WIDTH >= from / TAB_WIDTH { to / TAB_WIDTH - from / TAB_WIDTH } else { 0 };
    push_repeat(out, '\t', ntabs);
    let tabs_end: usize = (from / TAB_WIDTH + ntabs) * TAB_WIDTH;
    if to > tabs_end {
        push_repeat(out, ' ', to - tabs_end);
    }
    assert(final(out)@ =~= old(out)@ + indent_text(from as nat, to as nat));
}

pub fn indent_to(out: &mut String, current_len: usize, col: usize)
    ensures
        final(out)@ == old(out)@ + indent_text(current_len as nat, col as nat),
{
    indent(out, current_len, col);
}

/// The column at the end of `s` (see `column_after`).
pub fn current_column(s: &str) -> (col: usize)
    requires
        8 * s@.len() <= usize::MAX,
    ensures
        col == column_after(s@),
{
    let n = s.unicode_len();
    let mut col: usize = 0;
    let mut i: usize = 0;
    while i < n
        invariant
            i <= n,
            n == s@.len(),
            8 * s@.len() <= usize::MAX,
            col == column_after(s@.take(i as int)),
        decreases n - i,
    {
        let ch = s.get_char(i);
        proof {
            assert(s@.take(i + 1).drop_last() =~= s@.take(i as int));
            lemma_column_bound(s@.take(i as int));
        }
        if ch == '\n' {
            col = 0;
        } else if ch == '\t' {
            col = (col / TAB_WIDTH + 1) * TAB_WIDTH;
        } else {
            col = col + 1;
        }
        i = i + 1;
    }
    assert(s@.take(n as int) =~= s@);
    col
}

/// Appends the owner name and pads to the data column.
pub fn add_owner(out: &mut String, name: &str)
    requires
        8 * (old(out)@.len() + name@.len()) <= usize::MAX,
    ensures
        final(out)@ == old(out)@ + name@ + indent_text(column_after(old(out)@ + name@), RDATA_COL as nat),
{
    push_str(out, name);
    let col = current_column(out.as_str());
    indent_to(out, col, RDATA_COL);
}

/// The data of a record cut into lines of `m` bytes from byte `pos`, each
/// line after the first indented to the data column.
pub open spec fn chunk_lines(b: Seq<u8>, m: nat, pos: nat) -> Seq<char>
    decreases b.len() - pos,
{
    if m == 0 || pos >= b.len() {
        Seq::empty()
    } else {
        let end: nat = if pos + m < b.len() { pos + m } else { b.len() };
        (if pos > 0 { indent_text(0, 48) } else { Seq::empty() }) + decode_utf8(b.subrange(pos as int, end as int))
            + seq!['\n'] + chunk_lines(b, m, end)
    }
}

/// Byte `k * m` of `b` (when inside it) starts a character.
pub open spec fn cut_ok(b: Seq<u8>, m: nat, k: nat) -> bool {
    k * m < b.len() ==> !is_continuation_byte(b[(k * m) as int])
}

/// The longest data line: the split width when given, 80 otherwise.
pub open spec fn line_limit(split_width: Option<usize>) -> usize {
    match split_width {
        Some(w) => w,
        None => LINE_LEN,
    }
}

/// Appends the fields of a record line (owner unless omitted, TTL, class,
/// padding to the data column) and its data; a first line longer than the
/// line length is cut into lines of that many bytes.
pub fn add_rdata_line(
    out: &mut String,
    first: bool,
    omit_owner: bool,
    name: &str,
    ttl_str: &str,
    class_str: &str,
    type_str: &str,
    rdata: &str,
    split_width: Option<usize>,
)
    requires
        8 * (old(out)@.len() + name@.len() + ttl_str@.len() + class_str@.len() + 3 * RDATA_COL) <= usize::MAX,
        first && rdata.spec_bytes().len() > line_limit(split_width) ==> {
            &&& line_limit(split_width) > 0
            &&& forall|k: nat| 0 < k ==> #[trigger] cut_ok(rdata.spec_bytes(), line_limit(split_width) as nat, k)
        },
    ensures
        ({
            let o1 = if omit_owner { old(out)@ } else { old(out)@ + name@ + indent_text(column_after(old(out)@ + name@), TTL_COL as nat) };
            let o2 = o1 + ttl_str@;
            let o3 = o2 + indent_text(column_after(o2), CLASS_COL as nat) + class_str@;
            let o4 = o3 + indent_text(column_after(o3), TYPE_COL as nat);
            let o5 = o4 + indent_text(column_after(o4), RDATA_COL as nat);
            final(out)@ == o5 + (if first && rdata.spec_bytes().len() > line_limit(split_width) {
                chunk_lines(rdata.spec_bytes(), line_limit(split_width) as nat, 0)
            } else {
                rdata@ + seq!['\n']
            })
        }),
{
    proof {
        lemma_indent_len(column_after(old(out)@ + name@), TTL_COL as nat);
    }
    if !omit_owner {
        push_str(out, name);
        let c = current_column(out.as_str());
        indent_to(out, c, TTL_COL);
    }
    push_str(out, ttl_str);
    proof { lemma_indent_len(column_after(out@), CLASS_COL as nat); }
    let c = current_column(out.as_str());
    indent_to(out, c, CLASS_COL);
    push_str(out, class_str);
    proof { lemma_indent_len(column_after(out@), TYPE_COL as nat); }
    let c = current_column(out.as_str());
    indent_to(out, c, TYPE_COL);
    proof { lemma_indent_len(column_after(out@), RDATA_COL as nat); }
    let c = current_column(out.as_str());
    indent_to(out, c, RDATA_COL);
    let max_line: usize = match split_width { Some(sw) => sw, None => LINE_LEN };
    if first && rdata.as_bytes().len() > max_line {
        push_chunks(out, rdata, max_line);
    } else {
        push_str(out, rdata);
        push_char(out, '\n');
    }
}

proof fn lemma_indent_len(from: nat, to: nat)
    ensures
        indent_text(from, to).len() <= to,
{
}

fn push_chunks(out: &mut String, rdata: &str, m: usize)
    requires
        m > 0,
        forall|k: nat| 0 < k ==> #[trigger] cut_ok(rdata.spec_bytes(), m as nat, k),
    ensures
        final(out)@ == old(out)@ + chunk_lines(rdata.spec_bytes(), m as nat, 0),
{
    let ghost b = rdata.spec_bytes();
    let ghost start = out@;
    let mut rest: &str = rdata;
    let mut pos: usize = 0;
    let ghost mut k: nat = 0;
    let len = rdata.as_bytes().len();
    assert(b.subrange(0, len as int) =~= b);
    assert(pos == k * m) by (nonlinear_arith)
        requires pos == 0, k == 0;
    while pos < len
        invariant
            m > 0,
            b == rdata.spec_bytes(),
            len == b.len(),
            pos <= len,
            pos < len ==> pos == k * m,
            pos < len ==> rest.spec_bytes() == b.subrange(pos as int, len as int),
            forall|k: nat| 0 < k ==> #[trigger] cut_ok(b, m as nat, k),
            out@ + chunk_lines(b, m as nat, pos as nat) == start + chunk_lines(b, m as nat, 0),
        decreases len - pos,
    {
        let ghost before = out@;
        if pos > 0 {
            indent_to(out, 0, RDATA_COL);
        }
        let rlen = rest.as_bytes().len();
        proof {
            assert(rest.spec_bytes() == encode_utf8(rest@));
            vstd::utf8::encode_utf8_valid_utf8(rest@);
        }
        if rlen <= m {
            assert(rest@ == decode_utf8(b.subrange(pos as int, len as int))) by {
                vstd::utf8::encode_utf8_decode_utf8(rest@);
            }
            push_str(out, rest);
            push_char(out, '\n');
            assert(chunk_lines(b, m as nat, len as nat) == Seq::<char>::empty());
            assert(out@ =~= before + ((if pos > 0 { indent_text(0, 48) } else { Seq::empty() })
                + decode_utf8(b.subrange(pos as int, len as int)) + seq!['\n']));
            pos = len;
        } else {
            proof {
                assert(cut_ok(b, m as nat, k + 1));
                assert((k + 1) * m == pos + m) by (nonlinear_arith)
                    requires pos == k * m;
                vstd::utf8::is_char_boundary_iff_not_is_continuation_byte(rest.spec_bytes(), m as int);
                assert(rest.spec_bytes()[m as int] == b[pos + m]);
            }
            let (chunk, tail) = rest.split_at(m);
            assert(chunk.spec_bytes() =~= b.subrange(pos as int, pos + m));
            assert(chunk@ == decode_utf8(b.subrange(pos as int, pos + m))) by {
                vstd::utf8::encode_utf8_decode_utf8(chunk@);
            }
            push_str(out, chunk);
            push_char(out, '\n');
            assert(out@ =~= before + ((if pos > 0 { indent_text(0, 48) } else { Seq::empty() })
                + decode_utf8(b.subrange(pos as int, pos + m)) + seq!['\n']));
            rest = tail;
            assert(rest.spec_bytes() =~= b.subrange(pos + m, len as int));
            pos = pos + m;
            proof { k = k + 1; }
        }
    }
}

/// Appends the start of a record line: owner, TTL and class unless
/// omitted, type, each padded to its column, then padding to the data
/// column.
pub fn add_rr_start(
    out: &mut String,
    name: &str,
    ttl: u32,
    ttl_str: &str,
    class_str: &str,
    type_str: &str,
    no_ttl: bool,
    no_class: bool,
)
    requires
        8 * (old(out)@.len() + name@.len() + ttl_str@.len() + class_str@.len() + type_str@.len() + 4 * RDATA_COL) <= usize::MAX,
    ensures
        ({
            let o1 = old(out)@ + name@;
            let o2 = if no_ttl { o1 } else { o1 + indent_text(column_after(o1), TTL_COL as nat) + ttl_str@ };
            let o3 = if no_class { o2 } else { o2 + indent_text(column_after(o2), CLASS_COL as nat) + class_str@ };
            let o4 = o3 + indent_text(column_after(o3), TYPE_COL as nat) + type_str@;
            final(out)@ == o4 + indent_text(column_after(o4), RDATA_COL as nat)
        }),
{
    push_str(out, name);
    let name_col = current_column(out.as_str());
    if !no_ttl {
        proof { lemma_indent_len(name_col as nat, TTL_COL as nat); }
        indent_to(out, name_col, TTL_COL);
        push_str(out, ttl_str);
    }
    let ttl_col = current_column(out.as_str());
    if !no_class {
        proof { lemma_indent_len(ttl_col as nat, CLASS_COL as nat); }
        indent_to(out, ttl_col, CLASS_COL);
        push_str(out, class_str);
    }
    let class_col = current_column(out.as_str());
    proof { lemma_indent_len(class_col as nat, TYPE_COL as nat); }
    indent_to(out, class_col, TYPE_COL);
    push_str(out, type_str);
    let c = current_column(out.as_str());
    indent_to(out, c, RDATA_COL);
}

/// Appends a question line: ";" and the name, the class unless omitted
/// and the type, each padded to its column.
pub fn add_question(out: &mut String, name: &str, class_str: &str, type_str: &str, no_class: bool)
    requires
        8 * (old(out)@.len() + 1 + name@.len() + class_str@.len() + type_str@.len() + 3 * RDATA_COL) <= usize::MAX,
    ensures
        ({
            let o1 = old(out)@ + seq![';'] + name@;
            let o2 = if no_class { o1 } else { o1 + indent_text(column_after(o1), CLASS_COL as nat) + class_str@ };
            final(out)@ == o2 + indent_text(column_after(o2), TYPE_COL as nat) + type_str@ + seq!['\n']
        }),
{
    push_char(out, ';');
    push_str(out, name);
    assert(out@ =~= old(out)@ + seq![';'] + name@);
    let name_col = current_column(out.as_str());
    if !no_class {
        proof { lemma_indent_len(name_col as nat, CLASS_COL as nat); }
        indent_to(out, name_col, CLASS_COL);
        push_str(out, class_str);
    }
    let class_col = current_column(out.as_str());
    proof { lemma_indent_len(class_col as nat, TYPE_COL as nat); }
    indent_to(out, class_col, TYPE_COL);
    push_str(out, type_str);
    let ghost before = out@;
    push_char(out, '\n');
    assert(out@ =~= before + seq!['\n']);
}

} // verus!
