//! Taking the SQL out of a string literal, and putting formatted SQL back in the literal's shape.
use vstd::prelude::*;
use vstd::utf8::{valid_utf8, valid_utf8_concat};
use crate::text::{
    is_ascii_bytes, join, lacks, lemma_ascii_valid, lemma_join_valid, lemma_lines_valid,
    lemma_trim_valid, lemma_join_lacks, lemma_lines_lack_lf, lemma_one_line_trim_lacks_lf,
    lemma_trim_lacks, line_count, lines, lines_of, push_all, push_range, push_repeat, repeat, trim,
    trim_end, trim_end_len, trimmed, views, LF, SPACE,
};

verus! {

pub const QUOTE: u8 = 34;

pub const HASH: u8 = 35;

pub const RAW_MARK: u8 = 114;

/// The first index at or after `from` where `s` holds `b`.
pub open spec fn find_byte(s: Seq<u8>, b: u8, from: int) -> Option<int>
    decreases s.len() - from,
{
    if from < 0 || from >= s.len() {
        None
    } else if s[from] == b {
        Some(from)
    } else {
        find_byte(s, b, from + 1)
    }
}

/// The number of delimiter marks of a raw literal: the bytes between its leading `r` and its
/// first quote. `None` where the literal has no quote after its first byte, or is too short
/// to hold a closing quote and as many marks again.
pub open spec fn raw_hashes(lit: Seq<u8>) -> Option<nat> {
    match find_byte(lit, QUOTE, 1) {
        Some(q) => if 2 * q + 1 <= lit.len() {
            Some((q - 1) as nat)
        } else {
            None
        },
        None => None,
    }
}

/// The text of a raw literal with `h` marks, between its opening and its closing delimiter.
pub open spec fn raw_content(lit: Seq<u8>, h: nat) -> Seq<u8> {
    lit.subrange(h + 2 as int, lit.len() - (h + 1))
}

/// The opening delimiter of a raw literal with `h` marks: `r`, the marks, a quote.
pub open spec fn raw_open(h: nat) -> Seq<u8> {
    seq![RAW_MARK] + repeat(HASH, h) + seq![QUOTE]
}

/// The closing delimiter of a raw literal with `h` marks: a quote, then the marks.
pub open spec fn raw_close(h: nat) -> Seq<u8> {
    seq![QUOTE] + repeat(HASH, h)
}

/// `col + extra`, held at the largest `usize`.
pub open spec fn indent_width(col: nat, extra: nat) -> nat {
    if col + extra > usize::MAX {
        usize::MAX as nat
    } else {
        col + extra
    }
}

/// Each line with `n` spaces in front of it.
pub open spec fn indent_lines(ls: Seq<Seq<u8>>, n: nat) -> Seq<Seq<u8>> {
    ls.map_values(|l: Seq<u8>| repeat(SPACE, n) + l)
}

/// A raw literal laid out over several lines: the opening delimiter on a line of its own, each
/// formatted line indented by `col + extra`, trailing blank space removed, and the closing
/// delimiter on a line of its own at column `col`.
pub open spec fn raw_multi_line(h: nat, col: nat, extra: nat, f: Seq<u8>) -> Seq<u8> {
    raw_open(h) + seq![LF] + trim_end(
        join(indent_lines(lines(f), indent_width(col, extra)), seq![LF]),
    ) + seq![LF] + repeat(SPACE, col) + raw_close(h)
}

/// A raw literal on one line: both delimiters around the trimmed formatted text.
pub open spec fn raw_inline(h: nat, f: Seq<u8>) -> Seq<u8> {
    raw_open(h) + trim(f) + raw_close(h)
}

/// The raw literal with `h` marks that starts at column `col`, spans `literal_lines` lines
/// and is rebuilt around the formatted text `f`.
pub open spec fn rebuild_raw(h: nat, col: nat, extra: nat, literal_lines: nat, f: Seq<u8>) -> Seq<
    u8,
> {
    let m = line_count(f);
    if literal_lines <= 1 && m > 1 {
        raw_multi_line(h, col, extra, f)
    } else if m <= 1 {
        raw_inline(h, f)
    } else {
        raw_multi_line(h, col, extra, f)
    }
}

/// A quoted literal rebuilt around the formatted text `f`: every line trimmed, the lines
/// joined by single spaces, all between one pair of quotes.
pub open spec fn rebuild_quoted(f: Seq<u8>) -> Seq<u8> {
    seq![QUOTE] + join(lines(f).map_values(|l: Seq<u8>| trim(l)), seq![SPACE]) + seq![QUOTE]
}

/// Finds the delimiters of the raw literal `lit`: the number of marks, with the bounds of
/// the text between the delimiters.
pub fn unquote_raw_string_literal(lit: &[u8]) -> (r: Option<(usize, usize, usize)>)
    ensures
        r is Some <==> raw_hashes(lit@) is Some,
        r matches Some((h, a, b)) ==> {
            &&& raw_hashes(lit@) == Some(h as nat)
            &&& a == h + 2
            &&& b == lit@.len() - (h + 1)
            &&& a <= b <= lit@.len()
        },
{
    let mut q: usize = 1;
    while q < lit.len() && lit[q] != QUOTE
        invariant
            1 <= q,
            find_byte(lit@, QUOTE, 1) == find_byte(lit@, QUOTE, q as int),
        decreases lit@.len() - q,
    {
        q = q + 1;
    }
    if q >= lit.len() {
        return None;
    }
    if q > lit.len() / 2 || 2 * q + 1 > lit.len() {
        return None;
    }
    Some((q - 1, q + 1, lit.len() - q))
}

/// The formatted lines, each indented by `n` spaces, joined by line feeds.
fn join_indented(ls: &Vec<Vec<u8>>, n: usize) -> (r: Vec<u8>)
    ensures
        r@ == join(indent_lines(views(ls@), n as nat), seq![LF]),
{
    let ghost parts = indent_lines(views(ls@), n as nat);
    let mut r: Vec<u8> = Vec::new();
    let mut k: usize = 0;
    while k < ls.len()
        invariant
            k <= ls@.len(),
            parts == indent_lines(views(ls@), n as nat),
            r@ == join(parts.subrange(0, k as int), seq![LF]),
        decreases ls@.len() - k,
    {
        let ghost before = r@;
        if k > 0 {
            r.push(LF);
        }
        push_repeat(&mut r, SPACE, n);
        push_all(&mut r, ls[k].as_slice());
        proof {
            let next = parts.subrange(0, k + 1);
            assert(next.drop_last() =~= parts.subrange(0, k as int));
            assert(next.last() == repeat(SPACE, n as nat) + ls@[k as int]@);
            if k == 0 {
                assert(r@ =~= next[0]);
            } else {
                assert(r@ =~= before + seq![LF] + next.last());
            }
        }
        k = k + 1;
    }
    assert(parts.subrange(0, ls@.len() as int) =~= parts);
    r
}

/// The formatted lines, each trimmed, joined by single spaces.
fn join_trimmed(ls: &Vec<Vec<u8>>) -> (r: Vec<u8>)
    ensures
        r@ == join(views(ls@).map_values(|l: Seq<u8>| trim(l)), seq![SPACE]),
{
    let ghost parts = views(ls@).map_values(|l: Seq<u8>| trim(l));
    let mut r: Vec<u8> = Vec::new();
    let mut k: usize = 0;
    while k < ls.len()
        invariant
            k <= ls@.len(),
            parts == views(ls@).map_values(|l: Seq<u8>| trim(l)),
            r@ == join(parts.subrange(0, k as int), seq![SPACE]),
        decreases ls@.len() - k,
    {
        let ghost before = r@;
        if k > 0 {
            r.push(SPACE);
        }
        let t = trimmed(ls[k].as_slice());
        push_all(&mut r, t.as_slice());
        proof {
            let next = parts.subrange(0, k + 1);
            assert(next.drop_last() =~= parts.subrange(0, k as int));
            assert(next.last() == trim(ls@[k as int]@));
            if k == 0 {
                assert(r@ =~= next[0]);
            } else {
                assert(r@ =~= before + seq![SPACE] + next.last());
            }
        }
        k = k + 1;
    }
    assert(parts.subrange(0, ls@.len() as int) =~= parts);
    r
}

fn push_raw_open(out: &mut Vec<u8>, h: usize)
    ensures
        final(out)@ == old(out)@ + raw_open(h as nat),
{
    out.push(RAW_MARK);
    push_repeat(out, HASH, h);
    out.push(QUOTE);
    assert(final(out)@ =~= old(out)@ + raw_open(h as nat));
}

fn push_raw_close(out: &mut Vec<u8>, h: usize)
    ensures
        final(out)@ == old(out)@ + raw_close(h as nat),
{
    out.push(QUOTE);
    push_repeat(out, HASH, h);
    assert(final(out)@ =~= old(out)@ + raw_close(h as nat));
}

/// Rebuilds a raw literal with `hash_count` marks that starts at column `column` and spanned
/// `literal_line_count` lines, around the formatted SQL `formatted`. Formatted SQL of more
/// than one line is laid out over several lines, each indented `literal_indentation` past the
/// literal's column; SQL of at most one line stays inline.
pub fn format_raw_string_literal(
    hash_count: usize,
    column: usize,
    literal_indentation: usize,
    literal_line_count: usize,
    formatted: &[u8],
) -> (r: Vec<u8>)
    ensures
        r@ == rebuild_raw(
            hash_count as nat,
            column as nat,
            literal_indentation as nat,
            literal_line_count as nat,
            formatted@,
        ),
        line_count(formatted@) > 1 ==> r@ == raw_multi_line(
            hash_count as nat,
            column as nat,
            literal_indentation as nat,
            formatted@,
        ),
        line_count(formatted@) <= 1 ==> r@ == raw_inline(hash_count as nat, formatted@),
{
    let ls = lines_of(formatted);
    let mut r: Vec<u8> = Vec::new();
    if ls.len() > 1 {
        let body = join_indented(&ls, column.saturating_add(literal_indentation));
        let e = trim_end_len(body.as_slice());
        push_raw_open(&mut r, hash_count);
        r.push(LF);
        push_range(&mut r, body.as_slice(), 0, e);
        r.push(LF);
        push_repeat(&mut r, SPACE, column);
        push_raw_close(&mut r, hash_count);
        proof {
            assert(r@ =~= raw_multi_line(
                hash_count as nat,
                column as nat,
                literal_indentation as nat,
                formatted@,
            ));
        }
    } else {
        let t = trimmed(formatted);
        push_raw_open(&mut r, hash_count);
        push_all(&mut r, t.as_slice());
        push_raw_close(&mut r, hash_count);
        proof {
            assert(r@ =~= raw_inline(hash_count as nat, formatted@));
        }
    }
    r
}

/// Rebuilds a quoted literal around the formatted SQL `formatted`, flattened onto one line:
/// each line trimmed and the lines joined by single spaces.
pub fn format_string_literal(formatted: &[u8]) -> (r: Vec<u8>)
    ensures
        r@ == rebuild_quoted(formatted@),
{
    let ls = lines_of(formatted);
    let body = join_trimmed(&ls);
    let mut r: Vec<u8> = Vec::new();
    r.push(QUOTE);
    push_all(&mut r, body.as_slice());
    r.push(QUOTE);
    proof {
        assert(views(ls@).map_values(|l: Seq<u8>| trim(l)) == lines(formatted@).map_values(
            |l: Seq<u8>| trim(l),
        ));
        assert(r@ =~= rebuild_quoted(formatted@));
    }
    r
}

proof fn lemma_find_byte_at(s: Seq<u8>, b: u8, from: int, q: int)
    requires
        0 <= from <= q < s.len(),
        s[q] == b,
        forall|i: int| from <= i < q ==> s[i] != b,
    ensures
        find_byte(s, b, from) == Some(q),
    decreases q - from,
{
    if from < q {
        lemma_find_byte_at(s, b, from + 1, q);
    }
}

/// A raw literal with `h` marks around any text is taken apart into those `h` marks and that
/// text.
pub proof fn lemma_raw_delimiters(h: nat, mid: Seq<u8>)
    ensures
        raw_hashes(raw_open(h) + mid + raw_close(h)) == Some(h),
        raw_content(raw_open(h) + mid + raw_close(h), h) == mid,
{
    let r = raw_open(h) + mid + raw_close(h);
    assert(r[h + 1 as int] == QUOTE);
    assert forall|i: int| 1 <= i < h + 1 implies r[i] != QUOTE by {
        assert(r[i] == HASH);
    }
    lemma_find_byte_at(r, QUOTE, 1, h + 1 as int);
    assert(raw_content(r, h) =~= mid);
}

/// Delimiter preservation: a raw literal rebuilt with `h` marks opens with `r`, `h` marks and a
/// quote, closes with a quote and `h` marks, and is taken apart again into `h` marks.
pub proof fn lemma_marks_preserved(h: nat, col: nat, extra: nat, literal_lines: nat, f: Seq<u8>)
    ensures
        ({
            let r = rebuild_raw(h, col, extra, literal_lines, f);
            &&& raw_hashes(r) == Some(h)
            &&& r.subrange(0, h + 2 as int) == raw_open(h)
            &&& r.subrange(r.len() - (h + 1), r.len() as int) == raw_close(h)
        }),
{
    let r = rebuild_raw(h, col, extra, literal_lines, f);
    let mid = if line_count(f) <= 1 {
        trim(f)
    } else {
        seq![LF] + trim_end(join(indent_lines(lines(f), indent_width(col, extra)), seq![LF]))
            + seq![LF] + repeat(SPACE, col)
    };
    assert(r =~= raw_open(h) + mid + raw_close(h));
    lemma_raw_delimiters(h, mid);
    assert(r.subrange(0, h + 2 as int) =~= raw_open(h));
    assert(r.subrange(r.len() - (h + 1), r.len() as int) =~= raw_close(h));
}

/// Idempotence of the rebuild: a rebuilt raw literal is taken apart into the same marks, and
/// rebuilding it around the same formatted text, whatever its own line count, gives it back.
pub proof fn lemma_rebuild_stable(h: nat, col: nat, extra: nat, literal_lines: nat, f: Seq<u8>)
    ensures
        ({
            let r = rebuild_raw(h, col, extra, literal_lines, f);
            &&& raw_hashes(r) == Some(h)
            &&& rebuild_raw(h, col, extra, line_count(r), f) == r
        }),
        rebuild_quoted(f).len() >= 2,
        rebuild_quoted(f)[0] == QUOTE,
        rebuild_quoted(f).last() == QUOTE,
{
    lemma_marks_preserved(h, col, extra, literal_lines, f);
}

/// Single to many: a raw literal of at most one line whose formatted text has several lines
/// becomes an opening delimiter line, the formatted lines indented by `col + extra`, and a
/// closing delimiter line at column `col`.
pub proof fn lemma_single_to_many(h: nat, col: nat, extra: nat, literal_lines: nat, f: Seq<u8>)
    requires
        literal_lines <= 1,
        line_count(f) > 1,
    ensures
        rebuild_raw(h, col, extra, literal_lines, f) == raw_open(h) + seq![LF] + trim_end(
            join(indent_lines(lines(f), indent_width(col, extra)), seq![LF]),
        ) + seq![LF] + repeat(SPACE, col) + raw_close(h),
{
}

/// Many to single: a raw literal, of any number of lines, whose formatted text has at most one
/// line is rebuilt on a single line with both delimiters on it.
pub proof fn lemma_many_to_single(h: nat, col: nat, extra: nat, literal_lines: nat, f: Seq<u8>)
    requires
        line_count(f) <= 1,
    ensures
        rebuild_raw(h, col, extra, literal_lines, f) == raw_open(h) + trim(f) + raw_close(h),
        lacks(rebuild_raw(h, col, extra, literal_lines, f), LF),
{
    lemma_one_line_trim_lacks_lf(f);
    let r = rebuild_raw(h, col, extra, literal_lines, f);
    let t = trim(f);
    assert forall|i: int| 0 <= i < r.len() implies r[i] != LF by {
        if h + 2 <= i < h + 2 + t.len() {
            assert(r[i] == t[i - (h + 2)]);
        } else if i < h + 2 {
            assert(r[i] == raw_open(h)[i]);
        } else {
            assert(r[i] == raw_close(h)[i - (h + 2) - t.len()]);
        }
    }
}

/// Quoted literals are flattened: whatever the formatted text's lines, the rebuilt literal is
/// one line, the trimmed lines joined by single spaces between quotes.
pub proof fn lemma_quoted_flattened(f: Seq<u8>)
    ensures
        rebuild_quoted(f) == seq![QUOTE] + join(
            lines(f).map_values(|l: Seq<u8>| trim(l)),
            seq![SPACE],
        ) + seq![QUOTE],
        lacks(rebuild_quoted(f), LF),
{
    let parts = lines(f).map_values(|l: Seq<u8>| trim(l));
    lemma_lines_lack_lf(f);
    assert forall|k: int| 0 <= k < parts.len() implies lacks(#[trigger] parts[k], LF) by {
        assert(lacks(lines(f)[k], LF));
        lemma_trim_lacks(lines(f)[k], LF);
    }
    assert(lacks(seq![SPACE], LF));
    lemma_join_lacks(parts, seq![SPACE], LF);
    let j = join(parts, seq![SPACE]);
    let r = rebuild_quoted(f);
    assert forall|i: int| 0 <= i < r.len() implies r[i] != LF by {
        if 1 <= i < 1 + j.len() {
            assert(r[i] == j[i - 1]);
        }
    }
}

proof fn lemma_ascii_run_valid(b: u8, n: nat)
    requires
        b <= 0x7f,
    ensures
        valid_utf8(repeat(b, n)),
{
    lemma_ascii_valid(repeat(b, n));
}

proof fn lemma_delimiters_valid(h: nat)
    ensures
        valid_utf8(raw_open(h)),
        valid_utf8(raw_close(h)),
        valid_utf8(seq![LF]),
        valid_utf8(seq![QUOTE]),
        valid_utf8(seq![SPACE]),
{
    assert(is_ascii_bytes(raw_open(h)));
    assert(is_ascii_bytes(raw_close(h)));
    assert(is_ascii_bytes(seq![LF]));
    assert(is_ascii_bytes(seq![QUOTE]));
    assert(is_ascii_bytes(seq![SPACE]));
    lemma_ascii_valid(raw_open(h));
    lemma_ascii_valid(raw_close(h));
    lemma_ascii_valid(seq![LF]);
    lemma_ascii_valid(seq![QUOTE]);
    lemma_ascii_valid(seq![SPACE]);
}

/// Rebuilt around valid UTF-8, a literal is valid UTF-8.
pub proof fn lemma_rebuild_valid(h: nat, col: nat, extra: nat, literal_lines: nat, f: Seq<u8>)
    requires
        valid_utf8(f),
    ensures
        valid_utf8(rebuild_raw(h, col, extra, literal_lines, f)),
        valid_utf8(rebuild_quoted(f)),
{
    lemma_delimiters_valid(h);
    lemma_lines_valid(f);
    lemma_trim_valid(f);
    let w = indent_width(col, extra);
    lemma_ascii_run_valid(SPACE, w);
    lemma_ascii_run_valid(SPACE, col);
    let parts = indent_lines(lines(f), w);
    assert forall|k: int| 0 <= k < parts.len() implies valid_utf8(#[trigger] parts[k]) by {
        assert(valid_utf8(lines(f)[k]));
        assert(parts[k] == repeat(SPACE, w) + lines(f)[k]);
        valid_utf8_concat(repeat(SPACE, w), lines(f)[k]);
    }
    lemma_join_valid(parts, seq![LF]);
    lemma_trim_valid(join(parts, seq![LF]));
    let body = trim_end(join(parts, seq![LF]));
    let a1 = raw_open(h) + seq![LF];
    valid_utf8_concat(raw_open(h), seq![LF]);
    valid_utf8_concat(a1, body);
    valid_utf8_concat(a1 + body, seq![LF]);
    valid_utf8_concat(a1 + body + seq![LF], repeat(SPACE, col));
    valid_utf8_concat(a1 + body + seq![LF] + repeat(SPACE, col), raw_close(h));
    valid_utf8_concat(raw_open(h), trim(f));
    valid_utf8_concat(raw_open(h) + trim(f), raw_close(h));
    let flat = lines(f).map_values(|l: Seq<u8>| trim(l));
    assert forall|k: int| 0 <= k < flat.len() implies valid_utf8(#[trigger] flat[k]) by {
        lemma_trim_valid(lines(f)[k]);
    }
    lemma_join_valid(flat, seq![SPACE]);
    valid_utf8_concat(seq![QUOTE], join(flat, seq![SPACE]));
    valid_utf8_concat(seq![QUOTE] + join(flat, seq![SPACE]), seq![QUOTE]);
}

} // verus!
