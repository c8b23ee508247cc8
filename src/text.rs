//! Byte-string helpers: line splitting, trimming, joining and padding.
use vstd::prelude::*;
use vstd::utf8::{
    encode_utf8, is_char_boundary_iff_not_is_continuation_byte, length_of_first_scalar,
    partial_valid_utf8_extend_ascii_block, pop_first_scalar, valid_utf8, valid_utf8_concat,
    valid_utf8_split,
};

verus! {

pub const LF: u8 = 10;

pub const CR: u8 = 13;

pub const SPACE: u8 = 32;

/// The ASCII characters with Unicode's White_Space property: tab, line feed, vertical tab,
/// form feed, carriage return and space.
pub open spec fn is_space(b: u8) -> bool {
    b == 32 || b == 9 || b == 10 || b == 11 || b == 12 || b == 13
}

/// The two-byte UTF-8 encodings of White_Space characters: U+0085 and U+00A0.
pub open spec fn is_space2(a: u8, b: u8) -> bool {
    a == 0xc2 && (b == 0x85 || b == 0xa0)
}

/// The three-byte UTF-8 encodings of White_Space characters: U+1680, U+2000 to U+200A, U+2028,
/// U+2029, U+202F, U+205F and U+3000.
pub open spec fn is_space3(a: u8, b: u8, c: u8) -> bool {
    ||| (a == 0xe1 && b == 0x9a && c == 0x80)
    ||| (a == 0xe2 && b == 0x80 && ((0x80 <= c && c <= 0x8a) || c == 0xa8 || c == 0xa9 || c == 0xaf))
    ||| (a == 0xe2 && b == 0x81 && c == 0x9f)
    ||| (a == 0xe3 && b == 0x80 && c == 0x80)
}

/// The number of bytes of the White_Space character that ends `s`, or 0 where none does.
pub open spec fn space_len_end(s: Seq<u8>) -> int {
    let n = s.len() as int;
    if n >= 1 && is_space(s[n - 1]) {
        1
    } else if n >= 2 && is_space2(s[n - 2], s[n - 1]) {
        2
    } else if n >= 3 && is_space3(s[n - 3], s[n - 2], s[n - 1]) {
        3
    } else {
        0
    }
}

/// The number of bytes of the White_Space character that starts `s`, or 0 where none does.
pub open spec fn space_len_start(s: Seq<u8>) -> int {
    if s.len() >= 1 && is_space(s[0]) {
        1
    } else if s.len() >= 2 && is_space2(s[0], s[1]) {
        2
    } else if s.len() >= 3 && is_space3(s[0], s[1], s[2]) {
        3
    } else {
        0
    }
}

/// `s` without its trailing White_Space characters.
pub open spec fn trim_end(s: Seq<u8>) -> Seq<u8>
    decreases s.len(),
{
    if space_len_end(s) > 0 {
        trim_end(s.subrange(0, s.len() - space_len_end(s)))
    } else {
        s
    }
}

/// `s` without its leading White_Space characters.
pub open spec fn trim_start(s: Seq<u8>) -> Seq<u8>
    decreases s.len(),
{
    if space_len_start(s) > 0 {
        trim_start(s.subrange(space_len_start(s), s.len() as int))
    } else {
        s
    }
}

/// `s` without whitespace at either end.
pub open spec fn trim(s: Seq<u8>) -> Seq<u8> {
    trim_start(trim_end(s))
}

/// The pieces of `s` between line feeds; there is always one more piece than line feeds.
pub open spec fn split_lf(s: Seq<u8>) -> Seq<Seq<u8>>
    decreases s.len(),
{
    if s.len() == 0 {
        seq![Seq::empty()]
    } else {
        let p = split_lf(s.drop_last());
        if s.last() == LF {
            p.push(Seq::empty())
        } else {
            p.update(p.len() - 1, p.last().push(s.last()))
        }
    }
}

/// A line that ended in a line feed loses a carriage return before it.
pub open spec fn strip_cr(l: Seq<u8>) -> Seq<u8> {
    if l.len() > 0 && l.last() == CR {
        l.drop_last()
    } else {
        l
    }
}

/// The lines of `s`: split at line feeds, a carriage return before a line feed dropped,
/// and no empty line after a final line feed.
pub open spec fn lines(s: Seq<u8>) -> Seq<Seq<u8>> {
    let p = split_lf(s);
    let body = p.drop_last().map_values(|l: Seq<u8>| strip_cr(l));
    if p.last().len() == 0 {
        body
    } else {
        body.push(p.last())
    }
}

/// The number of lines of `s`.
pub open spec fn line_count(s: Seq<u8>) -> nat {
    lines(s).len()
}

/// The byte strings that the vectors hold.
pub open spec fn views(v: Seq<Vec<u8>>) -> Seq<Seq<u8>> {
    v.map_values(|x: Vec<u8>| x@)
}

/// `n` copies of the byte `b`.
pub open spec fn repeat(b: u8, n: nat) -> Seq<u8> {
    Seq::new(n, |i: int| b)
}

/// The parts joined with `sep` between each two neighbours.
pub open spec fn join(parts: Seq<Seq<u8>>, sep: Seq<u8>) -> Seq<u8>
    decreases parts.len(),
{
    if parts.len() == 0 {
        Seq::empty()
    } else if parts.len() == 1 {
        parts[0]
    } else {
        join(parts.drop_last(), sep) + sep + parts.last()
    }
}

/// There is always at least one piece.
pub proof fn lemma_split_lf_nonempty(s: Seq<u8>)
    ensures
        split_lf(s).len() >= 1,
    decreases s.len(),
{
    if s.len() > 0 {
        lemma_split_lf_nonempty(s.drop_last());
    }
}

/// `s` holds no byte `b`.
pub open spec fn lacks(s: Seq<u8>, b: u8) -> bool {
    forall|i: int| 0 <= i < s.len() ==> s[i] != b
}

/// Joining the pieces between line feeds with line feeds gives the text back.
pub proof fn lemma_split_lf_join(s: Seq<u8>)
    ensures
        join(split_lf(s), seq![LF]) == s,
    decreases s.len(),
{
    if s.len() > 0 {
        let t = s.drop_last();
        lemma_split_lf_join(t);
        lemma_split_lf_nonempty(t);
        let p = split_lf(t);
        let q = split_lf(s);
        if s.last() == LF {
            assert(q.drop_last() =~= p);
            assert(s =~= t + seq![LF] + Seq::<u8>::empty());
        } else {
            assert(q.last() =~= p.last().push(s.last()));
            if p.len() == 1 {
                assert(s =~= p[0].push(s.last()));
            } else {
                assert(q.drop_last() =~= p.drop_last());
                assert(t == join(p.drop_last(), seq![LF]) + seq![LF] + p.last());
                assert(s =~= t.push(s.last()));
                assert(s =~= join(p.drop_last(), seq![LF]) + seq![LF] + p.last().push(s.last()));
            }
        }
    } else {
        assert(split_lf(s) =~= seq![Seq::<u8>::empty()]);
    }
}

/// No piece between line feeds holds a line feed.
pub proof fn lemma_split_lf_lacks_lf(s: Seq<u8>)
    ensures
        forall|k: int| 0 <= k < split_lf(s).len() ==> lacks(#[trigger] split_lf(s)[k], LF),
    decreases s.len(),
{
    if s.len() > 0 {
        let t = s.drop_last();
        lemma_split_lf_lacks_lf(t);
        lemma_split_lf_nonempty(t);
        let p = split_lf(t);
        let q = split_lf(s);
        assert forall|k: int| 0 <= k < q.len() implies lacks(#[trigger] q[k], LF) by {
            if k < p.len() - 1 {
                assert(q[k] == p[k]);
            } else if k == p.len() - 1 {
                if s.last() == LF {
                    assert(q[k] == p[k]);
                } else {
                    assert(q[k] =~= p.last().push(s.last()));
                    assert(lacks(p[k], LF));
                }
            } else {
                assert(q[k] =~= Seq::<u8>::empty());
            }
        }
    }
}

/// Trimming the end keeps a prefix.
pub proof fn lemma_trim_end_prefix(s: Seq<u8>)
    ensures
        trim_end(s).len() <= s.len(),
        trim_end(s) == s.subrange(0, trim_end(s).len() as int),
    decreases s.len(),
{
    let w = space_len_end(s);
    if w > 0 {
        let t = s.subrange(0, s.len() - w);
        lemma_trim_end_prefix(t);
        assert(t.subrange(0, trim_end(s).len() as int) =~= s.subrange(
            0,
            trim_end(s).len() as int,
        ));
    } else {
        assert(s.subrange(0, s.len() as int) =~= s);
    }
}

/// Trimming the start keeps a suffix.
pub proof fn lemma_trim_start_suffix(s: Seq<u8>)
    ensures
        trim_start(s).len() <= s.len(),
        trim_start(s) == s.subrange(s.len() - trim_start(s).len(), s.len() as int),
    decreases s.len(),
{
    let w = space_len_start(s);
    if w > 0 {
        let t = s.subrange(w, s.len() as int);
        lemma_trim_start_suffix(t);
        assert(t.subrange(t.len() - trim_start(s).len(), t.len() as int) =~= s.subrange(
            s.len() - trim_start(s).len(),
            s.len() as int,
        ));
    } else {
        assert(s.subrange(0, s.len() as int) =~= s);
    }
}

/// Trimming adds no byte that was not there.
pub proof fn lemma_trim_lacks(s: Seq<u8>, b: u8)
    requires
        lacks(s, b),
    ensures
        lacks(trim(s), b),
        lacks(trim_end(s), b),
{
    lemma_trim_end_prefix(s);
    let e = trim_end(s);
    assert forall|i: int| 0 <= i < e.len() implies e[i] != b by {
        assert(e[i] == s[i]);
    }
    lemma_trim_start_suffix(e);
    let t = trim(s);
    assert forall|i: int| 0 <= i < t.len() implies t[i] != b by {
        assert(t[i] == e[e.len() - t.len() + i]);
    }
}

/// Parts and a separator without the byte `b` join into a text without it.
pub proof fn lemma_join_lacks(parts: Seq<Seq<u8>>, sep: Seq<u8>, b: u8)
    requires
        lacks(sep, b),
        forall|k: int| 0 <= k < parts.len() ==> lacks(#[trigger] parts[k], b),
    ensures
        lacks(join(parts, sep), b),
    decreases parts.len(),
{
    if parts.len() > 1 {
        lemma_join_lacks(parts.drop_last(), sep, b);
        let j = join(parts.drop_last(), sep);
        assert(lacks(parts[parts.len() - 1], b));
        let all = j + sep + parts.last();
        assert forall|i: int| 0 <= i < all.len() implies all[i] != b by {
            if i < j.len() {
            } else if i < j.len() + sep.len() {
                assert(all[i] == sep[i - j.len()]);
            } else {
                assert(all[i] == parts.last()[i - j.len() - sep.len()]);
            }
        }
    } else if parts.len() == 1 {
        assert(lacks(parts[0], b));
    }
}

/// No line holds a line feed.
pub proof fn lemma_lines_lack_lf(s: Seq<u8>)
    ensures
        forall|k: int| 0 <= k < lines(s).len() ==> lacks(#[trigger] lines(s)[k], LF),
{
    lemma_split_lf_lacks_lf(s);
    lemma_split_lf_nonempty(s);
    let p = split_lf(s);
    assert forall|k: int| 0 <= k < lines(s).len() implies lacks(#[trigger] lines(s)[k], LF) by {
        if k < p.len() - 1 {
            assert(lacks(p[k], LF));
            assert(lines(s)[k] == strip_cr(p[k]));
            if p[k].len() > 0 && p[k].last() == CR {
                assert(forall|i: int| 0 <= i < strip_cr(p[k]).len() ==> strip_cr(p[k])[i] == p[k][i]);
            }
        } else {
            assert(lines(s)[k] == p.last());
        }
    }
}

/// A text of at most one line loses, once trimmed, every line feed.
pub proof fn lemma_one_line_trim_lacks_lf(s: Seq<u8>)
    requires
        line_count(s) <= 1,
    ensures
        lacks(trim(s), LF),
{
    lemma_split_lf_join(s);
    lemma_split_lf_lacks_lf(s);
    lemma_split_lf_nonempty(s);
    let p = split_lf(s);
    if p.len() == 1 {
        assert(lacks(p[0], LF));
        lemma_trim_lacks(s, LF);
    } else {
        assert(p.len() == 2);
        assert(p.last().len() == 0);
        assert(lacks(p[0], LF));
        assert(p.drop_last() =~= seq![p[0]]);
        assert(join(p.drop_last(), seq![LF]) == p[0]);
        assert(s == join(p.drop_last(), seq![LF]) + seq![LF] + p.last());
        assert(s =~= p[0] + seq![LF] + p.last());
        assert(s.subrange(0, s.len() - 1) =~= p[0]);
        assert(space_len_end(s) == 1);
        assert(trim_end(s) == trim_end(p[0]));
        lemma_trim_lacks(p[0], LF);
    }
}

/// Every byte of `s` is an ASCII byte.
pub open spec fn is_ascii_bytes(s: Seq<u8>) -> bool {
    forall|i: int| 0 <= i < s.len() ==> s[i] <= 0x7f
}

pub proof fn lemma_ascii_valid(s: Seq<u8>)
    requires
        is_ascii_bytes(s),
    ensures
        valid_utf8(s),
{
    assert(s.subrange(0, 0) =~= Seq::<u8>::empty());
    partial_valid_utf8_extend_ascii_block(s, 0, s.len() as int);
    assert(s.subrange(0, s.len() as int) =~= s);
}

/// Cutting valid UTF-8 at an ASCII byte leaves valid UTF-8 on both sides.
pub proof fn lemma_valid_cut_at_ascii(s: Seq<u8>, k: int)
    requires
        valid_utf8(s),
        0 <= k < s.len(),
        s[k] <= 0x7f,
    ensures
        valid_utf8(s.subrange(0, k)),
        valid_utf8(s.subrange(k + 1, s.len() as int)),
{
    is_char_boundary_iff_not_is_continuation_byte(s, k);
    valid_utf8_split(s, k);
    let t = s.subrange(k, s.len() as int);
    assert(t[0] == s[k]);
    assert(length_of_first_scalar(t) == 1);
    assert(pop_first_scalar(t) =~= s.subrange(k + 1, s.len() as int));
}

/// The index of the last line feed of `s`, or -1.
pub open spec fn last_lf(s: Seq<u8>) -> int
    decreases s.len(),
{
    if s.len() == 0 {
        -1
    } else if s.last() == LF {
        s.len() - 1
    } else {
        last_lf(s.drop_last())
    }
}

proof fn lemma_last_lf(s: Seq<u8>)
    ensures
        last_lf(s) >= -1,
        last_lf(s) == -1 ==> lacks(s, LF),
        last_lf(s) >= 0 ==> {
            &&& last_lf(s) < s.len()
            &&& s[last_lf(s)] == LF
            &&& lacks(s.subrange(last_lf(s) + 1, s.len() as int), LF)
        },
    decreases s.len(),
{
    if s.len() > 0 && s.last() != LF {
        lemma_last_lf(s.drop_last());
        assert(last_lf(s) == last_lf(s.drop_last()));
        let k = last_lf(s);
        if k >= 0 {
            let a = s.drop_last().subrange(k + 1, s.len() - 1);
            let b = s.subrange(k + 1, s.len() as int);
            assert forall|i: int| 0 <= i < b.len() implies b[i] != LF by {
                if i < a.len() {
                    assert(b[i] == a[i]);
                }
            }
        } else {
            assert forall|i: int| 0 <= i < s.len() implies s[i] != LF by {
                if i < s.len() - 1 {
                    assert(s[i] == s.drop_last()[i]);
                    assert(lacks(s.drop_last(), LF));
                } else {
                    assert(s[i] == s.last());
                }
            }
        }
    } else if s.len() > 0 {
        assert(s.subrange(s.len() as int, s.len() as int).len() == 0);
    }
}

proof fn lemma_split_lf_single(s: Seq<u8>)
    requires
        lacks(s, LF),
    ensures
        split_lf(s) == seq![s],
    decreases s.len(),
{
    if s.len() > 0 {
        assert(lacks(s.drop_last(), LF));
        lemma_split_lf_single(s.drop_last());
        assert(s.last() != LF);
        assert(s.drop_last().push(s.last()) =~= s);
        assert(split_lf(s) =~= seq![s]);
    } else {
        assert(s =~= Seq::<u8>::empty());
        assert(split_lf(s) =~= seq![s]);
    }
}

proof fn lemma_split_lf_append(a: Seq<u8>, b: Seq<u8>)
    requires
        lacks(b, LF),
    ensures
        split_lf(a + seq![LF] + b) == split_lf(a).push(b),
    decreases b.len(),
{
    lemma_split_lf_nonempty(a);
    if b.len() == 0 {
        assert(b =~= Seq::<u8>::empty());
        assert((a + seq![LF] + b).last() == LF);
        assert((a + seq![LF] + b).drop_last() =~= a);
        assert(split_lf(a + seq![LF] + b) =~= split_lf(a).push(b));
    } else {
        let c = b.drop_last();
        assert(lacks(c, LF));
        lemma_split_lf_append(a, c);
        assert((a + seq![LF] + b).drop_last() =~= a + seq![LF] + c);
        assert(b[b.len() - 1] != LF);
        assert((a + seq![LF] + b).last() == b.last());
        assert(c.push(b.last()) =~= b);
        assert(split_lf(a + seq![LF] + b) =~= split_lf(a).push(b));
    }
}

/// The pieces between the line feeds of valid UTF-8 are valid UTF-8.
pub proof fn lemma_split_lf_valid(s: Seq<u8>)
    requires
        valid_utf8(s),
    ensures
        forall|k: int| 0 <= k < split_lf(s).len() ==> valid_utf8(#[trigger] split_lf(s)[k]),
    decreases s.len(),
{
    lemma_last_lf(s);
    let k = last_lf(s);
    if k < 0 {
        lemma_split_lf_single(s);
    } else {
        let a = s.subrange(0, k);
        let b = s.subrange(k + 1, s.len() as int);
        lemma_valid_cut_at_ascii(s, k);
        lemma_split_lf_valid(a);
        assert(s =~= a + seq![LF] + b);
        lemma_split_lf_append(a, b);
        let p = split_lf(s);
        assert forall|i: int| 0 <= i < p.len() implies valid_utf8(#[trigger] p[i]) by {
            if i < p.len() - 1 {
                assert(p[i] == split_lf(a)[i]);
            }
        }
    }
}

/// The lines of valid UTF-8 are valid UTF-8.
pub proof fn lemma_lines_valid(s: Seq<u8>)
    requires
        valid_utf8(s),
    ensures
        forall|k: int| 0 <= k < lines(s).len() ==> valid_utf8(#[trigger] lines(s)[k]),
{
    lemma_split_lf_valid(s);
    lemma_split_lf_nonempty(s);
    let p = split_lf(s);
    assert forall|k: int| 0 <= k < lines(s).len() implies valid_utf8(#[trigger] lines(s)[k]) by {
        if k < p.len() - 1 {
            assert(valid_utf8(p[k]));
            if p[k].len() > 0 && p[k].last() == CR {
                lemma_valid_cut_at_ascii(p[k], p[k].len() - 1);
                assert(p[k].subrange(0, p[k].len() - 1) =~= strip_cr(p[k]));
            }
        } else {
            assert(lines(s)[k] == p.last());
        }
    }
}

/// Trimming valid UTF-8 leaves valid UTF-8.
pub proof fn lemma_trim_valid(s: Seq<u8>)
    requires
        valid_utf8(s),
    ensures
        valid_utf8(trim_end(s)),
        valid_utf8(trim(s)),
{
    lemma_trim_end_valid(s);
    lemma_trim_start_valid(trim_end(s));
}

proof fn lemma_trim_end_valid(s: Seq<u8>)
    requires
        valid_utf8(s),
    ensures
        valid_utf8(trim_end(s)),
    decreases s.len(),
{
    let w = space_len_end(s);
    if w > 0 {
        let k = s.len() - w;
        is_char_boundary_iff_not_is_continuation_byte(s, k);
        valid_utf8_split(s, k);
        lemma_trim_end_valid(s.subrange(0, k));
    }
}

proof fn lemma_trim_start_valid(s: Seq<u8>)
    requires
        valid_utf8(s),
    ensures
        valid_utf8(trim_start(s)),
    decreases s.len(),
{
    let w = space_len_start(s);
    if w > 0 {
        assert(length_of_first_scalar(s) == w);
        assert(pop_first_scalar(s) =~= s.subrange(w, s.len() as int));
        lemma_trim_start_valid(s.subrange(w, s.len() as int));
    }
}

/// Valid parts joined by a valid separator are valid UTF-8.
pub proof fn lemma_join_valid(parts: Seq<Seq<u8>>, sep: Seq<u8>)
    requires
        valid_utf8(sep),
        forall|k: int| 0 <= k < parts.len() ==> valid_utf8(#[trigger] parts[k]),
    ensures
        valid_utf8(join(parts, sep)),
    decreases parts.len(),
{
    if parts.len() > 1 {
        lemma_join_valid(parts.drop_last(), sep);
        assert(valid_utf8(parts[parts.len() - 1]));
        valid_utf8_concat(join(parts.drop_last(), sep), sep);
        valid_utf8_concat(join(parts.drop_last(), sep) + sep, parts.last());
    } else if parts.len() == 1 {
        assert(valid_utf8(parts[0]));
    } else {
        assert(valid_utf8(Seq::<u8>::empty()));
    }
}

/// Appends `s[a..b]` to `out`.
pub fn push_range(out: &mut Vec<u8>, s: &[u8], a: usize, b: usize)
    requires
        a <= b <= s@.len(),
    ensures
        final(out)@ == old(out)@ + s@.subrange(a as int, b as int),
{
    let mut i = a;
    while i < b
        invariant
            a <= i <= b <= s@.len(),
            out@ == old(out)@ + s@.subrange(a as int, i as int),
        decreases b - i,
    {
        out.push(s[i]);
        assert(s@.subrange(a as int, i + 1) == s@.subrange(a as int, i as int).push(s@[i as int]));
        i = i + 1;
    }
}

/// Appends all of `s` to `out`.
pub fn push_all(out: &mut Vec<u8>, s: &[u8])
    ensures
        final(out)@ == old(out)@ + s@,
{
    push_range(out, s, 0, s.len());
    assert(s@.subrange(0, s@.len() as int) == s@);
}

/// Appends `n` copies of `b` to `out`.
pub fn push_repeat(out: &mut Vec<u8>, b: u8, n: usize)
    ensures
        final(out)@ == old(out)@ + repeat(b, n as nat),
{
    let mut i: usize = 0;
    while i < n
        invariant
            i <= n,
            out@ == old(out)@ + repeat(b, i as nat),
        decreases n - i,
    {
        out.push(b);
        assert(repeat(b, (i + 1) as nat) == repeat(b, i as nat).push(b));
        i = i + 1;
    }
}

/// The number of bytes of the White_Space character that ends `s[..e]`, or 0.
pub fn space_before(s: &[u8], e: usize) -> (w: usize)
    requires
        e <= s@.len(),
    ensures
        w as int == space_len_end(s@.subrange(0, e as int)),
        w <= e,
{
    let ghost t = s@.subrange(0, e as int);
    if e >= 1 && is_space_byte(s[e - 1]) {
        assert(t[e - 1] == s@[e - 1]);
        1
    } else if e >= 2 && s[e - 2] == 0xc2 && (s[e - 1] == 0x85 || s[e - 1] == 0xa0) {
        assert(t[e - 1] == s@[e - 1] && t[e - 2] == s@[e - 2]);
        2
    } else if e >= 3 && is_space3_bytes(s[e - 3], s[e - 2], s[e - 1]) {
        assert(t[e - 1] == s@[e - 1] && t[e - 2] == s@[e - 2] && t[e - 3] == s@[e - 3]);
        3
    } else {
        proof {
            if e >= 1 {
                assert(t[e - 1] == s@[e - 1]);
            }
            if e >= 2 {
                assert(t[e - 2] == s@[e - 2]);
            }
            if e >= 3 {
                assert(t[e - 3] == s@[e - 3]);
            }
        }
        0
    }
}

/// The number of bytes of the White_Space character that starts `s[k..b]`, or 0.
pub fn space_after(s: &[u8], k: usize, b: usize) -> (w: usize)
    requires
        k <= b <= s@.len(),
    ensures
        w as int == space_len_start(s@.subrange(k as int, b as int)),
        w <= b - k,
{
    let ghost t = s@.subrange(k as int, b as int);
    let n = b - k;
    if n >= 1 && is_space_byte(s[k]) {
        assert(t[0] == s@[k as int]);
        1
    } else if n >= 2 && s[k] == 0xc2 && (s[k + 1] == 0x85 || s[k + 1] == 0xa0) {
        assert(t[0] == s@[k as int] && t[1] == s@[k + 1]);
        2
    } else if n >= 3 && is_space3_bytes(s[k], s[k + 1], s[k + 2]) {
        assert(t[0] == s@[k as int] && t[1] == s@[k + 1] && t[2] == s@[k + 2]);
        3
    } else {
        proof {
            if n >= 1 {
                assert(t[0] == s@[k as int]);
            }
            if n >= 2 {
                assert(t[1] == s@[k + 1]);
            }
            if n >= 3 {
                assert(t[2] == s@[k + 2]);
            }
        }
        0
    }
}

/// Whether three bytes encode a White_Space character.
pub fn is_space3_bytes(a: u8, b: u8, c: u8) -> (r: bool)
    ensures
        r == is_space3(a, b, c),
{
    (a == 0xe1 && b == 0x9a && c == 0x80) || (a == 0xe2 && b == 0x80 && ((0x80 <= c && c <= 0x8a)
        || c == 0xa8 || c == 0xa9 || c == 0xaf)) || (a == 0xe2 && b == 0x81 && c == 0x9f) || (a
        == 0xe3 && b == 0x80 && c == 0x80)
}

/// The length of `s` once its trailing White_Space characters are removed.
pub fn trim_end_len(s: &[u8]) -> (e: usize)
    ensures
        e <= s@.len(),
        trim_end(s@) == s@.subrange(0, e as int),
{
    let mut e = s.len();
    assert(s@.subrange(0, e as int) == s@);
    let mut w = space_before(s, e);
    while w > 0
        invariant
            e <= s@.len(),
            w <= e,
            w as int == space_len_end(s@.subrange(0, e as int)),
            trim_end(s@) == trim_end(s@.subrange(0, e as int)),
        decreases e,
    {
        assert(s@.subrange(0, e as int).subrange(0, e - w) =~= s@.subrange(0, e - w));
        e = e - w;
        w = space_before(s, e);
    }
    e
}

/// The index of the first byte of `s[a..b]` that does not start a White_Space character, or `b`.
pub fn trim_start_index(s: &[u8], a: usize, b: usize) -> (k: usize)
    requires
        a <= b <= s@.len(),
    ensures
        a <= k <= b,
        trim_start(s@.subrange(a as int, b as int)) == s@.subrange(k as int, b as int),
{
    let mut k = a;
    let mut w = space_after(s, k, b);
    while w > 0
        invariant
            a <= k <= b <= s@.len(),
            w <= b - k,
            w as int == space_len_start(s@.subrange(k as int, b as int)),
            trim_start(s@.subrange(a as int, b as int)) == trim_start(s@.subrange(k as int, b as int)),
        decreases b - k,
    {
        assert(s@.subrange(k as int, b as int).subrange(w as int, b - k) =~= s@.subrange(
            k + w,
            b as int,
        ));
        k = k + w;
        w = space_after(s, k, b);
    }
    k
}

/// Whether `b` is an ASCII whitespace byte.
pub fn is_space_byte(b: u8) -> (r: bool)
    ensures
        r == is_space(b),
{
    b == 32 || b == 9 || b == 10 || b == 11 || b == 12 || b == 13
}

/// `s` with whitespace removed at both ends.
pub fn trimmed(s: &[u8]) -> (r: Vec<u8>)
    ensures
        r@ == trim(s@),
{
    let e = trim_end_len(s);
    let k = trim_start_index(s, 0, e);
    let mut r = Vec::new();
    push_range(&mut r, s, k, e);
    assert(r@ == s@.subrange(k as int, e as int));
    r
}

/// The lines of `s`, as `lines` gives them.
pub fn lines_of(s: &[u8]) -> (r: Vec<Vec<u8>>)
    ensures
        views(r@) == lines(s@),
{
    let mut pieces: Vec<Vec<u8>> = Vec::new();
    let mut cur: Vec<u8> = Vec::new();
    let mut i: usize = 0;
    proof {
        assert(s@.subrange(0, 0) == Seq::<u8>::empty());
    }
    while i < s.len()
        invariant
            i <= s@.len(),
            views(pieces@) == split_lf(s@.subrange(0, i as int)).drop_last().map_values(
                |l: Seq<u8>| strip_cr(l),
            ),
            cur@ == split_lf(s@.subrange(0, i as int)).last(),
        decreases s@.len() - i,
    {
        let ghost pre = s@.subrange(0, i as int);
        let ghost next = s@.subrange(0, i + 1);
        proof {
            assert(next.drop_last() == pre);
            lemma_split_lf_nonempty(pre);
        }
        let ghost before = views(pieces@);
        let ghost p = split_lf(pre);
        if s[i] == LF {
            let mut line = cur;
            if line.len() > 0 && line[line.len() - 1] == CR {
                line.pop();
                assert(line@ =~= p.last().drop_last());
            }
            assert(line@ == strip_cr(p.last()));
            pieces.push(line);
            cur = Vec::new();
            proof {
                assert(views(pieces@) =~= before.push(strip_cr(p.last())));
                assert(split_lf(next).drop_last() =~= p);
                assert(p.drop_last().map_values(|l: Seq<u8>| strip_cr(l)).push(strip_cr(p.last()))
                    =~= p.map_values(|l: Seq<u8>| strip_cr(l)));
                assert(split_lf(next).last() =~= Seq::<u8>::empty());
            }
        } else {
            cur.push(s[i]);
            proof {
                assert(split_lf(next).drop_last() =~= p.drop_last());
                assert(split_lf(next).last() =~= p.last().push(s@[i as int]));
            }
        }
        i = i + 1;
    }
    proof {
        assert(s@.subrange(0, s@.len() as int) == s@);
        lemma_split_lf_nonempty(s@);
    }
    let ghost before = views(pieces@);
    if cur.len() > 0 {
        pieces.push(cur);
        assert(views(pieces@) =~= before.push(split_lf(s@).last()));
    }
    pieces
}

/// Relies on `String::from_utf8`: it succeeds exactly when the bytes are valid UTF-8, and the
/// string then holds those bytes.
#[verifier::external_body]
pub(crate) fn string_from_utf8(bytes: Vec<u8>) -> (r: Option<String>)
    ensures
        r is Some <==> valid_utf8(bytes@),
        r matches Some(s) ==> encode_utf8(s@) == bytes@,
{
    String::from_utf8(bytes).ok()
}

} // verus!
