//! Splicing the rebuilt literals into the source text.
use vstd::prelude::*;
use vstd::utf8::{
    encode_utf8, encode_utf8_valid_utf8, is_char_boundary, is_char_boundary_iff_not_is_continuation_byte,
    is_char_boundary_start_end_of_seq, valid_utf8, valid_utf8_concat, valid_utf8_split,
};
use crate::literal::{
    format_raw_string_literal, format_string_literal, lemma_rebuild_valid, rebuild_quoted, rebuild_raw,
};
use crate::syntax::{
    collect, find_and_collect, in_order, literals_of, occurrence_of, parse_rust, rust_syntax_of,
    LiteralKind, LiteralOccurrence, NodeView, OccurrenceView, occurrences_view,
};
use crate::text::{push_all, push_range, string_from_utf8, views};

verus! {

/// The literal `o` rebuilt around the formatted text `f`.
pub open spec fn rebuilt(o: OccurrenceView, f: Seq<u8>, extra: nat) -> Seq<u8> {
    match o.kind {
        LiteralKind::Raw { hashes } => rebuild_raw(hashes as nat, o.column, extra, o.line_count, f),
        LiteralKind::Quoted => rebuild_quoted(f),
    }
}

/// What stands in the place of literal `o`: the rebuilt literal where the formatter gave a
/// text, else the literal as it was.
pub open spec fn replacement(src: Seq<u8>, o: OccurrenceView, result: Option<Seq<u8>>, extra: nat) -> Seq<
    u8,
> {
    match result {
        Some(f) => rebuilt(o, f, extra),
        None => src.subrange(o.start as int, o.end as int),
    }
}

/// Where the source text resumes after the first `k` literals.
pub open spec fn resume_at(occs: Seq<OccurrenceView>, k: int) -> nat {
    if k <= 0 {
        0
    } else {
        occs[k - 1].end
    }
}

/// The output up to the end of the replacement of literal `k - 1`.
pub open spec fn spliced(
    src: Seq<u8>,
    occs: Seq<OccurrenceView>,
    results: Seq<Option<Seq<u8>>>,
    extra: nat,
    k: int,
) -> Seq<u8>
    decreases k,
{
    if k <= 0 {
        Seq::empty()
    } else {
        spliced(src, occs, results, extra, k - 1) + src.subrange(
            resume_at(occs, k - 1) as int,
            occs[k - 1].start as int,
        ) + replacement(src, occs[k - 1], results[k - 1], extra)
    }
}

/// The source with each literal replaced as `replacement` says; all else is kept.
pub open spec fn rewritten(
    src: Seq<u8>,
    occs: Seq<OccurrenceView>,
    results: Seq<Option<Seq<u8>>>,
    extra: nat,
) -> Seq<u8> {
    spliced(src, occs, results, extra, occs.len() as int) + src.subrange(
        resume_at(occs, occs.len() as int) as int,
        src.len() as int,
    )
}

/// The literals lie in order within the source, each between two character boundaries.
pub open spec fn placed(occs: Seq<OccurrenceView>, src: Seq<u8>) -> bool {
    &&& in_order(occs)
    &&& forall|k: int|
        0 <= k < occs.len() ==> {
            &&& #[trigger] occs[k].start <= occs[k].end <= src.len()
            &&& is_char_boundary(src, occs[k].start as int)
            &&& is_char_boundary(src, occs[k].end as int)
        }
}

/// The formatter's results as bytes.
pub open spec fn results_view(v: Seq<Option<String>>) -> Seq<Option<Seq<u8>>> {
    v.map_values(
        |r: Option<String>|
            match r {
                Some(s) => Some(encode_utf8(s@)),
                None => None,
            },
    )
}

/// The bytes between two character boundaries of valid UTF-8 are valid UTF-8.
pub proof fn lemma_valid_between(s: Seq<u8>, a: int, b: int)
    requires
        valid_utf8(s),
        0 <= a <= b <= s.len(),
        is_char_boundary(s, a),
        is_char_boundary(s, b),
    ensures
        valid_utf8(s.subrange(a, b)),
{
    valid_utf8_split(s, a);
    let t = s.subrange(a, s.len() as int);
    if b < s.len() {
        is_char_boundary_iff_not_is_continuation_byte(s, b);
        is_char_boundary_iff_not_is_continuation_byte(t, b - a);
        assert(t[b - a] == s[b]);
    } else {
        is_char_boundary_start_end_of_seq(t);
    }
    valid_utf8_split(t, b - a);
    assert(t.subrange(0, b - a) =~= s.subrange(a, b));
}

/// The bytes that stand in the place of literal `o`.
fn replacement_bytes(src: &[u8], o: &LiteralOccurrence, result: &Option<String>, extra: usize) -> (r:
    Vec<u8>)
    requires
        o@.start <= o@.end <= src@.len(),
    ensures
        r@ == replacement(
            src@,
            o@,
            match result {
                Some(s) => Some(encode_utf8(s@)),
                None => None,
            },
            extra as nat,
        ),
{
    match result {
        Some(f) => {
            let fb = f.as_str().as_bytes();
            match o.kind {
                LiteralKind::Raw { hashes } => format_raw_string_literal(
                    hashes,
                    o.start_column,
                    extra,
                    o.line_count,
                    fb,
                ),
                LiteralKind::Quoted => format_string_literal(fb),
            }
        },
        None => {
            let mut r: Vec<u8> = Vec::new();
            push_range(&mut r, src, o.start_byte, o.end_byte);
            assert(r@ =~= src@.subrange(o@.start as int, o@.end as int));
            r
        },
    }
}

/// Rebuilds each literal in `occurrences` around the formatter's result for it, and splices the
/// rebuilt literals into `source`; a literal whose result is `None` is left as it was. The
/// replacements are placed by their offsets in the unchanged source, so that one literal that
/// changes length cannot move another.
pub fn rewrite(
    source: &str,
    occurrences: &Vec<LiteralOccurrence>,
    formatted: &Vec<Option<String>>,
    literal_indentation: usize,
) -> (r: String)
    requires
        placed(occurrences_view(occurrences@), encode_utf8(source@)),
        formatted@.len() == occurrences@.len(),
    ensures
        encode_utf8(r@) == rewritten(
            encode_utf8(source@),
            occurrences_view(occurrences@),
            results_view(formatted@),
            literal_indentation as nat,
        ),
{
    let src = source.as_bytes();
    let ghost occs = occurrences_view(occurrences@);
    let ghost results = results_view(formatted@);
    let ghost extra = literal_indentation as nat;
    proof {
        encode_utf8_valid_utf8(source@);
        is_char_boundary_start_end_of_seq(src@);
    }
    let mut out: Vec<u8> = Vec::new();
    let mut prev: usize = 0;
    let mut k: usize = 0;
    while k < occurrences.len()
        invariant
            k <= occs.len(),
            occs == occurrences_view(occurrences@),
            results == results_view(formatted@),
            formatted@.len() == occurrences@.len(),
            extra == literal_indentation as nat,
            src@ == encode_utf8(source@),
            valid_utf8(src@),
            placed(occs, src@),
            prev == resume_at(occs, k as int),
            prev <= src@.len(),
            is_char_boundary(src@, prev as int),
            out@ == spliced(src@, occs, results, extra, k as int),
            valid_utf8(out@),
        decreases occs.len() - k,
    {
        let o = &occurrences[k];
        assert(occs[k as int] == o@);
        if k > 0 {
            assert(occs[k as int].start >= occs[k - 1].end);
        }
        let ghost before = out@;
        push_range(&mut out, src, prev, o.start_byte);
        let piece = replacement_bytes(src, o, &formatted[k], literal_indentation);
        proof {
            lemma_valid_between(src@, prev as int, o@.start as int);
            lemma_valid_between(src@, o@.start as int, o@.end as int);
            assert(results[k as int] == match formatted@[k as int] {
                Some(s) => Some(encode_utf8(s@)),
                None => None,
            });
            if let Some(s) = formatted@[k as int] {
                encode_utf8_valid_utf8(s@);
                match o@.kind {
                    LiteralKind::Raw { hashes } => lemma_rebuild_valid(
                        hashes as nat,
                        o@.column,
                        extra,
                        o@.line_count,
                        encode_utf8(s@),
                    ),
                    LiteralKind::Quoted => lemma_rebuild_valid(
                        0,
                        o@.column,
                        extra,
                        o@.line_count,
                        encode_utf8(s@),
                    ),
                }
            }
            valid_utf8_concat(before, src@.subrange(prev as int, o@.start as int));
            valid_utf8_concat(before + src@.subrange(prev as int, o@.start as int), piece@);
        }
        push_all(&mut out, piece.as_slice());
        prev = o.end_byte;
        k = k + 1;
    }
    proof {
        lemma_valid_between(src@, prev as int, src@.len() as int);
        valid_utf8_concat(out@, src@.subrange(prev as int, src@.len() as int));
    }
    push_range(&mut out, src, prev, src.len());
    match string_from_utf8(out) {
        Some(s) => s,
        None => {
            proof {
                assert(false);
            }
            String::new()
        },
    }
}

/// Why a document could not be rewritten.
#[derive(PartialEq, Eq, Structural, Clone, Copy, Debug)]
pub enum FormatError {
    /// No macro names were configured.
    NoMacros,
    /// The parser built no syntax tree from the source.
    Unparsable,
    /// The literals found overlap or are out of order, so no edit could be placed safely.
    Misplaced,
}

impl FormatError {
    /// A description of the error.
    pub fn message(&self) -> (r: String) {
        match self {
            FormatError::NoMacros => "no macros like 'query_as, sqlx::query, migrate' specified for formatting".to_owned(),
            FormatError::Unparsable => "failed to parse the source as Rust".to_owned(),
            FormatError::Misplaced => "the string literals of the matched macros overlap".to_owned(),
        }
    }
}

/// Each literal found lies within the source, between two character boundaries.
pub proof fn lemma_collect_placed(nodes: Seq<NodeView>, src: Seq<u8>, names: Seq<Seq<u8>>, n: int)
    ensures
        forall|k: int|
            0 <= k < collect(nodes, src, names, n).len() ==> {
                let o = #[trigger] collect(nodes, src, names, n)[k];
                &&& o.start <= o.end <= src.len()
                &&& is_char_boundary(src, o.start as int)
                &&& is_char_boundary(src, o.end as int)
            },
    decreases n,
{
    if n > 0 {
        lemma_collect_placed(nodes, src, names, n - 1);
        let before = collect(nodes, src, names, n - 1);
        let c = collect(nodes, src, names, n);
        assert forall|k: int| 0 <= k < c.len() implies {
            let o = #[trigger] c[k];
            &&& o.start <= o.end <= src.len()
            &&& is_char_boundary(src, o.start as int)
            &&& is_char_boundary(src, o.end as int)
        } by {
            if k < before.len() {
                assert(c[k] == before[k]);
            }
        }
    }
}

/// The flag handed to the formatter with a literal of kind `kind`: `true` for raw literals,
/// `quoted_flag` for quoted ones.
pub open spec fn flag_of(kind: LiteralKind, quoted_flag: bool) -> bool {
    match kind {
        LiteralKind::Raw { .. } => true,
        LiteralKind::Quoted => quoted_flag,
    }
}

/// The formatter, handed a text whose bytes are `text` and the flag `raw`, may answer `result`:
/// `Some` of the bytes of the string it returns, or `None` where it fails.
pub open spec fn formatter_gave<F: Fn(&str, bool) -> Result<String, String>>(
    formatter: F,
    text: Seq<u8>,
    raw: bool,
    result: Option<Seq<u8>>,
) -> bool {
    exists|t: &str, answer: Result<String, String>|
        #![trigger formatter.ensures((t, raw), answer)]
        {
            &&& encode_utf8(t@) == text
            &&& formatter.ensures((t, raw), answer)
            &&& result == match answer {
                Ok(sql) => Some(encode_utf8(sql@)),
                Err(_) => None,
            }
        }
}

/// What rewriting `source` with the macro names `names` gives: an error where the source has
/// no syntax tree or its literals are out of order, and otherwise the source with each literal
/// rebuilt around the formatter's answer for its text, or kept where the formatter failed. Quoted
/// literals go to the formatter with the flag `quoted_flag`, raw ones with `true`.
pub open spec fn rewrite_outcome<F: Fn(&str, bool) -> Result<String, String>>(
    formatter: F,
    quoted_flag: bool,
    source: Seq<char>,
    extra: nat,
    names: Seq<Seq<u8>>,
    r: Result<String, FormatError>,
) -> bool {
    match rust_syntax_of(source) {
        None => r == Err::<String, FormatError>(FormatError::Unparsable),
        Some(nodes) => {
            let src = encode_utf8(source);
            let occs = literals_of(nodes, src, names);
            if in_order(occs) {
                &&& r is Ok
                &&& exists|results: Seq<Option<Seq<u8>>>|
                    {
                        &&& results.len() == occs.len()
                        &&& forall|k: int|
                            0 <= k < occs.len() ==> formatter_gave(
                                formatter,
                                #[trigger] occs[k].text,
                                flag_of(occs[k].kind, quoted_flag),
                                results[k],
                            )
                        &&& encode_utf8(r->Ok_0@) == #[trigger] rewritten(
                            src,
                            occs,
                            results,
                            extra,
                        )
                    }
            } else {
                r == Err::<String, FormatError>(FormatError::Misplaced)
            }
        },
    }
}

/// Rewrites as `rewrite_with_flag` does, handing raw and quoted literals alike to the formatter
/// with the flag `true`.
pub fn rewrite_with_names<F>(
    source: &str,
    literal_indentation: usize,
    names: &Vec<Vec<u8>>,
    formatter: F,
) -> (r: Result<String, FormatError>) where F: Fn(&str, bool) -> Result<String, String>
    requires
        forall|s: &str, raw: bool| formatter.requires((s, raw)),
    ensures
        rewrite_outcome(formatter, true, source@, literal_indentation as nat, views(names@), r),
{
    rewrite_with_flag(source, literal_indentation, names, true, formatter)
}

/// Parses `source`, finds the literals of the macro invocations named by `names`, hands the text
/// of each to `formatter` in turn, and splices the rebuilt literals into the source. A literal
/// for which the formatter fails is kept as it was. Raw literals go to the formatter with the
/// flag `true`, quoted ones with `quoted_flag`.
pub fn rewrite_with_flag<F>(
    source: &str,
    literal_indentation: usize,
    names: &Vec<Vec<u8>>,
    quoted_flag: bool,
    formatter: F,
) -> (r: Result<String, FormatError>) where F: Fn(&str, bool) -> Result<String, String>
    requires
        forall|s: &str, raw: bool| formatter.requires((s, raw)),
    ensures
        rewrite_outcome(
            formatter,
            quoted_flag,
            source@,
            literal_indentation as nat,
            views(names@),
            r,
        ),
{
    let nodes = match parse_rust(source) {
        Some(nodes) => nodes,
        None => {
            return Err(FormatError::Unparsable);
        },
    };
    let occurrences = match find_and_collect(source, &nodes, names) {
        Some(occurrences) => occurrences,
        None => {
            return Err(FormatError::Misplaced);
        },
    };
    let ghost occs = occurrences_view(occurrences@);
    let mut formatted: Vec<Option<String>> = Vec::new();
    let mut k: usize = 0;
    while k < occurrences.len()
        invariant
            k <= occurrences@.len(),
            occs == occurrences_view(occurrences@),
            formatted@.len() == k,
            forall|s: &str, raw: bool| formatter.requires((s, raw)),
            forall|i: int|
                0 <= i < k ==> formatter_gave(
                    formatter,
                    #[trigger] occs[i].text,
                    flag_of(occs[i].kind, quoted_flag),
                    results_view(formatted@)[i],
                ),
        decreases occurrences@.len() - k,
    {
        let text = occurrences[k].text.as_str();
        let raw = match occurrences[k].kind {
            LiteralKind::Raw { .. } => true,
            LiteralKind::Quoted => quoted_flag,
        };
        let answer = formatter(text, raw);
        let ghost given = answer;
        let ghost before = results_view(formatted@);
        match answer {
            Ok(sql) => formatted.push(Some(sql)),
            Err(_) => formatted.push(None),
        }
        proof {
            assert(results_view(formatted@) =~= before.push(
                match given {
                    Ok(sql) => Some(encode_utf8(sql@)),
                    Err(_) => None,
                },
            ));
            assert(occs[k as int].text == encode_utf8(text@));
            assert(occs[k as int].kind == occurrences@[k as int].kind);
            assert(raw == flag_of(occs[k as int].kind, quoted_flag));
            assert(formatter.ensures((text, raw), given));
            assert(formatter_gave(
                formatter,
                occs[k as int].text,
                raw,
                results_view(formatted@)[k as int],
            ));
            assert forall|i: int| 0 <= i < k + 1 implies formatter_gave(
                formatter,
                #[trigger] occs[i].text,
                flag_of(occs[i].kind, quoted_flag),
                results_view(formatted@)[i],
            ) by {
                if i < k {
                    assert(results_view(formatted@)[i] == before[i]);
                }
            }
        }
        k = k + 1;
    }
    proof {
        lemma_collect_placed(
            rust_syntax_of(source@).unwrap(),
            encode_utf8(source@),
            views(names@),
            rust_syntax_of(source@).unwrap().len() as int,
        );
    }
    let out = rewrite(source, &occurrences, &formatted, literal_indentation);
    proof {
        let occs = occurrences_view(occurrences@);
        assert(rewritten(
            encode_utf8(source@),
            occs,
            results_view(formatted@),
            literal_indentation as nat,
        ) == encode_utf8(out@));
    }
    Ok(out)
}

/// The byte strings of the names.
pub open spec fn name_bytes(names: Seq<String>) -> Seq<Seq<u8>> {
    names.map_values(|s: String| encode_utf8(s@))
}

/// Rewrites the SQL in the literals of the macro invocations of `source` that are named in
/// `macros_names`, as `rewrite_with_names` does.
pub fn format_query_macros_literals<F>(
    source: &str,
    literal_indentation: usize,
    macros_names: Vec<String>,
    formatter: F,
) -> (r: Result<String, FormatError>) where F: Fn(&str, bool) -> Result<String, String>
    requires
        forall|s: &str, raw: bool| formatter.requires((s, raw)),
    ensures
        rewrite_outcome(
            formatter,
            true,
            source@,
            literal_indentation as nat,
            name_bytes(macros_names@),
            r,
        ),
{
    let mut names: Vec<Vec<u8>> = Vec::new();
    let mut k: usize = 0;
    while k < macros_names.len()
        invariant
            k <= macros_names@.len(),
            views(names@) == name_bytes(macros_names@).subrange(0, k as int),
        decreases macros_names@.len() - k,
    {
        let mut name: Vec<u8> = Vec::new();
        push_all(&mut name, macros_names[k].as_str().as_bytes());
        let ghost before = views(names@);
        names.push(name);
        assert(views(names@) =~= before.push(encode_utf8(macros_names@[k as int]@)));
        assert(name_bytes(macros_names@).subrange(0, k + 1) =~= before.push(
            encode_utf8(macros_names@[k as int]@),
        ));
        k = k + 1;
    }
    assert(name_bytes(macros_names@).subrange(0, macros_names@.len() as int) =~= name_bytes(
        macros_names@,
    ));
    rewrite_with_names(source, literal_indentation, &names, formatter)
}

proof fn lemma_spliced_unchanged(
    src: Seq<u8>,
    occs: Seq<OccurrenceView>,
    results: Seq<Option<Seq<u8>>>,
    extra: nat,
    k: int,
)
    requires
        0 <= k <= occs.len(),
        in_order(occs),
        forall|i: int| 0 <= i < occs.len() ==> #[trigger] occs[i].start <= occs[i].end <= src.len(),
        forall|i: int|
            0 <= i < occs.len() ==> #[trigger] replacement(src, occs[i], results[i], extra)
                == src.subrange(occs[i].start as int, occs[i].end as int),
    ensures
        spliced(src, occs, results, extra, k) == src.subrange(0, resume_at(occs, k) as int),
    decreases k,
{
    if k > 0 {
        lemma_spliced_unchanged(src, occs, results, extra, k - 1);
        let o = occs[k - 1];
        assert(o.start <= o.end <= src.len());
        assert(replacement(src, o, results[k - 1], extra) == src.subrange(o.start as int, o.end as int));
        if k > 1 {
            assert(occs[k - 1].start >= occs[k - 2].end);
            assert(occs[k - 2].start <= occs[k - 2].end);
        }
        assert(src.subrange(0, resume_at(occs, k - 1) as int) + src.subrange(
            resume_at(occs, k - 1) as int,
            o.start as int,
        ) + src.subrange(o.start as int, o.end as int) =~= src.subrange(0, o.end as int));
    }
}

/// Idempotence: in a document that is already formatted, each literal is the rebuild of the
/// formatter's answer for it (or the formatter fails on it). Formatting it again, with a
/// formatter that gives the same answers, leaves the document byte for byte as it is.
pub proof fn lemma_rewrite_fixed_point(
    src: Seq<u8>,
    occs: Seq<OccurrenceView>,
    results: Seq<Option<Seq<u8>>>,
    extra: nat,
)
    requires
        in_order(occs),
        forall|i: int| 0 <= i < occs.len() ==> #[trigger] occs[i].start <= occs[i].end <= src.len(),
        results.len() == occs.len(),
        forall|i: int|
            0 <= i < occs.len() ==> (#[trigger] results[i] matches Some(f) ==> src.subrange(
                occs[i].start as int,
                occs[i].end as int,
            ) == rebuilt(occs[i], f, extra)),
    ensures
        rewritten(src, occs, results, extra) == src,
{
    assert forall|i: int| 0 <= i < occs.len() implies #[trigger] replacement(
        src,
        occs[i],
        results[i],
        extra,
    ) == src.subrange(occs[i].start as int, occs[i].end as int) by {
        assert(results[i] is Some ==> src.subrange(occs[i].start as int, occs[i].end as int)
            == rebuilt(occs[i], results[i]->Some_0, extra));
    }
    lemma_spliced_unchanged(src, occs, results, extra, occs.len() as int);
    let e = resume_at(occs, occs.len() as int);
    if occs.len() > 0 {
        assert(occs[occs.len() - 1].start <= occs[occs.len() - 1].end);
    }
    assert(src.subrange(0, e as int) + src.subrange(e as int, src.len() as int) =~= src);
}

/// Failure isolation: of two literals, where the formatter fails for the first and succeeds for
/// the second, the first stays byte for byte as it was, at its place, and only the second is
/// replaced.
pub proof fn lemma_failure_isolated(
    src: Seq<u8>,
    first: OccurrenceView,
    second: OccurrenceView,
    f: Seq<u8>,
    extra: nat,
)
    requires
        first.start <= first.end <= second.start <= second.end <= src.len(),
    ensures
        rewritten(src, seq![first, second], seq![None, Some(f)], extra) == src.subrange(
            0,
            second.start as int,
        ) + replacement(src, second, Some(f), extra) + src.subrange(
            second.end as int,
            src.len() as int,
        ),
        rewritten(src, seq![first, second], seq![None, Some(f)], extra).subrange(
            first.start as int,
            first.end as int,
        ) == src.subrange(first.start as int, first.end as int),
{
    let occs = seq![first, second];
    let results = seq![None, Some(f)];
    assert(occs[0] == first && occs[1] == second);
    assert(results[0] == None::<Seq<u8>> && results[1] == Some(f));
    assert(spliced(src, occs, results, extra, 0) == Seq::<u8>::empty());
    let s1 = spliced(src, occs, results, extra, 1);
    assert(s1 == Seq::<u8>::empty() + src.subrange(0, first.start as int) + src.subrange(
        first.start as int,
        first.end as int,
    ));
    let s2 = spliced(src, occs, results, extra, 2);
    assert(s2 == s1 + src.subrange(first.end as int, second.start as int) + replacement(
        src,
        second,
        Some(f),
        extra,
    ));
    assert(s2 =~= src.subrange(0, second.start as int) + replacement(src, second, Some(f), extra));
    let r = rewritten(src, occs, results, extra);
    assert(r.subrange(first.start as int, first.end as int) =~= src.subrange(
        first.start as int,
        first.end as int,
    ));
}

/// Where the replacement of literal `k` starts in the rewritten text.
pub open spec fn moved_start(
    src: Seq<u8>,
    occs: Seq<OccurrenceView>,
    results: Seq<Option<Seq<u8>>>,
    extra: nat,
    k: int,
) -> int {
    spliced(src, occs, results, extra, k).len() + (occs[k].start - resume_at(occs, k))
}

/// The literals lie in order within the source.
pub open spec fn within(occs: Seq<OccurrenceView>, len: nat) -> bool {
    &&& in_order(occs)
    &&& forall|i: int| #![trigger occs[i]] 0 <= i < occs.len() ==> occs[i].start <= occs[i].end <= len
}

proof fn lemma_spliced_prefix(
    src: Seq<u8>,
    occs: Seq<OccurrenceView>,
    results: Seq<Option<Seq<u8>>>,
    extra: nat,
    m: int,
    n: int,
)
    requires
        0 <= m <= n <= occs.len(),
        within(occs, src.len()),
    ensures
        spliced(src, occs, results, extra, m).len() <= spliced(src, occs, results, extra, n).len(),
        spliced(src, occs, results, extra, n).subrange(
            0,
            spliced(src, occs, results, extra, m).len() as int,
        ) == spliced(src, occs, results, extra, m),
    decreases n - m,
{
    let a = spliced(src, occs, results, extra, m);
    if m < n {
        lemma_spliced_prefix(src, occs, results, extra, m, n - 1);
        let b = spliced(src, occs, results, extra, n - 1);
        let c = spliced(src, occs, results, extra, n);
        assert(c.subrange(0, b.len() as int) =~= b);
        assert(c.subrange(0, a.len() as int) =~= b.subrange(0, a.len() as int));
    } else {
        assert(a.subrange(0, a.len() as int) =~= a);
    }
}

proof fn lemma_gap(occs: Seq<OccurrenceView>, len: nat, k: int)
    requires
        within(occs, len),
        0 <= k < occs.len(),
    ensures
        resume_at(occs, k) <= occs[k].start <= occs[k].end <= len,
{
    assert(occs[k].start <= occs[k].end <= len);
    if k > 0 {
        assert(occs[k].start >= occs[k - 1].end);
        assert(occs[k - 1].start <= occs[k - 1].end <= len);
    }
}

/// The replacement of literal `k` stands in the rewritten text at `moved_start`, and the
/// rewritten text up to its end is `spliced(k + 1)`.
proof fn lemma_replacement_placed(
    src: Seq<u8>,
    occs: Seq<OccurrenceView>,
    results: Seq<Option<Seq<u8>>>,
    extra: nat,
    k: int,
)
    requires
        within(occs, src.len()),
        0 <= k < occs.len(),
    ensures
        ({
            let out = rewritten(src, occs, results, extra);
            let rep = replacement(src, occs[k], results[k], extra);
            let p = moved_start(src, occs, results, extra, k);
            &&& spliced(src, occs, results, extra, k).len() <= p
            &&& p + rep.len() == spliced(src, occs, results, extra, k + 1).len()
            &&& p + rep.len() <= out.len()
            &&& out.subrange(p, p + rep.len()) == rep
        }),
{
    let out = rewritten(src, occs, results, extra);
    let rep = replacement(src, occs[k], results[k], extra);
    let p = moved_start(src, occs, results, extra, k);
    lemma_gap(occs, src.len(), k);
    lemma_spliced_prefix(src, occs, results, extra, k + 1, occs.len() as int);
    let whole = spliced(src, occs, results, extra, occs.len() as int);
    let upto = spliced(src, occs, results, extra, k + 1);
    assert(upto == spliced(src, occs, results, extra, k) + src.subrange(
        resume_at(occs, k) as int,
        occs[k].start as int,
    ) + rep);
    assert(out.subrange(0, upto.len() as int) =~= upto) by {
        assert(out.subrange(0, whole.len() as int) =~= whole);
    }
    assert(out.subrange(p, p + rep.len()) =~= upto.subrange(p, p + rep.len()));
    assert(upto.subrange(p, p + rep.len()) =~= rep);
}

/// Idempotence, over a second pass: rewrite a document once; in the output, let the literals be
/// found again where their replacements were placed, with the same kinds and at the same
/// columns, and let the formatter give the same answers. The second rewrite then leaves the
/// output byte for byte as it is. (A literal whose column moves, because an earlier literal
/// on its line changed length, is left out: its indentation follows its column.)
pub proof fn lemma_second_pass_unchanged(
    src: Seq<u8>,
    occs: Seq<OccurrenceView>,
    results: Seq<Option<Seq<u8>>>,
    extra: nat,
    again: Seq<OccurrenceView>,
)
    requires
        within(occs, src.len()),
        results.len() == occs.len(),
        again.len() == occs.len(),
        forall|k: int|
            0 <= k < occs.len() ==> {
                &&& #[trigger] again[k].start == moved_start(src, occs, results, extra, k)
                &&& again[k].end == again[k].start + replacement(
                    src,
                    occs[k],
                    results[k],
                    extra,
                ).len()
                &&& again[k].kind == occs[k].kind
                &&& again[k].column == occs[k].column
            },
    ensures
        rewritten(rewritten(src, occs, results, extra), again, results, extra) == rewritten(
            src,
            occs,
            results,
            extra,
        ),
{
    let out = rewritten(src, occs, results, extra);
    assert forall|k: int| 0 <= k < again.len() implies #[trigger] again[k].start <= again[k].end
        <= out.len() by {
        lemma_replacement_placed(src, occs, results, extra, k);
        assert(again[k].start == moved_start(src, occs, results, extra, k));
    }
    assert forall|k: int| 0 < k < again.len() implies #[trigger] again[k].start >= again[k
        - 1].end by {
        lemma_replacement_placed(src, occs, results, extra, k - 1);
        lemma_replacement_placed(src, occs, results, extra, k);
        assert(again[k - 1].start == moved_start(src, occs, results, extra, k - 1));
        assert(again[k].start == moved_start(src, occs, results, extra, k));
    }
    assert forall|i: int| 0 <= i < again.len() implies (#[trigger] results[i] matches Some(f)
        ==> out.subrange(again[i].start as int, again[i].end as int) == rebuilt(
        again[i],
        f,
        extra,
    )) by {
        lemma_replacement_placed(src, occs, results, extra, i);
        assert(again[i].start == moved_start(src, occs, results, extra, i));
    }
    lemma_rewrite_fixed_point(out, again, results, extra);
}

} // verus!
