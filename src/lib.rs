//! Rewrites the SQL held in string literals of selected macro invocations: the literals are
//! found in the source's syntax tree, their text goes to a formatter, and the formatted text is
//! put back in the literal's shape.
use vstd::prelude::*;
use vstd::utf8::{encode_utf8, encode_utf8_valid_utf8, valid_utf8_concat};

pub mod literal;
pub mod rewrite;
pub mod syntax;
pub mod text;

pub use crate::rewrite::{format_query_macros_literals, FormatError};
use crate::rewrite::{rewrite_outcome, rewrite_with_names};
use crate::text::{
    is_ascii_bytes, lemma_ascii_valid, lemma_trim_valid, push_all, push_range, string_from_utf8,
    trim, trim_end, trim_end_len, trim_start_index, trimmed, views, LF,
};

verus! {

pub const COMMA: u8 = 44;

/// The pieces of `s` between the bytes `b`; there is always one more piece than such bytes.
pub open spec fn split_on(s: Seq<u8>, b: u8) -> Seq<Seq<u8>>
    decreases s.len(),
{
    if s.len() == 0 {
        seq![Seq::empty()]
    } else {
        let p = split_on(s.drop_last(), b);
        if s.last() == b {
            p.push(Seq::empty())
        } else {
            p.update(p.len() - 1, p.last().push(s.last()))
        }
    }
}

/// There is always at least one piece.
pub proof fn lemma_split_on_nonempty(s: Seq<u8>, b: u8)
    ensures
        split_on(s, b).len() >= 1,
    decreases s.len(),
{
    if s.len() > 0 {
        lemma_split_on_nonempty(s.drop_last(), b);
    }
}

/// The pieces trimmed, and those left empty dropped.
pub open spec fn kept_names(pieces: Seq<Seq<u8>>) -> Seq<Seq<u8>>
    decreases pieces.len(),
{
    if pieces.len() == 0 {
        Seq::empty()
    } else {
        let rest = kept_names(pieces.drop_last());
        let t = trim(pieces.last());
        if t.len() > 0 {
            rest.push(t)
        } else {
            rest
        }
    }
}

/// The names of a comma-separated list: each piece trimmed, empty pieces dropped.
pub open spec fn listed_names(s: Seq<u8>) -> Seq<Seq<u8>> {
    kept_names(split_on(s, COMMA))
}

/// The macros rewritten when none are configured.
pub open spec fn default_macro_names() -> Seq<Seq<u8>> {
    seq![
        encode_utf8("migrate"@),
        encode_utf8("sqlx::migrate"@),
        encode_utf8("query"@),
        encode_utf8("sqlx::query"@),
        encode_utf8("query_unchecked"@),
        encode_utf8("sqlx::query_unchecked"@),
        encode_utf8("query_as"@),
        encode_utf8("sqlx::query_as"@),
        encode_utf8("query_as_unchecked"@),
        encode_utf8("sqlx::query_as_unchecked"@),
        encode_utf8("query_scalar"@),
        encode_utf8("sqlx::query_scalar"@),
        encode_utf8("query_scalar_unchecked"@),
        encode_utf8("sqlx::query_scalar_unchecked"@),
    ]
}

/// The macro names that a configuration selects: the listed ones, or the defaults.
pub open spec fn configured_names(macros: Option<String>) -> Seq<Seq<u8>> {
    match macros {
        Some(m) => listed_names(encode_utf8(m@)),
        None => default_macro_names(),
    }
}

fn push_name(names: &mut Vec<Vec<u8>>, name: &str)
    ensures
        views(final(names)@) == views(old(names)@).push(encode_utf8(name@)),
{
    let mut v: Vec<u8> = Vec::new();
    push_all(&mut v, name.as_bytes());
    names.push(v);
    assert(views(final(names)@) =~= views(old(names)@).push(encode_utf8(name@)));
}

fn default_names() -> (r: Vec<Vec<u8>>)
    ensures
        views(r@) == default_macro_names(),
{
    let mut r: Vec<Vec<u8>> = Vec::new();
    push_name(&mut r, "migrate");
    push_name(&mut r, "sqlx::migrate");
    push_name(&mut r, "query");
    push_name(&mut r, "sqlx::query");
    push_name(&mut r, "query_unchecked");
    push_name(&mut r, "sqlx::query_unchecked");
    push_name(&mut r, "query_as");
    push_name(&mut r, "sqlx::query_as");
    push_name(&mut r, "query_as_unchecked");
    push_name(&mut r, "sqlx::query_as_unchecked");
    push_name(&mut r, "query_scalar");
    push_name(&mut r, "sqlx::query_scalar");
    push_name(&mut r, "query_scalar_unchecked");
    push_name(&mut r, "sqlx::query_scalar_unchecked");
    assert(views(r@) =~= default_macro_names());
    r
}

/// The names of the comma-separated list `s`.
pub fn split_macro_names(s: &[u8]) -> (r: Vec<Vec<u8>>)
    ensures
        views(r@) == listed_names(s@),
{
    let mut names: Vec<Vec<u8>> = Vec::new();
    let mut cur: Vec<u8> = Vec::new();
    let mut i: usize = 0;
    assert(s@.subrange(0, 0) =~= Seq::<u8>::empty());
    while i < s.len()
        invariant
            i <= s@.len(),
            views(names@) == kept_names(split_on(s@.subrange(0, i as int), COMMA).drop_last()),
            cur@ == split_on(s@.subrange(0, i as int), COMMA).last(),
        decreases s@.len() - i,
    {
        let ghost pre = s@.subrange(0, i as int);
        let ghost next = s@.subrange(0, i + 1);
        let ghost p = split_on(pre, COMMA);
        let ghost before = views(names@);
        proof {
            assert(next.drop_last() =~= pre);
            lemma_split_on_nonempty(pre, COMMA);
        }
        if s[i] == COMMA {
            let t = trimmed(cur.as_slice());
            proof {
                assert(split_on(next, COMMA).drop_last() =~= p);
                assert(p.drop_last() =~= split_on(next, COMMA).drop_last().drop_last());
            }
            if t.len() > 0 {
                names.push(t);
                assert(views(names@) =~= before.push(t@));
            }
            cur = Vec::new();
            assert(split_on(next, COMMA).last() =~= Seq::<u8>::empty());
        } else {
            cur.push(s[i]);
            proof {
                assert(split_on(next, COMMA).drop_last() =~= p.drop_last());
                assert(split_on(next, COMMA).last() =~= p.last().push(s@[i as int]));
            }
        }
        i = i + 1;
    }
    proof {
        assert(s@.subrange(0, s@.len() as int) =~= s@);
        lemma_split_on_nonempty(s@, COMMA);
    }
    let t = trimmed(cur.as_slice());
    let ghost before = views(names@);
    if t.len() > 0 {
        names.push(t);
        assert(views(names@) =~= before.push(t@));
    }
    names
}

/// Rewrites the SQL in the literals of the macro invocations of `content`. `macros` is a
/// comma-separated list of macro names; without one, the sqlx query and migrate macros are
/// taken. A list that names no macro is an error. Each literal's text goes to `formatter`; a
/// literal for which it fails is kept as it was.
pub fn format<F>(
    content: &str,
    literal_indentation: usize,
    macros: &Option<String>,
    formatter: F,
) -> (r: Result<String, FormatError>) where F: Fn(&str, bool) -> Result<String, String>
    requires
        forall|s: &str, raw: bool| formatter.requires((s, raw)),
    ensures
        configured_names(*macros).len() == 0 ==> r == Err::<String, FormatError>(
            FormatError::NoMacros,
        ),
        configured_names(*macros).len() > 0 ==> rewrite_outcome(
            formatter,
            true,
            content@,
            literal_indentation as nat,
            configured_names(*macros),
            r,
        ),
{
    let names = match macros {
        Some(m) => split_macro_names(m.as_str().as_bytes()),
        None => default_names(),
    };
    if names.len() == 0 {
        return Err(FormatError::NoMacros);
    }
    rewrite_with_names(content, literal_indentation, &names, formatter)
}

/// Settles what a formatter printed: `None` where it printed nothing but White_Space, else the
/// text without its trailing White_Space and with one line feed at the end.
pub fn formatted_output(output: &str) -> (r: Option<String>)
    ensures
        r is None <==> trim(encode_utf8(output@)).len() == 0,
        r matches Some(s) ==> encode_utf8(s@) == trim_end(encode_utf8(output@)) + seq![LF],
{
    let b = output.as_bytes();
    let e = trim_end_len(b);
    let k = trim_start_index(b, 0, e);
    if k == e {
        return None;
    }
    let mut v: Vec<u8> = Vec::new();
    push_range(&mut v, b, 0, e);
    v.push(LF);
    proof {
        encode_utf8_valid_utf8(output@);
        lemma_trim_valid(b@);
        assert(is_ascii_bytes(seq![LF]));
        lemma_ascii_valid(seq![LF]);
        valid_utf8_concat(trim_end(b@), seq![LF]);
        assert(v@ =~= trim_end(b@) + seq![LF]);
    }
    match string_from_utf8(v) {
        Some(s) => Some(s),
        None => {
            proof {
                assert(false);
            }
            None
        },
    }
}

} // verus!
