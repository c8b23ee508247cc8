//! The syntax tree of a Rust source text, flattened in pre-order, and the walk that finds the
//! string literals of the selected macro invocations.
use vstd::prelude::*;
use vstd::utf8::{encode_utf8, is_char_boundary, valid_utf8};
use crate::literal::{raw_content, raw_hashes, unquote_raw_string_literal};
use crate::text::{line_count, lines_of, push_range, string_from_utf8, views};

verus! {

/// One node of a syntax tree, as it stands in the tree's pre-order list.
pub struct SyntaxNode {
    /// The grammar's name for the node, such as `macro_invocation`.
    pub kind: String,
    /// The name of the field of its parent that the node fills, if any.
    pub field: Option<String>,
    /// The number of ancestors of the node; the root has none.
    pub depth: usize,
    pub start_byte: usize,
    pub end_byte: usize,
    /// The column, in bytes, at which the node starts.
    pub start_column: usize,
}

/// What a `SyntaxNode` holds, as plain values.
pub struct NodeView {
    pub kind: Seq<char>,
    pub field: Option<Seq<char>>,
    pub depth: nat,
    pub start: nat,
    pub end: nat,
    pub column: nat,
}

impl View for SyntaxNode {
    type V = NodeView;

    open spec fn view(&self) -> NodeView {
        NodeView {
            kind: self.kind@,
            field: match self.field {
                Some(f) => Some(f@),
                None => None,
            },
            depth: self.depth as nat,
            start: self.start_byte as nat,
            end: self.end_byte as nat,
            column: self.start_column as nat,
        }
    }
}

pub open spec fn nodes_view(v: Seq<SyntaxNode>) -> Seq<NodeView> {
    v.map_values(|n: SyntaxNode| n@)
}

/// The syntax tree of a Rust source text, in pre-order, as the Rust grammar's parser builds it.
pub uninterp spec fn rust_syntax_of(source: Seq<char>) -> Option<Seq<NodeView>>;

/// Relies on `tree_sitter::Parser::parse`, loaded with `tree_sitter_rust::LANGUAGE`, and on
/// `TreeCursor::goto_descendant`, which visits the nodes in pre-order: the tree depends on the
/// source text alone.
#[verifier::external_body]
pub(crate) fn parse_rust(source: &str) -> (r: Option<Vec<SyntaxNode>>)
    ensures
        r matches Some(v) ==> rust_syntax_of(source@) == Some(nodes_view(v@)),
        r is None ==> rust_syntax_of(source@) is None,
{
    let mut parser = tree_sitter::Parser::new();
    parser.set_language(&tree_sitter_rust::LANGUAGE.into()).ok()?;
    let tree = parser.parse(source, None)?;
    let mut cursor = tree.walk();
    let mut nodes = Vec::new();
    for i in 0..tree.root_node().descendant_count() {
        cursor.goto_descendant(i);
        let n = cursor.node();
        let field = cursor.field_name().map(String::from);
        let (start_byte, end_byte) = (n.start_byte(), n.end_byte());
        let (kind, depth, start_column) = (n.kind().to_string(), cursor.depth() as usize, n.start_position().column);
        nodes.push(SyntaxNode { kind, field, depth, start_byte, end_byte, start_column });
    }
    Some(nodes)
}

/// The kind of the literals that are rewritten.
#[derive(PartialEq, Eq, Structural, Clone, Copy, Debug)]
pub enum LiteralKind {
    /// A raw literal with this many delimiter marks on each side.
    Raw { hashes: usize },
    /// A literal between one pair of quotes.
    Quoted,
}

/// A string literal found in a selected macro invocation.
pub struct LiteralOccurrence {
    pub kind: LiteralKind,
    /// The literal's bytes in the source, delimiters included.
    pub start_byte: usize,
    pub end_byte: usize,
    pub start_column: usize,
    /// The number of lines that the literal spans.
    pub line_count: usize,
    /// The text between the literal's delimiters.
    pub text: String,
}

/// What a `LiteralOccurrence` holds, as plain values; the text as UTF-8 bytes.
pub struct OccurrenceView {
    pub kind: LiteralKind,
    pub start: nat,
    pub end: nat,
    pub column: nat,
    pub line_count: nat,
    pub text: Seq<u8>,
}

impl View for LiteralOccurrence {
    type V = OccurrenceView;

    open spec fn view(&self) -> OccurrenceView {
        OccurrenceView {
            kind: self.kind,
            start: self.start_byte as nat,
            end: self.end_byte as nat,
            column: self.start_column as nat,
            line_count: self.line_count as nat,
            text: encode_utf8(self.text@),
        }
    }
}

pub open spec fn occurrences_view(v: Seq<LiteralOccurrence>) -> Seq<OccurrenceView> {
    v.map_values(|o: LiteralOccurrence| o@)
}

pub open spec fn macro_invocation_kind() -> Seq<char> {
    "macro_invocation"@
}

pub open spec fn raw_literal_kind() -> Seq<char> {
    "raw_string_literal"@
}

pub open spec fn quoted_literal_kind() -> Seq<char> {
    "string_literal"@
}

pub open spec fn macro_field() -> Seq<char> {
    "macro"@
}

/// The last node before index `k` at depth `d`, or -1.
pub open spec fn nearest_at_depth(nodes: Seq<NodeView>, k: int, d: int) -> int
    decreases k,
{
    if k <= 0 || k > nodes.len() {
        -1
    } else if nodes[k - 1].depth == d {
        k - 1
    } else {
        nearest_at_depth(nodes, k - 1, d)
    }
}

/// The parent of node `j`: the last node before it one level up, or -1.
pub open spec fn parent_of(nodes: Seq<NodeView>, j: int) -> int {
    nearest_at_depth(nodes, j, nodes[j].depth - 1)
}

/// The first child of node `i`, at index `k` or later, that fills the field `macro`.
pub open spec fn name_child_from(nodes: Seq<NodeView>, i: int, k: int) -> Option<int>
    decreases nodes.len() - k,
{
    if k <= i || k >= nodes.len() || nodes[k].depth <= nodes[i].depth {
        None
    } else if nodes[k].depth == nodes[i].depth + 1 && nodes[k].field == Some(macro_field()) {
        Some(k)
    } else {
        name_child_from(nodes, i, k + 1)
    }
}

/// The bytes of a node's range; it lies within the source.
pub open spec fn in_source(src: Seq<u8>, n: NodeView) -> bool {
    n.start <= n.end <= src.len()
}

pub open spec fn node_text(src: Seq<u8>, n: NodeView) -> Seq<u8> {
    src.subrange(n.start as int, n.end as int)
}

/// Node `i` is a macro invocation whose name is one of `names`.
pub open spec fn matched_invocation(
    nodes: Seq<NodeView>,
    src: Seq<u8>,
    names: Seq<Seq<u8>>,
    i: int,
) -> bool {
    &&& 0 <= i < nodes.len()
    &&& nodes[i].kind == macro_invocation_kind()
    &&& match name_child_from(nodes, i, i + 1) {
        Some(k) => in_source(src, nodes[k]) && names.contains(node_text(src, nodes[k])),
        None => false,
    }
}

/// No sibling of node `j` between its parent `g` and itself has its kind.
pub open spec fn first_of_kind(nodes: Seq<NodeView>, g: int, j: int) -> bool {
    forall|k: int|
        g < k < j && #[trigger] nodes[k].depth == nodes[j].depth ==> nodes[k].kind
            != nodes[j].kind
}

pub open spec fn is_literal_kind(kind: Seq<char>) -> bool {
    kind == raw_literal_kind() || kind == quoted_literal_kind()
}

/// Node `j` is a string literal inside an argument group of a matched macro invocation, the
/// first of its kind in that group.
pub open spec fn selected(nodes: Seq<NodeView>, src: Seq<u8>, names: Seq<Seq<u8>>, j: int) -> bool {
    let g = parent_of(nodes, j);
    &&& 0 <= j < nodes.len()
    &&& is_literal_kind(nodes[j].kind)
    &&& g >= 0
    &&& matched_invocation(nodes, src, names, parent_of(nodes, g))
    &&& first_of_kind(nodes, g, j)
}

/// The literal of node `n` taken apart: `None` where its range or delimiters are broken or
/// its text is not valid UTF-8.
pub open spec fn occurrence_of(src: Seq<u8>, n: NodeView) -> Option<OccurrenceView> {
    if !in_source(src, n) || !is_char_boundary(src, n.start as int) || !is_char_boundary(
        src,
        n.end as int,
    ) {
        None
    } else {
        let lit = node_text(src, n);
        if n.kind == raw_literal_kind() {
            match raw_hashes(lit) {
                Some(h) => if valid_utf8(raw_content(lit, h)) {
                    Some(
                        OccurrenceView {
                            kind: LiteralKind::Raw { hashes: h as usize },
                            start: n.start,
                            end: n.end,
                            column: n.column,
                            line_count: line_count(lit),
                            text: raw_content(lit, h),
                        },
                    )
                } else {
                    None
                },
                None => None,
            }
        } else if lit.len() >= 2 && valid_utf8(lit.subrange(1, lit.len() - 1)) {
            Some(
                OccurrenceView {
                    kind: LiteralKind::Quoted,
                    start: n.start,
                    end: n.end,
                    column: n.column,
                    line_count: line_count(lit),
                    text: lit.subrange(1, lit.len() - 1),
                },
            )
        } else {
            None
        }
    }
}

/// The literals found among the first `n` nodes, in pre-order.
pub open spec fn collect(nodes: Seq<NodeView>, src: Seq<u8>, names: Seq<Seq<u8>>, n: int) -> Seq<
    OccurrenceView,
>
    decreases n,
{
    if n <= 0 {
        Seq::empty()
    } else {
        let before = collect(nodes, src, names, n - 1);
        if selected(nodes, src, names, n - 1) && occurrence_of(src, nodes[n - 1]) is Some {
            before.push(occurrence_of(src, nodes[n - 1]).unwrap())
        } else {
            before
        }
    }
}

/// The literals of all matched invocations of the tree.
pub open spec fn literals_of(nodes: Seq<NodeView>, src: Seq<u8>, names: Seq<Seq<u8>>) -> Seq<
    OccurrenceView,
> {
    collect(nodes, src, names, nodes.len() as int)
}

/// Each literal ends before the next one starts.
pub open spec fn in_order(occs: Seq<OccurrenceView>) -> bool {
    forall|k: int| 0 < k < occs.len() ==> #[trigger] occs[k].start >= occs[k - 1].end
}

/// `nearest_at_depth` gives -1 or an earlier node at the depth asked for.
pub proof fn lemma_nearest_bounds(nodes: Seq<NodeView>, k: int, d: int)
    ensures
        nearest_at_depth(nodes, k, d) == -1 || (0 <= nearest_at_depth(nodes, k, d) < k
            && nearest_at_depth(nodes, k, d) < nodes.len() && nodes[nearest_at_depth(
            nodes,
            k,
            d,
        )].depth == d),
    decreases k,
{
    if k > 0 && k <= nodes.len() && nodes[k - 1].depth != d {
        lemma_nearest_bounds(nodes, k - 1, d);
    }
}

/// The last node before index `k` at depth `d`.
fn nearest_at(nodes: &Vec<SyntaxNode>, k: usize, d: usize) -> (r: Option<usize>)
    requires
        k <= nodes@.len(),
    ensures
        match r {
            Some(i) => i as int == nearest_at_depth(nodes_view(nodes@), k as int, d as int),
            None => nearest_at_depth(nodes_view(nodes@), k as int, d as int) == -1,
        },
{
    let ghost nv = nodes_view(nodes@);
    let mut i = k;
    while i > 0 && nodes[i - 1].depth != d
        invariant
            i <= k <= nodes@.len(),
            nv == nodes_view(nodes@),
            nearest_at_depth(nv, k as int, d as int) == nearest_at_depth(nv, i as int, d as int),
        decreases i,
    {
        i = i - 1;
    }
    if i == 0 {
        None
    } else {
        Some(i - 1)
    }
}

/// The parent of node `j`.
fn parent_at(nodes: &Vec<SyntaxNode>, j: usize) -> (r: Option<usize>)
    requires
        j < nodes@.len(),
    ensures
        match r {
            Some(i) => i as int == parent_of(nodes_view(nodes@), j as int) && i < j,
            None => parent_of(nodes_view(nodes@), j as int) == -1,
        },
{
    let ghost nv = nodes_view(nodes@);
    proof {
        lemma_nearest_bounds(nv, j as int, nv[j as int].depth - 1);
    }
    if nodes[j].depth == 0 {
        None
    } else {
        nearest_at(nodes, j, nodes[j].depth - 1)
    }
}

/// Whether two byte strings are equal.
fn same_bytes(a: &[u8], b: &[u8], start: usize, end: usize) -> (r: bool)
    requires
        start <= end <= b@.len(),
    ensures
        r == (a@ == b@.subrange(start as int, end as int)),
{
    if a.len() != end - start {
        return false;
    }
    let mut k: usize = 0;
    while k < a.len()
        invariant
            a@.len() == end - start,
            start <= end <= b@.len(),
            k <= a@.len(),
            forall|t: int| 0 <= t < k ==> a@[t] == b@[start + t],
        decreases a@.len() - k,
    {
        if a[k] != b[start + k] {
            assert(a@[k as int] != b@.subrange(start as int, end as int)[k as int]);
            return false;
        }
        k = k + 1;
    }
    assert(a@ =~= b@.subrange(start as int, end as int));
    true
}

/// Whether `src[start..end]` is one of `names`.
fn name_listed(names: &Vec<Vec<u8>>, src: &[u8], start: usize, end: usize) -> (r: bool)
    requires
        start <= end <= src@.len(),
    ensures
        r == views(names@).contains(src@.subrange(start as int, end as int)),
{
    let ghost t = src@.subrange(start as int, end as int);
    let mut k: usize = 0;
    while k < names.len()
        invariant
            k <= names@.len(),
            t == src@.subrange(start as int, end as int),
            start <= end <= src@.len(),
            forall|i: int| 0 <= i < k ==> views(names@)[i] != t,
        decreases names@.len() - k,
    {
        if same_bytes(names[k].as_slice(), src, start, end) {
            assert(views(names@)[k as int] == t);
            return true;
        }
        k = k + 1;
    }
    false
}

/// The child of node `i` that holds the macro's name.
fn name_child(nodes: &Vec<SyntaxNode>, i: usize) -> (r: Option<usize>)
    requires
        i < nodes@.len(),
    ensures
        match r {
            Some(k) => name_child_from(nodes_view(nodes@), i as int, i + 1) == Some(k as int)
                && k < nodes@.len(),
            None => name_child_from(nodes_view(nodes@), i as int, i + 1) is None,
        },
{
    let ghost nv = nodes_view(nodes@);
    let name_field = "macro".to_owned();
    let d = nodes[i].depth;
    let len = nodes.len();
    let mut k = i + 1;
    while k < nodes.len() && nodes[k].depth > d
        invariant
            i < k <= nodes@.len(),
            nv == nodes_view(nodes@),
            d == nodes@[i as int].depth,
            name_field@ == macro_field(),
            name_child_from(nv, i as int, i + 1) == name_child_from(nv, i as int, k as int),
        decreases nodes@.len() - k,
    {
        if nodes[k].depth - 1 == d {
            let hit = match &nodes[k].field {
                Some(f) => *f == name_field,
                None => false,
            };
            if hit {
                return Some(k);
            }
        }
        k = k + 1;
    }
    None
}

/// Whether node `i` is a macro invocation named by one of `names`.
fn is_matched_invocation(
    nodes: &Vec<SyntaxNode>,
    src: &[u8],
    names: &Vec<Vec<u8>>,
    i: usize,
) -> (r: bool)
    requires
        i < nodes@.len(),
    ensures
        r == matched_invocation(nodes_view(nodes@), src@, views(names@), i as int),
{
    let invocation = "macro_invocation".to_owned();
    if nodes[i].kind != invocation {
        return false;
    }
    match name_child(nodes, i) {
        Some(k) => {
            let n = &nodes[k];
            n.start_byte <= n.end_byte && n.end_byte <= src.len() && name_listed(
                names,
                src,
                n.start_byte,
                n.end_byte,
            )
        },
        None => false,
    }
}

/// Whether node `j` is the first node of its kind among the children of node `g`.
fn is_first_of_kind(nodes: &Vec<SyntaxNode>, g: usize, j: usize) -> (r: bool)
    requires
        g < j < nodes@.len(),
    ensures
        r == first_of_kind(nodes_view(nodes@), g as int, j as int),
{
    let ghost nv = nodes_view(nodes@);
    let mut k = g + 1;
    while k < j
        invariant
            g < k <= j < nodes@.len(),
            nv == nodes_view(nodes@),
            forall|t: int|
                g < t < k && #[trigger] nv[t].depth == nv[j as int].depth ==> nv[t].kind
                    != nv[j as int].kind,
        decreases j - k,
    {
        if nodes[k].depth == nodes[j].depth && nodes[k].kind == nodes[j].kind {
            assert(nv[k as int].depth == nv[j as int].depth);
            return false;
        }
        k = k + 1;
    }
    true
}

/// Whether node `j` is a literal that the walk takes.
fn is_selected(nodes: &Vec<SyntaxNode>, src: &[u8], names: &Vec<Vec<u8>>, j: usize) -> (r: bool)
    requires
        j < nodes@.len(),
    ensures
        r == selected(nodes_view(nodes@), src@, views(names@), j as int),
{
    let ghost nv = nodes_view(nodes@);
    let raw = "raw_string_literal".to_owned();
    let quoted = "string_literal".to_owned();
    if nodes[j].kind != raw && nodes[j].kind != quoted {
        return false;
    }
    match parent_at(nodes, j) {
        Some(g) => {
            proof {
                lemma_nearest_bounds(nv, g as int, nv[g as int].depth - 1);
            }
            let invocation = parent_at(nodes, g);
            match invocation {
                Some(i) => is_matched_invocation(nodes, src, names, i) && is_first_of_kind(
                    nodes,
                    g,
                    j,
                ),
                None => false,
            }
        },
        None => false,
    }
}

/// The bytes `src[a..b]` as a string, where they are valid UTF-8.
fn text_between(src: &[u8], a: usize, b: usize) -> (r: Option<String>)
    requires
        a <= b <= src@.len(),
    ensures
        r is Some <==> valid_utf8(src@.subrange(a as int, b as int)),
        r matches Some(s) ==> encode_utf8(s@) == src@.subrange(a as int, b as int),
{
    let mut v: Vec<u8> = Vec::new();
    push_range(&mut v, src, a, b);
    assert(v@ =~= src@.subrange(a as int, b as int));
    string_from_utf8(v)
}

/// Takes the literal of node `n` apart.
fn occurrence_at(source: &str, src: &[u8], n: &SyntaxNode) -> (r: Option<LiteralOccurrence>)
    requires
        src@ == encode_utf8(source@),
    ensures
        match r {
            Some(o) => occurrence_of(src@, n@) == Some(o@),
            None => occurrence_of(src@, n@) is None,
        },
{
    if !(n.start_byte <= n.end_byte && n.end_byte <= src.len()) {
        return None;
    }
    if !(source.is_char_boundary(n.start_byte) && source.is_char_boundary(n.end_byte)) {
        return None;
    }
    let mut lit: Vec<u8> = Vec::new();
    push_range(&mut lit, src, n.start_byte, n.end_byte);
    let ghost lv = src@.subrange(n.start_byte as int, n.end_byte as int);
    assert(lit@ =~= lv);
    let line_count = lines_of(lit.as_slice()).len();
    let raw = "raw_string_literal".to_owned();
    if n.kind == raw {
        match unquote_raw_string_literal(lit.as_slice()) {
            Some((h, a, b)) => {
                match text_between(lit.as_slice(), a, b) {
                    Some(text) => Some(
                        LiteralOccurrence {
                            kind: LiteralKind::Raw { hashes: h },
                            start_byte: n.start_byte,
                            end_byte: n.end_byte,
                            start_column: n.start_column,
                            line_count,
                            text,
                        },
                    ),
                    None => None,
                }
            },
            None => None,
        }
    } else if lit.len() >= 2 {
        match text_between(lit.as_slice(), 1, lit.len() - 1) {
            Some(text) => Some(
                LiteralOccurrence {
                    kind: LiteralKind::Quoted,
                    start_byte: n.start_byte,
                    end_byte: n.end_byte,
                    start_column: n.start_column,
                    line_count,
                    text,
                },
            ),
            None => None,
        }
    } else {
        None
    }
}

/// The literals found among fewer nodes begin the literals found among more.
pub proof fn lemma_collect_prefix(
    nodes: Seq<NodeView>,
    src: Seq<u8>,
    names: Seq<Seq<u8>>,
    n: int,
    m: int,
)
    requires
        0 <= n <= m,
    ensures
        collect(nodes, src, names, n).len() <= collect(nodes, src, names, m).len(),
        collect(nodes, src, names, m).subrange(0, collect(nodes, src, names, n).len() as int)
            == collect(nodes, src, names, n),
    decreases m - n,
{
    if n < m {
        lemma_collect_prefix(nodes, src, names, n, m - 1);
        let a = collect(nodes, src, names, n);
        let b = collect(nodes, src, names, m - 1);
        let c = collect(nodes, src, names, m);
        assert(c.subrange(0, b.len() as int) =~= b);
        assert(c.subrange(0, a.len() as int) =~= b.subrange(0, a.len() as int));
    } else {
        let a = collect(nodes, src, names, n);
        assert(a.subrange(0, a.len() as int) =~= a);
    }
}

/// Walks the tree `nodes` of `source` in pre-order and takes apart the literals of the macro
/// invocations named by `macro_names`: in each argument group of such an invocation, the first
/// raw literal and the first quoted literal. Invocations are found at any depth. `None` where
/// the literals found do not follow one another in the source.
pub fn find_and_collect(source: &str, nodes: &Vec<SyntaxNode>, macro_names: &Vec<Vec<u8>>) -> (r:
    Option<Vec<LiteralOccurrence>>)
    ensures
        r is Some <==> in_order(
            literals_of(nodes_view(nodes@), encode_utf8(source@), views(macro_names@)),
        ),
        r matches Some(v) ==> occurrences_view(v@) == literals_of(
            nodes_view(nodes@),
            encode_utf8(source@),
            views(macro_names@),
        ),
{
    let src = source.as_bytes();
    let ghost nv = nodes_view(nodes@);
    let ghost names = views(macro_names@);
    let mut found: Vec<LiteralOccurrence> = Vec::new();
    let mut j: usize = 0;
    while j < nodes.len()
        invariant
            j <= nodes@.len(),
            src@ == encode_utf8(source@),
            nv == nodes_view(nodes@),
            names == views(macro_names@),
            occurrences_view(found@) == collect(nv, src@, names, j as int),
            in_order(occurrences_view(found@)),
        decreases nodes@.len() - j,
    {
        let ghost before = occurrences_view(found@);
        if is_selected(nodes, src, macro_names, j) {
            match occurrence_at(source, src, &nodes[j]) {
                Some(o) => {
                    if found.len() > 0 && o.start_byte < found[found.len() - 1].end_byte {
                        proof {
                            let c = collect(nv, src@, names, j + 1);
                            assert(c == before.push(o@));
                            assert(!in_order(c)) by {
                                assert(c[c.len() - 1].start < c[c.len() - 2].end);
                            }
                            lemma_collect_prefix(nv, src@, names, j + 1, nv.len() as int);
                            let all = literals_of(nv, src@, names);
                            assert(all.subrange(0, c.len() as int) == c);
                            if in_order(all) {
                                assert(all[c.len() - 1].start >= all[c.len() - 2].end);
                            }
                        }
                        return None;
                    }
                    found.push(o);
                    proof {
                        assert(occurrences_view(found@) =~= before.push(o@));
                    }
                },
                None => {},
            }
        }
        j = j + 1;
    }
    Some(found)
}

/// Nesting: a literal of a matched invocation is found wherever the invocation stands in the
/// tree (in a block, a function body, or an argument of another invocation), as long as its
/// delimiters and text are sound.
pub proof fn lemma_found_at_any_depth(nodes: Seq<NodeView>, src: Seq<u8>, names: Seq<Seq<u8>>, j: int)
    requires
        selected(nodes, src, names, j),
        occurrence_of(src, nodes[j]) is Some,
    ensures
        literals_of(nodes, src, names).contains(occurrence_of(src, nodes[j]).unwrap()),
{
    let c = collect(nodes, src, names, j + 1);
    lemma_collect_prefix(nodes, src, names, j + 1, nodes.len() as int);
    let all = literals_of(nodes, src, names);
    assert(c.last() == occurrence_of(src, nodes[j]).unwrap());
    assert(all[c.len() - 1] == c[c.len() - 1]);
}

/// Name filtering: every literal that the walk finds comes from a node that the walk selects,
/// that is, from an invocation whose name is listed; the literals of other invocations are
/// never among those rewritten.
pub proof fn lemma_only_listed_invocations(
    nodes: Seq<NodeView>,
    src: Seq<u8>,
    names: Seq<Seq<u8>>,
    n: int,
)
    ensures
        forall|k: int|
            #![trigger collect(nodes, src, names, n)[k]]
            0 <= k < collect(nodes, src, names, n).len() ==> exists|j: int|
                #![trigger occurrence_of(src, nodes[j])]
                0 <= j < n && selected(nodes, src, names, j) && occurrence_of(src, nodes[j]) == Some(
                    collect(nodes, src, names, n)[k],
                ),
    decreases n,
{
    if n > 0 {
        lemma_only_listed_invocations(nodes, src, names, n - 1);
        let before = collect(nodes, src, names, n - 1);
        let c = collect(nodes, src, names, n);
        assert forall|k: int| #![trigger c[k]] 0 <= k < c.len() implies exists|j: int|
            #![trigger occurrence_of(src, nodes[j])]
            0 <= j < n && selected(nodes, src, names, j) && occurrence_of(src, nodes[j]) == Some(
                c[k],
            ) by {
            if k < before.len() {
                assert(c[k] == before[k]);
                let j = choose|j: int|
                    #![trigger occurrence_of(src, nodes[j])]
                    0 <= j < n - 1 && selected(nodes, src, names, j) && occurrence_of(src, nodes[j])
                        == Some(before[k]);
                assert(occurrence_of(src, nodes[j]) == Some(c[k]));
            } else {
                assert(occurrence_of(src, nodes[n - 1]) == Some(c[k]));
            }
        }
    }
}

} // verus!
