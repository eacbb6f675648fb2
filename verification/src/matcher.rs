//! Finding code: structural matching of a snippet against a syntax tree,
//! and tree-sitter queries.
use vstd::prelude::*;
use vstd::utf8::*;
use crate::language::Lang;
use crate::syntax::{
    flatten, flatten_list, node_record, record_fits, records_fit, RecordView, lemma_same_tree_parts, lemma_same_trees_shrink, lemma_tree_of_flatten, read_tree, same_tree,
    same_trees, tree_of, SyntaxNode,
};
use crate::text::{chars_of, decimal, decimal_string, push_str, range_eq, str_eq, string_of};
use crate::ts;
use crate::ts::{language_refusal, parsed_records, query_captures, query_names, query_refusal};

verus! {

/// A position in text: zero-based row and column (the column counts bytes).
#[derive(Clone, Copy, Debug, PartialEq, Eq, Structural)]
pub struct Point {
    pub row: usize,
    pub column: usize,
}

/// Where a match lies in the source text.
#[derive(Clone, Copy, Debug, PartialEq, Eq, Structural)]
pub struct Match {
    pub start_byte: usize,
    pub end_byte: usize,
    pub start_point: Point,
    pub end_point: Point,
}

/// Match `m` covers a range of `bytes` that starts and ends on character
/// boundaries.
pub open spec fn match_fits(bytes: Seq<u8>, m: Match) -> bool {
    &&& m.start_byte <= m.end_byte <= bytes.len()
    &&& is_char_boundary(bytes, m.start_byte as int)
    &&& is_char_boundary(bytes, m.end_byte as int)
}

/// Every match of `ms` fits `bytes`.
pub open spec fn matches_fit(bytes: Seq<u8>, ms: Seq<Match>) -> bool {
    forall|k: int| 0 <= k < ms.len() ==> match_fits(bytes, #[trigger] ms[k])
}

/// The number of named nodes in `ns`.
pub open spec fn named_count(ns: Seq<SyntaxNode>) -> nat
    decreases ns.len(),
{
    if ns.len() == 0 {
        0
    } else {
        named_count(ns.drop_last()) + if ns.last().named {
            1nat
        } else {
            0nat
        }
    }
}

/// The first named node of `ns`, if any.
pub open spec fn first_named(ns: Seq<SyntaxNode>) -> Option<SyntaxNode>
    decreases ns.len(),
{
    if ns.len() == 0 {
        None
    } else if ns[0].named {
        Some(ns[0])
    } else {
        first_named(ns.drop_first())
    }
}

/// Whether `s` ends with `suffix`.
pub open spec fn ends_with(s: Seq<char>, suffix: Seq<char>) -> bool {
    s.len() >= suffix.len() && s.subrange(s.len() - suffix.len(), s.len() as int) == suffix
}

/// Whether a node kind names a literal (`string_literal`,
/// `integer_literal`, `func_literal`, ..., or a `string`).
pub open spec fn spec_is_literal_kind(kind: Seq<char>) -> bool {
    ends_with(kind, "literal"@) || kind == "string"@
}

/// Whether a node kind names a piece of a literal's own text: a fragment or
/// the content of a string, an escape sequence, or a string's delimiter.
pub open spec fn spec_is_text_piece(kind: Seq<char>) -> bool {
    ||| ends_with(kind, "fragment"@)
    ||| ends_with(kind, "content"@)
    ||| kind == "escape_sequence"@
    ||| kind == "string_start"@
    ||| kind == "string_end"@
}

/// Every named node of `ns` is a piece of literal text.
pub open spec fn text_pieces_only(ns: Seq<SyntaxNode>) -> bool {
    forall|i: int| 0 <= i < ns.len() && (#[trigger] ns[i]).named ==> spec_is_text_piece(ns[i].kind@)
}

/// A leaf value: a literal whose named children, if any, are only pieces of
/// its own text (so not a closure, a composite value, or a string with
/// code interpolated in it).
pub open spec fn is_leaf_value(n: SyntaxNode) -> bool {
    spec_is_literal_kind(n.kind@) && text_pieces_only(n.children@)
}

/// `s` has the structure of `p`: the same kind and, unless both are leaf
/// values, as many named children, each named child of `s` having the
/// structure of the named child of `p` at the same position among the named
/// children. Leaf values are compared by kind alone, and anonymous children
/// are ignored.
pub open spec fn nodes_match(s: SyntaxNode, p: SyntaxNode) -> bool
    decreases p, s,
{
    &&& s.kind@ == p.kind@
    &&& (is_leaf_value(s) && is_leaf_value(p) || {
        &&& named_count(s.children@) == named_count(p.children@)
        &&& named_lists_match(s.children@, p.children@)
    })
}

/// Pairs the named nodes of `ss` with those of `ps`, in order, and checks
/// that each pair matches, as long as `ps` has named nodes left (anonymous
/// nodes on either side are skipped).
pub open spec fn named_lists_match(ss: Seq<SyntaxNode>, ps: Seq<SyntaxNode>) -> bool
    decreases ps, ss,
{
    if ps.len() == 0 {
        true
    } else if !ps[0].named {
        named_lists_match(ss, ps.drop_first())
    } else if ss.len() == 0 {
        false
    } else if !ss[0].named {
        named_lists_match(ss.drop_first(), ps)
    } else {
        nodes_match(ss[0], ps[0]) && named_lists_match(ss.drop_first(), ps.drop_first())
    }
}

/// The tree rooted at `n` holds an `ERROR` node.
pub open spec fn subtree_has_error(n: SyntaxNode) -> bool
    decreases n,
{
    n.kind@ == "ERROR"@ || list_has_error(n.children@)
}

/// One of the trees `ns` holds an `ERROR` node.
pub open spec fn list_has_error(ns: Seq<SyntaxNode>) -> bool
    decreases ns,
{
    ns.len() > 0 && (list_has_error(ns.drop_last()) || subtree_has_error(ns.last()))
}

/// The location of node `n`.
pub open spec fn match_of(n: SyntaxNode) -> Match {
    Match {
        start_byte: n.start_byte,
        end_byte: n.end_byte,
        start_point: n.start_point,
        end_point: n.end_point,
    }
}

/// The locations of the nodes of the tree rooted at `n` that have the
/// structure of `p`, in preorder.
pub open spec fn matches_in(n: SyntaxNode, p: SyntaxNode) -> Seq<Match>
    decreases n,
{
    (if nodes_match(n, p) {
        seq![match_of(n)]
    } else {
        Seq::empty()
    }) + matches_in_list(n.children@, p)
}

/// The locations of matches of `p` in the trees `ns`, one tree after the
/// other.
pub open spec fn matches_in_list(ns: Seq<SyntaxNode>, p: SyntaxNode) -> Seq<Match>
    decreases ns,
{
    if ns.len() == 0 {
        Seq::empty()
    } else {
        matches_in_list(ns.drop_last(), p) + matches_in(ns.last(), p)
    }
}

/// Whether a kind names the root node that wraps a whole parsed snippet.
pub open spec fn spec_is_root_wrapper(kind: Seq<char>) -> bool {
    kind == "program"@ || kind == "module"@
}

/// The node of a parsed snippet that stands for the snippet: the single
/// named child of a root wrapper, or else the root itself.
pub open spec fn spec_extract_pattern(root: SyntaxNode) -> Option<SyntaxNode> {
    if spec_is_root_wrapper(root.kind@) && named_count(root.children@) == 1 {
        first_named(root.children@)
    } else {
        Some(root)
    }
}

/// The pattern that a parsed snippet gives, or why it gives none.
pub open spec fn spec_snippet_pattern(snippet_root: SyntaxNode) -> Result<SyntaxNode, Seq<char>> {
    match spec_extract_pattern(snippet_root) {
        None => Err("Could not extract pattern from snippet"@),
        Some(p) => if subtree_has_error(p) {
            Err("Snippet contains syntax errors"@)
        } else {
            Ok(p)
        },
    }
}

proof fn lemma_count_none_named(xs: Seq<SyntaxNode>)
    requires
        forall|j: int| 0 <= j < xs.len() ==> !(#[trigger] xs[j]).named,
    ensures
        named_count(xs) == 0,
    decreases xs.len(),
{
    if xs.len() > 0 {
        assert(!xs[xs.len() - 1].named);
        assert forall|j: int| 0 <= j < xs.len() - 1 implies !(#[trigger] xs.drop_last()[j]).named by {
            assert(xs.drop_last()[j] == xs[j]);
        }
        lemma_count_none_named(xs.drop_last());
    }
}

proof fn lemma_count_one_named(xs: Seq<SyntaxNode>, k: int)
    requires
        0 <= k < xs.len(),
        xs[k].named,
        forall|j: int| 0 <= j < xs.len() && j != k ==> !(#[trigger] xs[j]).named,
    ensures
        named_count(xs) == 1,
        first_named(xs) == Some(xs[k]),
    decreases xs.len(),
{
    if k == xs.len() - 1 {
        assert forall|j: int| 0 <= j < xs.len() - 1 implies !(#[trigger] xs.drop_last()[j]).named by {
            assert(xs.drop_last()[j] == xs[j]);
        }
        lemma_count_none_named(xs.drop_last());
    } else {
        assert(!xs[xs.len() - 1].named);
        assert forall|j: int| 0 <= j < xs.len() - 1 && j != k implies !(#[trigger] xs.drop_last()[j]).named by {
            assert(xs.drop_last()[j] == xs[j]);
        }
        lemma_count_one_named(xs.drop_last(), k);
    }
    lemma_first_named_at(xs, k);
}

proof fn lemma_first_named_at(xs: Seq<SyntaxNode>, k: int)
    requires
        0 <= k < xs.len(),
        xs[k].named,
        forall|j: int| 0 <= j < k ==> !(#[trigger] xs[j]).named,
    ensures
        first_named(xs) == Some(xs[k]),
    decreases k,
{
    if k > 0 {
        assert(!xs[0].named);
        assert forall|j: int| 0 <= j < k - 1 implies !(#[trigger] xs.drop_first()[j]).named by {
            assert(xs.drop_first()[j] == xs[j + 1]);
        }
        lemma_first_named_at(xs.drop_first(), k - 1);
    }
}

proof fn lemma_count_at_least_one(xs: Seq<SyntaxNode>, i: int)
    requires
        0 <= i < xs.len(),
        xs[i].named,
    ensures
        named_count(xs) >= 1,
    decreases xs.len(),
{
    if i < xs.len() - 1 {
        assert(xs.drop_last()[i] == xs[i]);
        lemma_count_at_least_one(xs.drop_last(), i);
    }
}

proof fn lemma_count_at_least_two(xs: Seq<SyntaxNode>, i: int, j: int)
    requires
        0 <= i < j < xs.len(),
        xs[i].named,
        xs[j].named,
    ensures
        named_count(xs) >= 2,
    decreases xs.len(),
{
    assert(xs.drop_last()[i] == xs[i]);
    if j == xs.len() - 1 {
        lemma_count_at_least_one(xs.drop_last(), i);
    } else {
        assert(xs.drop_last()[j] == xs[j]);
        lemma_count_at_least_two(xs.drop_last(), i, j);
    }
}

/// The pattern of a snippet whose tree is a `program` or `module` wrapping
/// exactly one named node is that node itself: the snippet's top-level
/// construct (a whole statement, say), not anything inside it.
pub proof fn lemma_wrapped_snippet_pattern(root: SyntaxNode, k: int)
    requires
        root.kind@ == "program"@ || root.kind@ == "module"@,
        0 <= k < root.children@.len(),
        root.children@[k].named,
        forall|j: int| 0 <= j < root.children@.len() && j != k ==> !(#[trigger] root.children@[j]).named,
    ensures
        spec_extract_pattern(root) == Some(root.children@[k]),
{
    lemma_count_one_named(root.children@, k);
}

/// Any other snippet tree is its own pattern: one whose root is not a
/// `program` or `module`, or a wrapper with no named node or with two.
pub proof fn lemma_unwrapped_snippet_pattern(root: SyntaxNode, i: int, j: int)
    requires
        !(root.kind@ == "program"@ || root.kind@ == "module"@) || (forall|m: int|
            0 <= m < root.children@.len() ==> !(#[trigger] root.children@[m]).named) || (0 <= i < j
            < root.children@.len() && root.children@[i].named && root.children@[j].named),
    ensures
        spec_extract_pattern(root) == Some(root),
{
    if root.kind@ == "program"@ || root.kind@ == "module"@ {
        if forall|m: int| 0 <= m < root.children@.len() ==> !(#[trigger] root.children@[m]).named {
            lemma_count_none_named(root.children@);
        } else {
            lemma_count_at_least_two(root.children@, i, j);
        }
    }
}

/// Counting named nodes from the front.
pub proof fn lemma_named_count_front(ns: Seq<SyntaxNode>)
    requires
        ns.len() > 0,
    ensures
        named_count(ns) == named_count(ns.drop_first()) + if ns[0].named {
            1nat
        } else {
            0nat
        },
    decreases ns.len(),
{
    if ns.len() > 1 {
        lemma_named_count_front(ns.drop_last());
        assert(ns.drop_last().drop_first() =~= ns.drop_first().drop_last());
        assert(ns.drop_first().last() == ns.last());
        assert(ns.drop_last()[0] == ns[0]);
        assert(named_count(ns.drop_first()) == named_count(ns.drop_first().drop_last())
            + if ns.last().named {
            1nat
        } else {
            0nat
        });
    } else {
        assert(ns.drop_first().len() == 0);
        assert(ns.drop_last().len() == 0);
        assert(named_count(ns.drop_first()) == 0);
        assert(named_count(ns.drop_last()) == 0);
        assert(ns.last() == ns[0]);
    }
}

/// Anonymous nodes at the front of the source side change nothing.
pub proof fn lemma_skip_anonymous_source(ss: Seq<SyntaxNode>, ps: Seq<SyntaxNode>)
    requires
        ss.len() > 0,
        !ss[0].named,
    ensures
        named_lists_match(ss, ps) == named_lists_match(ss.drop_first(), ps),
    decreases ps.len(),
{
    if ps.len() > 0 && !ps[0].named {
        lemma_skip_anonymous_source(ss, ps.drop_first());
    }
}

/// Patterns without named nodes are met by anything.
pub proof fn lemma_no_named_pattern(ss: Seq<SyntaxNode>, ps: Seq<SyntaxNode>)
    requires
        named_count(ps) == 0,
    ensures
        named_lists_match(ss, ps),
    decreases ps.len(),
{
    if ps.len() > 0 {
        lemma_named_count_front(ps);
        lemma_no_named_pattern(ss, ps.drop_first());
    }
}

/// Every node has its own structure.
pub proof fn lemma_match_reflexive(n: SyntaxNode)
    ensures
        nodes_match(n, n),
    decreases n,
{
    lemma_lists_match_reflexive(n.children@);
}

/// A list of nodes pairs up with itself.
pub proof fn lemma_lists_match_reflexive(ns: Seq<SyntaxNode>)
    ensures
        named_lists_match(ns, ns),
    decreases ns,
{
    if ns.len() > 0 {
        if ns[0].named {
            lemma_match_reflexive(ns[0]);
        } else {
            lemma_skip_anonymous_source(ns, ns.drop_first());
        }
        lemma_lists_match_reflexive(ns.drop_first());
    }
}

/// Structural matching is symmetric: if `s` has the structure of `p`,
/// then `p` has the structure of `s`.
pub proof fn lemma_match_symmetric(s: SyntaxNode, p: SyntaxNode)
    requires
        nodes_match(s, p),
    ensures
        nodes_match(p, s),
    decreases p, s,
{
    if !(is_leaf_value(s) && is_leaf_value(p)) {
        lemma_lists_match_symmetric(s.children@, p.children@);
    }
}

/// Pairing the named nodes of two lists with as many named nodes is
/// symmetric.
pub proof fn lemma_lists_match_symmetric(ss: Seq<SyntaxNode>, ps: Seq<SyntaxNode>)
    requires
        named_count(ss) == named_count(ps),
        named_lists_match(ss, ps),
    ensures
        named_lists_match(ps, ss),
    decreases ps, ss,
{
    if ps.len() == 0 {
        lemma_no_named_pattern(ps, ss);
    } else if !ps[0].named {
        lemma_named_count_front(ps);
        lemma_lists_match_symmetric(ss, ps.drop_first());
        lemma_skip_anonymous_source(ps, ss);
    } else if ss.len() == 0 {
        lemma_named_count_front(ps);
    } else if !ss[0].named {
        lemma_named_count_front(ss);
        lemma_lists_match_symmetric(ss.drop_first(), ps);
    } else {
        lemma_named_count_front(ss);
        lemma_named_count_front(ps);
        lemma_match_symmetric(ss[0], ps[0]);
        lemma_lists_match_symmetric(ss.drop_first(), ps.drop_first());
    }
}

/// Structural matching is transitive: a node with the structure of `b`,
/// where `b` has the structure of `c`, has the structure of `c`.
pub proof fn lemma_match_transitive(a: SyntaxNode, b: SyntaxNode, c: SyntaxNode)
    requires
        nodes_match(a, b),
        nodes_match(b, c),
    ensures
        nodes_match(a, c),
    decreases c, b, a,
{
    let ab = is_leaf_value(a) && is_leaf_value(b);
    let bc = is_leaf_value(b) && is_leaf_value(c);
    if ab && !bc {
        lemma_lists_match_symmetric(b.children@, c.children@);
        lemma_pieces_follow(c.children@, b.children@);
    } else if !ab && bc {
        lemma_pieces_follow(a.children@, b.children@);
    } else if !ab && !bc {
        lemma_lists_match_transitive(a.children@, b.children@, c.children@);
    }
}

/// No node of a list without named nodes is named.
proof fn lemma_none_named(xs: Seq<SyntaxNode>)
    requires
        named_count(xs) == 0,
    ensures
        forall|i: int| 0 <= i < xs.len() ==> !(#[trigger] xs[i]).named,
    decreases xs.len(),
{
    if xs.len() > 0 {
        lemma_none_named(xs.drop_last());
        assert forall|i: int| 0 <= i < xs.len() implies !(#[trigger] xs[i]).named by {
            if i < xs.len() - 1 {
                assert(xs.drop_last()[i] == xs[i]);
            }
        }
    }
}

/// The named nodes of a list that pairs up with a list of text pieces are
/// text pieces too, since paired nodes have the same kind.
proof fn lemma_pieces_follow(xs: Seq<SyntaxNode>, ys: Seq<SyntaxNode>)
    requires
        named_count(xs) == named_count(ys),
        named_lists_match(xs, ys),
        text_pieces_only(ys),
    ensures
        text_pieces_only(xs),
    decreases ys.len(), xs.len(),
{
    if ys.len() == 0 {
        lemma_none_named(xs);
    } else if !ys[0].named {
        lemma_named_count_front(ys);
        assert forall|i: int| 0 <= i < ys.len() - 1 && (#[trigger] ys.drop_first()[i]).named implies spec_is_text_piece(ys.drop_first()[i].kind@) by {
            assert(ys.drop_first()[i] == ys[i + 1]);
        }
        lemma_pieces_follow(xs, ys.drop_first());
    } else if xs.len() > 0 {
        lemma_named_count_front(xs);
        lemma_named_count_front(ys);
        if !xs[0].named {
            lemma_pieces_follow(xs.drop_first(), ys);
        } else {
            assert(spec_is_text_piece(ys[0].kind@));
            assert(nodes_match(xs[0], ys[0]));
            assert(spec_is_text_piece(xs[0].kind@));
            assert forall|i: int| 0 <= i < ys.len() - 1 && (#[trigger] ys.drop_first()[i]).named implies spec_is_text_piece(ys.drop_first()[i].kind@) by {
                assert(ys.drop_first()[i] == ys[i + 1]);
            }
            lemma_pieces_follow(xs.drop_first(), ys.drop_first());
        }
        assert forall|i: int| 0 <= i < xs.len() && (#[trigger] xs[i]).named implies spec_is_text_piece(xs[i].kind@) by {
            if i > 0 {
                assert(xs.drop_first()[i - 1] == xs[i]);
            }
        }
    }
}

/// Pairing the named nodes of lists with equally many named nodes is
/// transitive.
pub proof fn lemma_lists_match_transitive(
    xs: Seq<SyntaxNode>,
    ys: Seq<SyntaxNode>,
    zs: Seq<SyntaxNode>,
)
    requires
        named_count(xs) == named_count(ys),
        named_count(ys) == named_count(zs),
        named_lists_match(xs, ys),
        named_lists_match(ys, zs),
    ensures
        named_lists_match(xs, zs),
    decreases zs, ys, xs,
{
    if zs.len() == 0 {
    } else if !zs[0].named {
        lemma_named_count_front(zs);
        lemma_lists_match_transitive(xs, ys, zs.drop_first());
    } else if ys.len() == 0 {
        lemma_named_count_front(zs);
    } else if !ys[0].named {
        lemma_named_count_front(ys);
        lemma_skip_anonymous_source(ys, zs);
        lemma_lists_match_transitive(xs, ys.drop_first(), zs);
    } else if xs.len() == 0 {
        lemma_named_count_front(ys);
    } else if !xs[0].named {
        lemma_named_count_front(xs);
        lemma_skip_anonymous_source(xs, ys);
        lemma_skip_anonymous_source(xs, zs);
        lemma_lists_match_transitive(xs.drop_first(), ys, zs);
    } else {
        lemma_named_count_front(xs);
        lemma_named_count_front(ys);
        lemma_named_count_front(zs);
        lemma_match_transitive(xs[0], ys[0], zs[0]);
        lemma_lists_match_transitive(xs.drop_first(), ys.drop_first(), zs.drop_first());
    }
}

/// Leaves are compared by kind only: two nodes without named children
/// match exactly when their kinds agree, whatever text they cover.
pub proof fn lemma_leaves_match_by_kind(s: SyntaxNode, p: SyntaxNode)
    requires
        named_count(s.children@) == 0,
        named_count(p.children@) == 0,
    ensures
        nodes_match(s, p) == (s.kind@ == p.kind@),
{
    lemma_no_named_pattern(s.children@, p.children@);
}

/// Leaf values are compared by kind only: any two string literals match,
/// whatever their text (`""` matches `"hello"`).
pub proof fn lemma_literals_match_by_kind(s: SyntaxNode, p: SyntaxNode)
    requires
        is_leaf_value(s),
        is_leaf_value(p),
    ensures
        nodes_match(s, p) == (s.kind@ == p.kind@),
{
}

/// A literal that holds more than text (a closure, a composite value) is
/// compared by its named children like any other node.
pub proof fn lemma_other_literals_compare_children(s: SyntaxNode, p: SyntaxNode)
    requires
        !text_pieces_only(p.children@),
    ensures
        nodes_match(s, p) == (s.kind@ == p.kind@ && named_count(s.children@) == named_count(
            p.children@,
        ) && named_lists_match(s.children@, p.children@)),
{
}

/// The nodes of the tree rooted at `n`, in preorder.
pub open spec fn preorder(n: SyntaxNode) -> Seq<SyntaxNode>
    decreases n,
{
    seq![n] + preorder_list(n.children@)
}

/// The nodes of the trees `ns`, each in preorder, one tree after the other.
pub open spec fn preorder_list(ns: Seq<SyntaxNode>) -> Seq<SyntaxNode>
    decreases ns,
{
    if ns.len() == 0 {
        Seq::empty()
    } else {
        preorder_list(ns.drop_last()) + preorder(ns.last())
    }
}

/// The locations of the nodes among `ns` that have the structure of `p`,
/// in order.
pub open spec fn locations_matching(ns: Seq<SyntaxNode>, p: SyntaxNode) -> Seq<Match> {
    ns.filter(|x: SyntaxNode| nodes_match(x, p)).map_values(|x: SyntaxNode| match_of(x))
}

proof fn lemma_locations_concat(a: Seq<SyntaxNode>, b: Seq<SyntaxNode>, p: SyntaxNode)
    ensures
        locations_matching(a + b, p) == locations_matching(a, p) + locations_matching(b, p),
{
    let f = |x: SyntaxNode| nodes_match(x, p);
    let g = |x: SyntaxNode| match_of(x);
    Seq::filter_distributes_over_add(a, b, f);
    assert((a.filter(f) + b.filter(f)).map_values(g) =~= a.filter(f).map_values(g) + b.filter(
        f,
    ).map_values(g));
}

/// The matches in a tree are exactly the locations of its nodes, in
/// preorder, that have the structure of the pattern: every node of the tree
/// that matches is reported once, and nothing else is.
pub proof fn lemma_matches_are_matching_nodes(n: SyntaxNode, p: SyntaxNode)
    ensures
        matches_in(n, p) == locations_matching(preorder(n), p),
    decreases n,
{
    lemma_matches_list_are_matching_nodes(n.children@, p);
    lemma_locations_concat(seq![n], preorder_list(n.children@), p);
    let f = |x: SyntaxNode| nodes_match(x, p);
    reveal_with_fuel(Seq::filter, 2);
    assert(seq![n].drop_last().len() == 0);
    assert(seq![n].filter(f) =~= if nodes_match(n, p) {
        seq![n]
    } else {
        Seq::empty()
    });
}

/// The list form of `lemma_matches_are_matching_nodes`.
pub proof fn lemma_matches_list_are_matching_nodes(ns: Seq<SyntaxNode>, p: SyntaxNode)
    ensures
        matches_in_list(ns, p) == locations_matching(preorder_list(ns), p),
    decreases ns,
{
    if ns.len() == 0 {
        assert(locations_matching(Seq::empty(), p) =~= Seq::empty());
    } else {
        lemma_matches_list_are_matching_nodes(ns.drop_last(), p);
        lemma_matches_are_matching_nodes(ns.last(), p);
        lemma_locations_concat(preorder_list(ns.drop_last()), preorder(ns.last()), p);
    }
}

/// Trees that hold the same values have as many named nodes.
pub proof fn lemma_named_count_same(xs: Seq<SyntaxNode>, ys: Seq<SyntaxNode>)
    requires
        same_trees(xs, ys),
    ensures
        named_count(xs) == named_count(ys),
    decreases xs.len(),
{
    if xs.len() > 0 {
        lemma_same_trees_shrink(xs, ys);
        lemma_same_tree_parts(xs.last(), ys.last());
        lemma_named_count_same(xs.drop_last(), ys.drop_last());
    }
}

/// Whether a list holds only text pieces depends only on its values.
pub proof fn lemma_pieces_same(xs: Seq<SyntaxNode>, ys: Seq<SyntaxNode>)
    requires
        same_trees(xs, ys),
    ensures
        text_pieces_only(xs) == text_pieces_only(ys),
{
    assert forall|i: int| 0 <= i < xs.len() implies #[trigger] xs[i].kind@ == ys[i].kind@ && xs[i].named == ys[i].named by {
        lemma_same_tree_parts(xs[i], ys[i]);
    }
    if text_pieces_only(xs) {
        assert forall|i: int| 0 <= i < ys.len() && (#[trigger] ys[i]).named implies spec_is_text_piece(ys[i].kind@) by {
            assert(xs[i].kind@ == ys[i].kind@ && xs[i].named == ys[i].named);
        }
    }
    if text_pieces_only(ys) {
        assert forall|i: int| 0 <= i < xs.len() && (#[trigger] xs[i]).named implies spec_is_text_piece(xs[i].kind@) by {
            assert(xs[i].kind@ == ys[i].kind@ && xs[i].named == ys[i].named);
        }
    }
}

/// Structural matching sees only the values a tree holds.
pub proof fn lemma_nodes_match_same(s: SyntaxNode, s2: SyntaxNode, p: SyntaxNode, p2: SyntaxNode)
    requires
        same_tree(s, s2),
        same_tree(p, p2),
    ensures
        nodes_match(s, p) == nodes_match(s2, p2),
    decreases p, s,
{
    lemma_same_tree_parts(s, s2);
    lemma_same_tree_parts(p, p2);
    lemma_pieces_same(s.children@, s2.children@);
    lemma_pieces_same(p.children@, p2.children@);
    lemma_named_count_same(s.children@, s2.children@);
    lemma_named_count_same(p.children@, p2.children@);
    lemma_lists_match_same(s.children@, s2.children@, p.children@, p2.children@);
}

/// The list form of `lemma_nodes_match_same`.
pub proof fn lemma_lists_match_same(
    ss: Seq<SyntaxNode>,
    ss2: Seq<SyntaxNode>,
    ps: Seq<SyntaxNode>,
    ps2: Seq<SyntaxNode>,
)
    requires
        same_trees(ss, ss2),
        same_trees(ps, ps2),
    ensures
        named_lists_match(ss, ps) == named_lists_match(ss2, ps2),
    decreases ps, ss,
{
    if ps.len() > 0 {
        lemma_same_trees_shrink(ps, ps2);
        lemma_same_tree_parts(ps[0], ps2[0]);
        if !ps[0].named {
            lemma_lists_match_same(ss, ss2, ps.drop_first(), ps2.drop_first());
        } else if ss.len() > 0 {
            lemma_same_trees_shrink(ss, ss2);
            lemma_same_tree_parts(ss[0], ss2[0]);
            if !ss[0].named {
                lemma_lists_match_same(ss.drop_first(), ss2.drop_first(), ps, ps2);
            } else {
                lemma_nodes_match_same(ss[0], ss2[0], ps[0], ps2[0]);
                lemma_lists_match_same(
                    ss.drop_first(),
                    ss2.drop_first(),
                    ps.drop_first(),
                    ps2.drop_first(),
                );
            }
        }
    }
}

/// The matches in trees that hold the same values, of patterns that hold
/// the same values, are the same.
pub proof fn lemma_matches_in_same(n: SyntaxNode, n2: SyntaxNode, p: SyntaxNode, p2: SyntaxNode)
    requires
        same_tree(n, n2),
        same_tree(p, p2),
    ensures
        matches_in(n, p) == matches_in(n2, p2),
    decreases n,
{
    lemma_same_tree_parts(n, n2);
    lemma_nodes_match_same(n, n2, p, p2);
    lemma_matches_in_list_same(n.children@, n2.children@, p, p2);
}

/// The list form of `lemma_matches_in_same`.
pub proof fn lemma_matches_in_list_same(
    ns: Seq<SyntaxNode>,
    ns2: Seq<SyntaxNode>,
    p: SyntaxNode,
    p2: SyntaxNode,
)
    requires
        same_trees(ns, ns2),
        same_tree(p, p2),
    ensures
        matches_in_list(ns, p) == matches_in_list(ns2, p2),
    decreases ns,
{
    if ns.len() > 0 {
        lemma_same_trees_shrink(ns, ns2);
        lemma_matches_in_list_same(ns.drop_last(), ns2.drop_last(), p, p2);
        lemma_matches_in_same(ns.last(), ns2.last(), p, p2);
    }
}

/// Whether a tree holds an `ERROR` node depends only on its values.
pub proof fn lemma_has_error_same(n: SyntaxNode, n2: SyntaxNode)
    requires
        same_tree(n, n2),
    ensures
        subtree_has_error(n) == subtree_has_error(n2),
    decreases n,
{
    lemma_same_tree_parts(n, n2);
    lemma_list_has_error_same(n.children@, n2.children@);
}

/// The list form of `lemma_has_error_same`.
pub proof fn lemma_list_has_error_same(ns: Seq<SyntaxNode>, ns2: Seq<SyntaxNode>)
    requires
        same_trees(ns, ns2),
    ensures
        list_has_error(ns) == list_has_error(ns2),
    decreases ns,
{
    if ns.len() > 0 {
        lemma_same_trees_shrink(ns, ns2);
        lemma_list_has_error_same(ns.drop_last(), ns2.drop_last());
        lemma_has_error_same(ns.last(), ns2.last());
    }
}

/// The first named node of lists that hold the same values.
pub proof fn lemma_first_named_same(xs: Seq<SyntaxNode>, ys: Seq<SyntaxNode>)
    requires
        same_trees(xs, ys),
    ensures
        first_named(xs) is Some == first_named(ys) is Some,
        first_named(xs) is Some ==> same_tree(first_named(xs)->0, first_named(ys)->0),
    decreases xs.len(),
{
    if xs.len() > 0 {
        lemma_same_trees_shrink(xs, ys);
        lemma_same_tree_parts(xs[0], ys[0]);
        lemma_first_named_same(xs.drop_first(), ys.drop_first());
    }
}

/// The pattern of a snippet depends only on the values its tree holds.
pub proof fn lemma_snippet_pattern_same(r: SyntaxNode, r2: SyntaxNode)
    requires
        same_tree(r, r2),
    ensures
        spec_snippet_pattern(r) is Ok == spec_snippet_pattern(r2) is Ok,
        spec_snippet_pattern(r) is Ok ==> same_tree(
            spec_snippet_pattern(r)->Ok_0,
            spec_snippet_pattern(r2)->Ok_0,
        ),
        spec_snippet_pattern(r) is Err ==> spec_snippet_pattern(r) == spec_snippet_pattern(r2),
{
    lemma_same_tree_parts(r, r2);
    lemma_named_count_same(r.children@, r2.children@);
    lemma_first_named_same(r.children@, r2.children@);
    match (spec_extract_pattern(r), spec_extract_pattern(r2)) {
        (Some(p), Some(p2)) => {
            assert(same_tree(p, p2));
            lemma_has_error_same(p, p2);
        },
        _ => {},
    }
}

proof fn lemma_records_fit_split(bytes: Seq<u8>, a: Seq<RecordView>, b: Seq<RecordView>)
    requires
        records_fit(bytes, a + b),
    ensures
        records_fit(bytes, a),
        records_fit(bytes, b),
{
    assert forall|k: int| 0 <= k < a.len() implies record_fits(bytes, #[trigger] a[k]) by {
        assert((a + b)[k] == a[k]);
    }
    assert forall|k: int| 0 <= k < b.len() implies record_fits(bytes, #[trigger] b[k]) by {
        assert((a + b)[k + a.len()] == b[k]);
    }
}

proof fn lemma_matches_fit_join(bytes: Seq<u8>, a: Seq<Match>, b: Seq<Match>)
    requires
        matches_fit(bytes, a),
        matches_fit(bytes, b),
    ensures
        matches_fit(bytes, a + b),
{
    assert forall|k: int| 0 <= k < (a + b).len() implies match_fits(bytes, #[trigger] (a + b)[k]) by {
        if k < a.len() {
            assert((a + b)[k] == a[k]);
        } else {
            assert((a + b)[k] == b[k - a.len()]);
        }
    }
}

/// The matches in a tree whose records lie in `bytes` on character
/// boundaries lie there too.
pub proof fn lemma_matches_fit(bytes: Seq<u8>, n: SyntaxNode, p: SyntaxNode, d: nat)
    requires
        records_fit(bytes, flatten(n, d)),
    ensures
        matches_fit(bytes, matches_in(n, p)),
    decreases n,
{
    lemma_records_fit_split(bytes, seq![node_record(n, d)], flatten_list(n.children@, d + 1));
    assert(record_fits(bytes, seq![node_record(n, d)][0]));
    lemma_matches_list_fit(bytes, n.children@, p, d + 1);
    let here = if nodes_match(n, p) {
        seq![match_of(n)]
    } else {
        Seq::empty()
    };
    assert(matches_fit(bytes, here));
    lemma_matches_fit_join(bytes, here, matches_in_list(n.children@, p));
}

/// The list form of `lemma_matches_fit`.
pub proof fn lemma_matches_list_fit(bytes: Seq<u8>, ns: Seq<SyntaxNode>, p: SyntaxNode, d: nat)
    requires
        records_fit(bytes, flatten_list(ns, d)),
    ensures
        matches_fit(bytes, matches_in_list(ns, p)),
    decreases ns,
{
    if ns.len() > 0 {
        lemma_records_fit_split(bytes, flatten_list(ns.drop_last(), d), flatten(ns.last(), d));
        lemma_matches_list_fit(bytes, ns.drop_last(), p, d);
        lemma_matches_fit(bytes, ns.last(), p, d);
        lemma_matches_fit_join(bytes, matches_in_list(ns.drop_last(), p), matches_in(ns.last(), p));
    }
}

/// Whether `kind` names a root wrapper (`program` or `module`).
pub fn is_root_wrapper(kind: &str) -> (res: bool)
    ensures
        res == spec_is_root_wrapper(kind@),
{
    str_eq(kind, "program") || str_eq(kind, "module")
}

/// The number of named nodes in `ns`.
fn count_named(ns: &Vec<SyntaxNode>) -> (res: usize)
    ensures
        res == named_count(ns@),
{
    let n = ns.len();
    let mut c: usize = 0;
    let mut i: usize = 0;
    while i < n
        invariant
            n == ns@.len(),
            i <= n,
            c == named_count(ns@.subrange(0, i as int)),
            c <= i,
        decreases n - i,
    {
        assert(ns@.subrange(0, i + 1).drop_last() =~= ns@.subrange(0, i as int));
        if ns[i].named {
            c = c + 1;
        }
        i = i + 1;
    }
    assert(ns@.subrange(0, n as int) =~= ns@);
    c
}

/// The node of a parsed snippet that stands for the snippet.
pub fn extract_pattern(root: &SyntaxNode) -> (res: Option<&SyntaxNode>)
    ensures
        match spec_extract_pattern(*root) {
            Some(p) => res matches Some(r) && *r == p,
            None => res is None,
        },
{
    if is_root_wrapper(root.kind.as_str()) && count_named(&root.children) == 1 {
        let ch = &root.children;
        let n = ch.len();
        let mut k: usize = 0;
        assert(ch@.skip(0) =~= ch@);
        while k < n
            invariant
                n == ch@.len(),
                *ch == root.children,
                spec_is_root_wrapper(root.kind@),
                named_count(root.children@) == 1,
                k <= n,
                first_named(ch@) == first_named(ch@.skip(k as int)),
            decreases n - k,
        {
            assert(ch@.skip(k as int)[0] == ch@[k as int]);
            if ch[k].named {
                return Some(&ch[k]);
            }
            assert(ch@.skip(k as int).drop_first() =~= ch@.skip(k + 1));
            k = k + 1;
        }
        None
    } else {
        Some(root)
    }
}

/// Whether the tree rooted at `node` holds an `ERROR` node.
pub fn has_error(node: &SyntaxNode) -> (res: bool)
    ensures
        res == subtree_has_error(*node),
    decreases node,
{
    if str_eq(node.kind.as_str(), "ERROR") {
        return true;
    }
    let ch = &node.children;
    let n = ch.len();
    let mut i: usize = 0;
    while i < n
        invariant
            n == ch@.len(),
            *ch == node.children,
            i <= n,
            !list_has_error(ch@.subrange(0, i as int)),
        decreases n - i,
    {
        assert(ch@.subrange(0, i + 1).drop_last() =~= ch@.subrange(0, i as int));
        if has_error(&ch[i]) {
            assert(list_has_error(ch@.subrange(0, i + 1)));
            assert(list_has_error(ch@)) by {
                lemma_list_has_error_prefix(ch@, i + 1);
            }
            return true;
        }
        i = i + 1;
    }
    assert(ch@.subrange(0, n as int) =~= ch@);
    false
}

/// An `ERROR` node among the first trees is one among all of them.
proof fn lemma_list_has_error_prefix(ns: Seq<SyntaxNode>, k: int)
    requires
        0 <= k <= ns.len(),
        list_has_error(ns.subrange(0, k)),
    ensures
        list_has_error(ns),
    decreases ns.len() - k,
{
    if k < ns.len() {
        assert(ns.subrange(0, k + 1).drop_last() =~= ns.subrange(0, k));
        lemma_list_has_error_prefix(ns, k + 1);
    } else {
        assert(ns.subrange(0, k) =~= ns);
    }
}

/// Whether the characters `chars` end with `lit`.
fn chars_end_with(chars: &Vec<char>, lit: &str) -> (res: bool)
    ensures
        res == ends_with(chars@, lit@),
{
    let n = chars.len();
    let k = lit.unicode_len();
    n >= k && range_eq(chars, n - k, n, lit)
}

/// Whether `kind` names a literal (see `spec_is_literal_kind`).
pub fn is_literal_kind(kind: &str) -> (res: bool)
    ensures
        res == spec_is_literal_kind(kind@),
{
    let chars = chars_of(kind);
    chars_end_with(&chars, "literal") || str_eq(kind, "string")
}

/// Whether `kind` names a piece of literal text (see `spec_is_text_piece`).
pub fn is_text_piece(kind: &str) -> (res: bool)
    ensures
        res == spec_is_text_piece(kind@),
{
    let chars = chars_of(kind);
    chars_end_with(&chars, "fragment") || chars_end_with(&chars, "content") || str_eq(
        kind,
        "escape_sequence",
    ) || str_eq(kind, "string_start") || str_eq(kind, "string_end")
}

/// Whether every named node of `ns` is a piece of literal text.
fn only_text_pieces(ns: &Vec<SyntaxNode>) -> (res: bool)
    ensures
        res == text_pieces_only(ns@),
{
    let n = ns.len();
    let mut i: usize = 0;
    while i < n
        invariant
            n == ns@.len(),
            i <= n,
            forall|k: int| 0 <= k < i && (#[trigger] ns@[k]).named ==> spec_is_text_piece(ns@[k].kind@),
        decreases n - i,
    {
        if ns[i].named && !is_text_piece(ns[i].kind.as_str()) {
            return false;
        }
        i = i + 1;
    }
    true
}

/// Whether `source_node` has the structure of `pattern_node`: the same
/// kind and, recursively, named children with the same structure. Leaf
/// values (identifiers, literals) are compared by kind only, so any string
/// literal matches any other string literal, whatever its contents.
pub fn structurally_matches(source_node: &SyntaxNode, pattern_node: &SyntaxNode) -> (res: bool)
    ensures
        res == nodes_match(*source_node, *pattern_node),
    decreases pattern_node,
{
    if !str_eq(source_node.kind.as_str(), pattern_node.kind.as_str()) {
        return false;
    }
    if is_literal_kind(pattern_node.kind.as_str()) && only_text_pieces(&source_node.children)
        && only_text_pieces(&pattern_node.children) {
        return true;
    }
    let sc = &source_node.children;
    let pc = &pattern_node.children;
    if count_named(pc) != count_named(sc) {
        return false;
    }
    let sn = sc.len();
    let pn = pc.len();
    let mut a: usize = 0;
    let mut b: usize = 0;
    assert(sc@.skip(0) =~= sc@);
    assert(pc@.skip(0) =~= pc@);
    loop
        invariant
            sn == sc@.len(),
            pn == pc@.len(),
            *sc == source_node.children,
            *pc == pattern_node.children,
            source_node.kind@ == pattern_node.kind@,
            !(is_leaf_value(*source_node) && is_leaf_value(*pattern_node)),
            named_count(sc@) == named_count(pc@),
            a <= sn,
            b <= pn,
            named_lists_match(sc@, pc@) == named_lists_match(sc@.skip(a as int), pc@.skip(
                b as int,
            )),
        decreases (sn - a) + (pn - b),
    {
        let ghost ss = sc@.skip(a as int);
        let ghost ps = pc@.skip(b as int);
        if b == pn {
            assert(ps.len() == 0);
            return true;
        }
        assert(ps[0] == pc@[b as int]);
        assert(ps.drop_first() =~= pc@.skip(b + 1));
        if !pc[b].named {
            b = b + 1;
        } else if a == sn {
            assert(ss.len() == 0);
            return false;
        } else {
            assert(ss[0] == sc@[a as int]);
            assert(ss.drop_first() =~= sc@.skip(a + 1));
            if !sc[a].named {
                a = a + 1;
            } else {
                if !structurally_matches(&sc[a], &pc[b]) {
                    return false;
                }
                a = a + 1;
                b = b + 1;
            }
        }
    }
}

/// Appends to `matches` the locations of the nodes of the tree rooted at
/// `node` that have the structure of `pattern`, in preorder.
pub fn collect_matches(node: &SyntaxNode, pattern: &SyntaxNode, matches: &mut Vec<Match>)
    ensures
        final(matches)@ == old(matches)@ + matches_in(*node, *pattern),
    decreases node,
{
    let ghost start = matches@;
    if structurally_matches(node, pattern) {
        matches.push(
            Match {
                start_byte: node.start_byte,
                end_byte: node.end_byte,
                start_point: node.start_point,
                end_point: node.end_point,
            },
        );
    }
    let ghost here = matches@;
    let ch = &node.children;
    let n = ch.len();
    let mut i: usize = 0;
    while i < n
        invariant
            n == ch@.len(),
            *ch == node.children,
            i <= n,
            here == start + (if nodes_match(*node, *pattern) {
                seq![match_of(*node)]
            } else {
                Seq::empty()
            }),
            matches@ == here + matches_in_list(ch@.subrange(0, i as int), *pattern),
        decreases n - i,
    {
        assert(ch@.subrange(0, i + 1).drop_last() =~= ch@.subrange(0, i as int));
        collect_matches(&ch[i], pattern, matches);
        i = i + 1;
    }
    assert(ch@.subrange(0, n as int) =~= ch@);
}

/// The pattern that a parsed snippet gives: the node that stands for the
/// snippet, provided that it holds no syntax error.
pub fn snippet_pattern(snippet_root: &SyntaxNode) -> (res: Result<&SyntaxNode, String>)
    ensures
        match spec_snippet_pattern(*snippet_root) {
            Ok(p) => res matches Ok(r) && *r == p,
            Err(e) => res matches Err(m) && m@ == e,
        },
{
    match extract_pattern(snippet_root) {
        None => Err(string_of("Could not extract pattern from snippet")),
        Some(p) => {
            if has_error(p) {
                Err(string_of("Snippet contains syntax errors"))
            } else {
                Ok(p)
            }
        },
    }
}

/// The locations of all nodes of `source_root`'s tree that have the
/// structure of the pattern that `snippet_root` gives, in preorder.
pub fn match_snippet(source_root: &SyntaxNode, snippet_root: &SyntaxNode) -> (res: Result<
    Vec<Match>,
    String,
>)
    ensures
        match spec_snippet_pattern(*snippet_root) {
            Ok(p) => res matches Ok(ms) && ms@ == matches_in(*source_root, p),
            Err(e) => res matches Err(m) && m@ == e,
        },
{
    let pattern = snippet_pattern(snippet_root)?;
    let mut matches: Vec<Match> = Vec::new();
    collect_matches(source_root, pattern, &mut matches);
    Ok(matches)
}

/// Finds all places in `source` with the structure of the code `snippet`,
/// both parsed with the grammar of `lang`. The result is the preorder list
/// of the nodes of the source's tree that structurally match the pattern
/// that the snippet's tree gives (see `match_snippet`).
pub fn find_snippet_matches(source: &str, snippet: &str, lang: &Lang) -> (res: Result<
    Vec<Match>,
    String,
>)
    ensures
        match language_refusal(*lang) {
            Some(m) => res matches Err(e) && e@ == "Failed to set language: "@ + m,
            None => match spec_snippet_pattern(tree_of(parsed_records(*lang, snippet@))) {
                Ok(p) => res matches Ok(ms) && ms@ == matches_in(
                    tree_of(parsed_records(*lang, source@)),
                    p,
                ),
                Err(e) => res matches Err(m) && m@ == e,
            },
        },
        res matches Ok(ms) ==> matches_fit(encode_utf8(source@), ms@),
{
    let grammar = lang.grammar();
    let mut parser = match ts::set_parser_language(ts::new_parser(), &grammar) {
        Ok(p) => p,
        Err(e) => {
            let mut msg = string_of("Failed to set language: ");
            push_str(&mut msg, e.as_str());
            return Err(msg);
        },
    };
    let snippet_root = match ts::parse_text(&mut parser, snippet) {
        None => {
            return Err(string_of("Failed to parse snippet"));
        },
        Some(t) => match read_tree(&t) {
            None => {
                return Err(string_of("Failed to parse snippet"));
            },
            Some(n) => n,
        },
    };
    let source_root = match ts::parse_text(&mut parser, source) {
        None => {
            return Err(string_of("Failed to parse source"));
        },
        Some(t) => match read_tree(&t) {
            None => {
                return Err(string_of("Failed to parse source"));
            },
            Some(n) => n,
        },
    };
    let res = match_snippet(&source_root, &snippet_root);
    proof {
        lemma_tree_of_flatten(source_root);
        lemma_tree_of_flatten(snippet_root);
        let (s2, r2) = (tree_of(flatten(source_root, 0)), tree_of(flatten(snippet_root, 0)));
        lemma_snippet_pattern_same(snippet_root, r2);
        if spec_snippet_pattern(snippet_root) is Ok {
            lemma_matches_fit(
                encode_utf8(source@),
                source_root,
                spec_snippet_pattern(snippet_root)->Ok_0,
                0,
            );
            lemma_matches_in_same(
                source_root,
                s2,
                spec_snippet_pattern(snippet_root)->Ok_0,
                spec_snippet_pattern(r2)->Ok_0,
            );
        }
    }
    res
}

/// One capture of a query match: the index of its capture name, and where
/// the captured node lies.
#[derive(Clone, Copy, Debug, PartialEq, Eq, Structural)]
pub struct Capture {
    pub index: u32,
    pub location: Match,
}

/// Whether `c` is captured under the name `matched` or `target`.
pub open spec fn is_target_capture(c: Capture, names: Seq<Seq<char>>) -> bool {
    &&& (c.index as int) < names.len()
    &&& (names[c.index as int] == "matched"@ || names[c.index as int] == "target"@)
}

/// The first capture of `cs` named `matched` or `target`.
pub open spec fn first_target(cs: Seq<Capture>, names: Seq<Seq<char>>) -> Option<Capture>
    decreases cs.len(),
{
    if cs.len() == 0 {
        None
    } else if is_target_capture(cs[0], names) {
        Some(cs[0])
    } else {
        first_target(cs.drop_first(), names)
    }
}

/// The capture that stands for a query match: its first capture named
/// `matched` or `target`, or else its first capture.
pub open spec fn chosen_capture(cs: Seq<Capture>, names: Seq<Seq<char>>) -> Capture {
    match first_target(cs, names) {
        Some(c) => c,
        None => cs[0],
    }
}

/// Whether capture `c` is named `matched` or `target`, read off the capture
/// names directly.
pub open spec fn named_matched_or_target(c: Capture, names: Seq<Seq<char>>) -> bool {
    (c.index as int) < names.len() && (names[c.index as int] == "matched"@ || names[c.index
        as int] == "target"@)
}

/// A query match reports its first capture named `matched` or `target`:
/// if capture `k` is so named and no capture before it is, capture `k` is
/// the one reported.
pub proof fn lemma_reports_first_matched_or_target(
    cs: Seq<Capture>,
    names: Seq<Seq<char>>,
    k: int,
)
    requires
        0 <= k < cs.len(),
        (cs[k].index as int) < names.len(),
        names[cs[k].index as int] == "matched"@ || names[cs[k].index as int] == "target"@,
        forall|j: int| 0 <= j < k ==> !named_matched_or_target(#[trigger] cs[j], names),
    ensures
        chosen_capture(cs, names) == cs[k],
    decreases k,
{
    lemma_first_target_at(cs, names, k);
}

proof fn lemma_first_target_at(cs: Seq<Capture>, names: Seq<Seq<char>>, k: int)
    requires
        0 <= k < cs.len(),
        named_matched_or_target(cs[k], names),
        forall|j: int| 0 <= j < k ==> !named_matched_or_target(#[trigger] cs[j], names),
    ensures
        first_target(cs, names) == Some(cs[k]),
    decreases k,
{
    if k > 0 {
        assert(!named_matched_or_target(cs[0], names));
        assert forall|j: int| 0 <= j < k - 1 implies !named_matched_or_target(
            #[trigger] cs.drop_first()[j],
            names,
        ) by {
            assert(cs.drop_first()[j] == cs[j + 1]);
        }
        lemma_first_target_at(cs.drop_first(), names, k - 1);
    }
}

proof fn lemma_no_first_target(cs: Seq<Capture>, names: Seq<Seq<char>>)
    requires
        forall|j: int| 0 <= j < cs.len() ==> !named_matched_or_target(#[trigger] cs[j], names),
    ensures
        first_target(cs, names) is None,
    decreases cs.len(),
{
    if cs.len() > 0 {
        assert(!named_matched_or_target(cs[0], names));
        assert forall|j: int| 0 <= j < cs.len() - 1 implies !named_matched_or_target(
            #[trigger] cs.drop_first()[j],
            names,
        ) by {
            assert(cs.drop_first()[j] == cs[j + 1]);
        }
        lemma_no_first_target(cs.drop_first(), names);
    }
}

/// A query match none of whose captures is named `matched` or `target`
/// reports its first capture.
pub proof fn lemma_reports_first_capture(cs: Seq<Capture>, names: Seq<Seq<char>>)
    requires
        cs.len() > 0,
        forall|j: int|
            0 <= j < cs.len() ==> !((#[trigger] cs[j].index as int) < names.len() && (names[cs[j].index as int]
                == "matched"@ || names[cs[j].index as int] == "target"@)),
    ensures
        chosen_capture(cs, names) == cs[0],
{
    assert forall|j: int| 0 <= j < cs.len() implies !named_matched_or_target(#[trigger] cs[j], names) by {
        assert(!((cs[j].index as int) < names.len() && (names[cs[j].index as int] == "matched"@
            || names[cs[j].index as int] == "target"@)));
    }
    lemma_no_first_target(cs, names);
}

/// The locations that a run of query matches yields: one per match that
/// has captures, the location of its chosen capture, in order.
pub open spec fn query_results(ms: Seq<Seq<Capture>>, names: Seq<Seq<char>>) -> Seq<Match>
    decreases ms.len(),
{
    if ms.len() == 0 {
        Seq::empty()
    } else {
        let rest = query_results(ms.drop_last(), names);
        if ms.last().len() == 0 {
            rest
        } else {
            rest.push(chosen_capture(ms.last(), names).location)
        }
    }
}

/// The views of a list of strings.
pub open spec fn string_views(v: Seq<String>) -> Seq<Seq<char>> {
    v.map_values(|s: String| s@)
}

/// The views of a list of query matches.
pub open spec fn capture_lists(v: Seq<Vec<Capture>>) -> Seq<Seq<Capture>> {
    v.map_values(|cs: Vec<Capture>| cs@)
}

/// Every capture of every match of `ms` lies in `bytes` on character
/// boundaries.
pub open spec fn captures_fit(bytes: Seq<u8>, ms: Seq<Seq<Capture>>) -> bool {
    forall|i: int, j: int|
        0 <= i < ms.len() && 0 <= j < ms[i].len() ==> match_fits(bytes, #[trigger] ms[i][j].location)
}

proof fn lemma_first_target_fits(bytes: Seq<u8>, cs: Seq<Capture>, names: Seq<Seq<char>>)
    requires
        forall|j: int| 0 <= j < cs.len() ==> match_fits(bytes, #[trigger] cs[j].location),
    ensures
        first_target(cs, names) matches Some(c) ==> match_fits(bytes, c.location),
    decreases cs.len(),
{
    if cs.len() > 0 {
        assert(match_fits(bytes, cs[0].location));
        assert forall|j: int| 0 <= j < cs.drop_first().len() implies match_fits(
            bytes,
            #[trigger] cs.drop_first()[j].location,
        ) by {
            assert(cs.drop_first()[j] == cs[j + 1]);
        }
        lemma_first_target_fits(bytes, cs.drop_first(), names);
    }
}

/// The locations that query matches yield lie wherever all their captures
/// do.
pub proof fn lemma_query_results_fit(bytes: Seq<u8>, ms: Seq<Seq<Capture>>, names: Seq<Seq<char>>)
    requires
        captures_fit(bytes, ms),
    ensures
        matches_fit(bytes, query_results(ms, names)),
    decreases ms.len(),
{
    if ms.len() > 0 {
        let last = ms.last();
        assert forall|i: int, j: int|
            0 <= i < ms.drop_last().len() && 0 <= j < ms.drop_last()[i].len() implies match_fits(
            bytes,
            #[trigger] ms.drop_last()[i][j].location,
        ) by {
            assert(ms.drop_last()[i] == ms[i]);
            assert(match_fits(bytes, ms[i][j].location));
        }
        lemma_query_results_fit(bytes, ms.drop_last(), names);
        assert forall|j: int| 0 <= j < last.len() implies match_fits(bytes, #[trigger] last[j].location) by {
            assert(match_fits(bytes, ms[ms.len() - 1][j].location));
        }
        lemma_first_target_fits(bytes, last, names);
        if last.len() > 0 {
            assert(match_fits(bytes, last[0].location));
            let rest = query_results(ms.drop_last(), names);
            let c = chosen_capture(last, names);
            assert forall|k: int| 0 <= k < rest.push(c.location).len() implies match_fits(
                bytes,
                #[trigger] rest.push(c.location)[k],
            ) by {
                if k < rest.len() {
                    assert(rest.push(c.location)[k] == rest[k]);
                }
            }
        }
    }
}

/// Picks, for each query match that has captures, the location of the
/// capture that stands for it (see `chosen_capture`), in order.
pub fn select_query_targets(matches: &Vec<Vec<Capture>>, capture_names: &Vec<String>) -> (res:
    Vec<Match>)
    ensures
        res@ == query_results(capture_lists(matches@), string_views(capture_names@)),
{
    let ghost names = string_views(capture_names@);
    let ghost ms = capture_lists(matches@);
    let mut out: Vec<Match> = Vec::new();
    let n = matches.len();
    let mut i: usize = 0;
    while i < n
        invariant
            n == matches@.len(),
            i <= n,
            names == string_views(capture_names@),
            ms == capture_lists(matches@),
            out@ == query_results(ms.subrange(0, i as int), names),
        decreases n - i,
    {
        assert(ms.subrange(0, i + 1).drop_last() =~= ms.subrange(0, i as int));
        assert(ms.subrange(0, i + 1).last() == matches@[i as int]@);
        let cs = &matches[i];
        if cs.len() > 0 {
            let c = choose_capture(cs, capture_names);
            out.push(c.location);
        }
        i = i + 1;
    }
    assert(ms.subrange(0, n as int) =~= ms);
    out
}

/// The capture that stands for a match with captures `cs`.
fn choose_capture(cs: &Vec<Capture>, capture_names: &Vec<String>) -> (res: Capture)
    requires
        cs@.len() > 0,
    ensures
        res == chosen_capture(cs@, string_views(capture_names@)),
{
    let ghost names = string_views(capture_names@);
    let n = cs.len();
    let mut k: usize = 0;
    assert(cs@.skip(0) =~= cs@);
    while k < n
        invariant
            n == cs@.len(),
            k <= n,
            names == string_views(capture_names@),
            first_target(cs@, names) == first_target(cs@.skip(k as int), names),
        decreases n - k,
    {
        let c = cs[k];
        assert(cs@.skip(k as int)[0] == c);
        assert(cs@.skip(k as int).drop_first() =~= cs@.skip(k + 1));
        let idx = c.index as usize;
        if idx < capture_names.len() {
            let name = capture_names[idx].as_str();
            if str_eq(name, "matched") || str_eq(name, "target") {
                return c;
            }
        }
        k = k + 1;
    }
    cs[0]
}

/// The message that reports a query that does not compile.
pub open spec fn query_error_message(row: usize, column: usize, message: Seq<char>) -> Seq<
    char,
> {
    "Query error at "@ + decimal(row as nat) + ":"@ + decimal(column as nat) + ": "@ + message
}

/// The message for a query error at `row`:`column` with the given text.
pub fn format_query_error(row: usize, column: usize, message: &str) -> (res: String)
    ensures
        res@ == query_error_message(row, column, message@),
{
    let mut msg = string_of("Query error at ");
    let r = decimal_string(row);
    push_str(&mut msg, r.as_str());
    push_str(&mut msg, ":");
    let c = decimal_string(column);
    push_str(&mut msg, c.as_str());
    push_str(&mut msg, ": ");
    push_str(&mut msg, message);
    msg
}

/// Finds matches of a tree-sitter S-expression query in `source`, parsed
/// with the grammar of `lang`. Each query match with captures gives one
/// location: that of its capture named `matched` or `target`, or else of
/// its first capture (see `select_query_targets`).
pub fn find_query_matches(source: &str, query_str: &str, lang: &Lang) -> (res: Result<
    Vec<Match>,
    String,
>)
    ensures
        match query_refusal(*lang, query_str@) {
            Some(r) => res matches Err(e) && e@ == query_error_message(r.0, r.1, r.2),
            None => match language_refusal(*lang) {
                Some(_) => res matches Err(e) && e@ == "Failed to set language"@,
                None => res matches Ok(ms) && ms@ == query_results(
                    query_captures(*lang, query_str@, source@),
                    query_names(*lang, query_str@),
                ),
            },
        },
        res matches Ok(ms) ==> matches_fit(encode_utf8(source@), ms@),
{
    let grammar = lang.grammar();
    let query = match ts::compile_query(&grammar, query_str) {
        Ok(q) => q,
        Err(e) => {
            return Err(format_query_error(e.0, e.1, e.2.as_str()));
        },
    };
    let mut parser = match ts::set_parser_language(ts::new_parser(), &grammar) {
        Ok(p) => p,
        Err(_) => {
            return Err(string_of("Failed to set language"));
        },
    };
    let tree = match ts::parse_text(&mut parser, source) {
        Some(t) => t,
        None => {
            return Err(string_of("Failed to parse source"));
        },
    };
    let lists = ts::run_query(&query, &tree);
    let names = ts::capture_names(&query);
    proof {
        let ms = capture_lists(lists@);
        assert forall|i: int, j: int| 0 <= i < ms.len() && 0 <= j < ms[i].len() implies match_fits(
            encode_utf8(source@),
            #[trigger] ms[i][j].location,
        ) by {
            assert(ms[i] == lists@[i]@);
            assert(match_fits(encode_utf8(source@), lists@[i]@[j].location));
        }
        lemma_query_results_fit(encode_utf8(source@), ms, string_views(names@));
    }
    Ok(select_query_targets(&lists, &names))
}

} // verus!
