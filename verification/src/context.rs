//! Inserting code next to a context snippet in Java source: the context is
//! located by a loose comparison of node kinds, and the new code goes into
//! the line where the located node ends.
use vstd::prelude::*;
use vstd::utf8::*;
use vstd::string::StringSliceAdditionalSpecFns;
use crate::edit::splice;
use crate::language::Lang;
use crate::matcher::{preorder, preorder_list, Point};
use crate::syntax::{
    flatten, lemma_same_tree_parts, lemma_same_trees_shrink, lemma_tree_of_flatten, read_tree, same_tree,
    same_trees, tree_of, SyntaxNode,
};
use crate::text::{chars_of, lemma_encode_utf8_concat, push_char, push_str, str_eq, string_of};
use crate::ts;
use crate::ts::{language_refusal, parsed_records};

verus! {

/// The loose comparison: some child of `n1` has the kind of `n2` and, when
/// `n2` has children, is itself loosely equal to `n2`'s first child; or else
/// `n1` and `n2` have the same kind.
pub open spec fn approx_equal(n1: SyntaxNode, n2: SyntaxNode) -> bool
    decreases n1, n2,
{
    approx_some_child(n1.children@, n2) || n1.kind@ == n2.kind@
}

/// Some node of `cs` has the kind of `n2` and, when `n2` has children, is
/// loosely equal to `n2`'s first child.
pub open spec fn approx_some_child(cs: Seq<SyntaxNode>, n2: SyntaxNode) -> bool
    decreases cs, n2,
{
    if cs.len() == 0 {
        false
    } else {
        approx_some_child(cs.drop_last(), n2) || (cs.last().kind@ == n2.kind@ && (
        n2.children@.len() == 0 || approx_equal(cs.last(), n2.children@[0])))
    }
}

/// Where the first node loosely equal to `p` ends, searching the trees `ns`
/// in order, each in preorder (its root first, then below it).
pub open spec fn anchor_in_list(ns: Seq<SyntaxNode>, p: SyntaxNode) -> Option<Point>
    decreases ns,
{
    if ns.len() == 0 {
        None
    } else if approx_equal(ns[0], p) {
        Some(ns[0].end_point)
    } else {
        match anchor_in_list(ns[0].children@, p) {
            Some(x) => Some(x),
            None => anchor_in_list(ns.drop_first(), p),
        }
    }
}

/// Where the first node strictly below `root` that is loosely equal to `p`
/// ends, searching in preorder.
pub open spec fn spec_match_node(root: SyntaxNode, p: SyntaxNode) -> Option<Point> {
    anchor_in_list(root.children@, p)
}

/// The preorder of a list of trees, taken from the front: the first tree,
/// then the rest.
pub proof fn lemma_preorder_list_front(ns: Seq<SyntaxNode>)
    requires
        ns.len() > 0,
    ensures
        preorder_list(ns) == preorder(ns[0]) + preorder_list(ns.drop_first()),
    decreases ns.len(),
{
    if ns.len() == 1 {
        assert(ns.drop_last().len() == 0);
        assert(ns.drop_first().len() == 0);
        assert(preorder_list(ns.drop_first()) =~= Seq::<SyntaxNode>::empty());
        assert(preorder_list(ns.drop_last()) =~= Seq::<SyntaxNode>::empty());
        assert(ns.last() == ns[0]);
        assert(preorder_list(ns) =~= preorder(ns[0]));
        assert(preorder(ns[0]) + Seq::<SyntaxNode>::empty() =~= preorder(ns[0]));
    } else {
        lemma_preorder_list_front(ns.drop_last());
        assert(ns.drop_last()[0] == ns[0]);
        assert(ns.drop_last().drop_first() =~= ns.drop_first().drop_last());
        assert(ns.drop_first().last() == ns.last());
        assert(preorder_list(ns.drop_first()) == preorder_list(ns.drop_first().drop_last())
            + preorder(ns.drop_first().last()));
        assert(preorder_list(ns) =~= preorder(ns[0]) + preorder_list(ns.drop_first()));
    }
}

/// The index, in the preorder of `ns`, of the node that `anchor_in_list`
/// settles on.
proof fn lemma_anchor_index(ns: Seq<SyntaxNode>, p: SyntaxNode) -> (k: int)
    ensures
        anchor_in_list(ns, p) is None ==> forall|j: int|
            0 <= j < preorder_list(ns).len() ==> !approx_equal(#[trigger] preorder_list(ns)[j], p),
        anchor_in_list(ns, p) matches Some(pt) ==> {
            &&& 0 <= k < preorder_list(ns).len()
            &&& approx_equal(preorder_list(ns)[k], p)
            &&& preorder_list(ns)[k].end_point == pt
            &&& forall|j: int| 0 <= j < k ==> !approx_equal(#[trigger] preorder_list(ns)[j], p)
        },
    decreases ns,
{
    if ns.len() == 0 {
        0
    } else {
        lemma_preorder_list_front(ns);
        let n0 = ns[0];
        let a = preorder_list(n0.children@);
        let b = preorder_list(ns.drop_first());
        let pre = preorder_list(ns);
        assert(pre =~= seq![n0] + a + b);
        assert(pre[0] == n0);
        assert(forall|j: int| 0 <= j < a.len() ==> pre[1 + j] == #[trigger] a[j]);
        assert(forall|j: int| 0 <= j < b.len() ==> pre[1 + a.len() + j] == #[trigger] b[j]);
        if approx_equal(n0, p) {
            0
        } else {
            let ka = lemma_anchor_index(n0.children@, p);
            if anchor_in_list(n0.children@, p) is Some {
                assert forall|j: int| 0 <= j < 1 + ka implies !approx_equal(#[trigger] pre[j], p) by {
                    if j > 0 {
                        assert(pre[j] == a[j - 1]);
                    }
                }
                1 + ka
            } else {
                let kb = lemma_anchor_index(ns.drop_first(), p);
                if anchor_in_list(ns.drop_first(), p) is Some {
                    assert forall|j: int| 0 <= j < 1 + a.len() + kb implies !approx_equal(
                        #[trigger] pre[j],
                        p,
                    ) by {
                        if 0 < j < 1 + a.len() {
                            assert(pre[j] == a[j - 1]);
                        } else if j >= 1 + a.len() {
                            assert(pre[j] == b[j - 1 - a.len()]);
                        }
                    }
                    assert(pre[1 + a.len() + kb] == b[kb]);
                } else {
                    assert forall|j: int| 0 <= j < pre.len() implies !approx_equal(#[trigger] pre[j], p) by {
                        if 0 < j < 1 + a.len() {
                            assert(pre[j] == a[j - 1]);
                        } else if j >= 1 + a.len() {
                            assert(pre[j] == b[j - 1 - a.len()]);
                        }
                    }
                }
                1 + a.len() + kb
            }
        }
    }
}

/// The context is anchored at the first node, in document order (a node
/// before its descendants, earlier siblings before later ones), that is
/// loosely equal to it: the anchor is that node's end, and no node earlier
/// in that order is loosely equal to the context. There is no anchor
/// exactly when no node is.
pub proof fn lemma_anchor_is_first_in_preorder(ns: Seq<SyntaxNode>, p: SyntaxNode)
    ensures
        anchor_in_list(ns, p) is None <==> forall|j: int|
            0 <= j < preorder_list(ns).len() ==> !approx_equal(#[trigger] preorder_list(ns)[j], p),
        anchor_in_list(ns, p) matches Some(pt) ==> exists|k: int|
            {
                &&& 0 <= k < preorder_list(ns).len()
                &&& approx_equal(#[trigger] preorder_list(ns)[k], p)
                &&& preorder_list(ns)[k].end_point == pt
                &&& forall|j: int| 0 <= j < k ==> !approx_equal(#[trigger] preorder_list(ns)[j], p)
            },
{
    let k = lemma_anchor_index(ns, p);
    if anchor_in_list(ns, p) is Some {
        assert(approx_equal(preorder_list(ns)[k], p));
    }
}

/// `match_node` finds, among the nodes strictly below the source's root,
/// the first one in document order that is loosely equal to the context,
/// and gives where it ends.
pub proof fn lemma_match_node_is_first_below_root(root: SyntaxNode, p: SyntaxNode)
    ensures
        spec_match_node(root, p) is None <==> forall|j: int|
            0 <= j < preorder_list(root.children@).len() ==> !approx_equal(
                #[trigger] preorder_list(root.children@)[j],
                p,
            ),
        spec_match_node(root, p) matches Some(pt) ==> exists|k: int|
            {
                &&& 0 <= k < preorder_list(root.children@).len()
                &&& approx_equal(#[trigger] preorder_list(root.children@)[k], p)
                &&& preorder_list(root.children@)[k].end_point == pt
                &&& forall|j: int|
                    0 <= j < k ==> !approx_equal(#[trigger] preorder_list(root.children@)[j], p)
            },
{
    lemma_anchor_is_first_in_preorder(root.children@, p);
}

/// Whether `node1` is loosely equal to `node2` (see `approx_equal`).
pub fn nodes_are_approximately_equal(node1: &SyntaxNode, node2: &SyntaxNode) -> (res: bool)
    ensures
        res == approx_equal(*node1, *node2),
    decreases node1, node2,
{
    let cs = &node1.children;
    let n = cs.len();
    let mut i: usize = 0;
    while i < n
        invariant
            n == cs@.len(),
            *cs == node1.children,
            i <= n,
            !approx_some_child(cs@.subrange(0, i as int), *node2),
        decreases n - i,
    {
        let child = &cs[i];
        assert(cs@.subrange(0, i + 1).drop_last() =~= cs@.subrange(0, i as int));
        assert(cs@.subrange(0, i + 1).last() == *child);
        if str_eq(child.kind.as_str(), node2.kind.as_str()) {
            if node2.children.len() == 0 {
                proof {
                    lemma_approx_some_child_prefix(cs@, i + 1, *node2);
                }
                return true;
            }
            if nodes_are_approximately_equal(child, &node2.children[0]) {
                proof {
                    lemma_approx_some_child_prefix(cs@, i + 1, *node2);
                }
                return true;
            }
        }
        i = i + 1;
    }
    assert(cs@.subrange(0, n as int) =~= cs@);
    str_eq(node1.kind.as_str(), node2.kind.as_str())
}

proof fn lemma_approx_some_child_prefix(cs: Seq<SyntaxNode>, k: int, n2: SyntaxNode)
    requires
        0 <= k <= cs.len(),
        approx_some_child(cs.subrange(0, k), n2),
    ensures
        approx_some_child(cs, n2),
    decreases cs.len() - k,
{
    if k < cs.len() {
        assert(cs.subrange(0, k + 1).drop_last() =~= cs.subrange(0, k));
        lemma_approx_some_child_prefix(cs, k + 1, n2);
    } else {
        assert(cs.subrange(0, k) =~= cs);
    }
}

/// Where the first node below `root` (in preorder) that is loosely equal
/// to `pattern` ends.
pub fn match_node(root: &SyntaxNode, pattern: &SyntaxNode) -> (res: Option<Point>)
    ensures
        res == spec_match_node(*root, *pattern),
    decreases root,
{
    let cs = &root.children;
    let n = cs.len();
    let mut i: usize = 0;
    assert(cs@.skip(0) =~= cs@);
    while i < n
        invariant
            n == cs@.len(),
            *cs == root.children,
            i <= n,
            spec_match_node(*root, *pattern) == anchor_in_list(cs@.skip(i as int), *pattern),
        decreases n - i,
    {
        let child = &cs[i];
        assert(cs@.skip(i as int)[0] == *child);
        assert(cs@.skip(i as int).drop_first() =~= cs@.skip(i + 1));
        if nodes_are_approximately_equal(child, pattern) {
            return Some(child.end_point);
        }
        if let Some(p) = match_node(child, pattern) {
            return Some(p);
        }
        i = i + 1;
    }
    None
}

/// The index of the first `c` in `s`, or -1.
pub open spec fn first_index_of(s: Seq<char>, c: char) -> int
    decreases s.len(),
{
    if s.len() == 0 {
        -1
    } else if s[0] == c {
        0
    } else {
        let r = first_index_of(s.drop_first(), c);
        if r < 0 {
            -1
        } else {
            r + 1
        }
    }
}

proof fn lemma_first_index_of(s: Seq<char>, c: char, k: int)
    requires
        0 <= k <= s.len(),
        forall|j: int| 0 <= j < k ==> s[j] != c,
        k < s.len() ==> s[k] == c,
    ensures
        first_index_of(s, c) == if k < s.len() {
            k
        } else {
            -1
        },
    decreases k,
{
    if k > 0 {
        lemma_first_index_of(s.drop_first(), c, k - 1);
    }
}

/// `l` without one trailing carriage return.
pub open spec fn strip_cr(l: Seq<char>) -> Seq<char> {
    if l.len() > 0 && l.last() == '\r' {
        l.drop_last()
    } else {
        l
    }
}

/// The lines of `s`: split at each `\n`, a `\r` just before a `\n` is
/// dropped, and a final line ending adds no empty line.
pub open spec fn spec_lines(s: Seq<char>) -> Seq<Seq<char>>
    decreases s.len(),
{
    if s.len() == 0 {
        Seq::empty()
    } else {
        let k = first_index_of(s, '\n');
        if k < 0 {
            seq![s]
        } else {
            proof {
                lemma_first_index_of_range(s, '\n');
            }
            seq![strip_cr(s.subrange(0, k))] + spec_lines(s.subrange(k + 1, s.len() as int))
        }
    }
}

pub proof fn lemma_first_index_of_range(s: Seq<char>, c: char)
    ensures
        -1 <= first_index_of(s, c) < s.len(),
    decreases s.len(),
{
    if s.len() > 0 && s[0] != c {
        lemma_first_index_of_range(s.drop_first(), c);
    }
}

/// The lines `ls` joined with `\n` between them.
pub open spec fn join_lines(ls: Seq<Seq<char>>) -> Seq<char>
    decreases ls.len(),
{
    if ls.len() == 0 {
        Seq::empty()
    } else if ls.len() == 1 {
        ls[0]
    } else {
        join_lines(ls.drop_last()) + seq!['\n'] + ls.last()
    }
}

/// Whether `insertion` can go at byte `column - 1` of line `row` of
/// `source` (when that line exists): the column is at least 1 and the
/// position lies on a character boundary of the line.
pub open spec fn insertion_fits(source: Seq<char>, row: nat, column: nat) -> bool {
    let ls = spec_lines(source);
    row < ls.len() ==> {
        &&& column >= 1
        &&& column - 1 <= encode_utf8(ls[row as int]).len()
        &&& is_char_boundary(encode_utf8(ls[row as int]), column - 1)
    }
}

/// The lines of `source` with `insertion` put at byte `column - 1` of line
/// `row` (no line changes when there is no such line), joined with `\n`.
pub open spec fn spec_insert_at(source: Seq<char>, row: nat, column: nat, insertion: Seq<
    char,
>) -> Seq<char> {
    let ls = spec_lines(source);
    if row < ls.len() {
        let lb = encode_utf8(ls[row as int]);
        let k = column - 1;
        join_lines(
            ls.update(row as int, decode_utf8(splice(lb, k, k, encode_utf8(insertion)))),
        )
    } else {
        join_lines(ls)
    }
}

/// The lines of `source`.
pub fn source_lines(source: &str) -> (res: Vec<String>)
    ensures
        res@.map_values(|l: String| l@) == spec_lines(source@),
{
    let chars = chars_of(source);
    let n = chars.len();
    let mut out: Vec<String> = Vec::new();
    let mut pos: usize = 0;
    assert(chars@.subrange(0, n as int) =~= source@);
    while pos < n
        invariant
            n == chars@.len(),
            chars@ == source@,
            pos <= n,
            out@.map_values(|l: String| l@) + spec_lines(chars@.subrange(pos as int, n as int))
                == spec_lines(source@),
        decreases n - pos,
    {
        let ghost rest = chars@.subrange(pos as int, n as int);
        let mut k: usize = pos;
        while k < n && chars[k] != '\n'
            invariant
                pos <= k <= n,
                n == chars@.len(),
                forall|j: int| pos <= j < k ==> chars@[j] != '\n',
            decreases n - k,
        {
            k = k + 1;
        }
        proof {
            assert forall|j: int| 0 <= j < k - pos implies rest[j] != '\n' by {
                assert(rest[j] == chars@[pos + j]);
            }
            lemma_first_index_of(rest, '\n', k - pos);
        }
        let mut end = k;
        if k < n && end > pos && chars[end - 1] == '\r' {
            end = end - 1;
        }
        let mut line = String::new();
        let mut j: usize = pos;
        while j < end
            invariant
                pos <= j <= end <= n,
                n == chars@.len(),
                line@ == chars@.subrange(pos as int, j as int),
            decreases end - j,
        {
            push_char(&mut line, chars[j]);
            assert(chars@.subrange(pos as int, j + 1) =~= chars@.subrange(pos as int, j as int).push(
                chars@[j as int],
            ));
            j = j + 1;
        }
        let ghost prev = out@;
        out.push(line);
        proof {
            assert(out@.map_values(|l: String| l@) =~= prev.map_values(|l: String| l@).push(line@));
            if k < n {
                assert(rest.subrange(0, k - pos) =~= chars@.subrange(pos as int, k as int));
                assert(line@ =~= strip_cr(rest.subrange(0, k - pos)));
                assert(rest.subrange(k - pos + 1, rest.len() as int) =~= chars@.subrange(
                    k + 1,
                    n as int,
                ));
            } else {
                assert(line@ =~= rest);
                assert(chars@.subrange(n as int, n as int) =~= Seq::<char>::empty());
            }
        }
        if k < n {
            pos = k + 1;
        } else {
            pos = n;
        }
    }
    assert(chars@.subrange(n as int, n as int) =~= Seq::<char>::empty());
    assert(out@.map_values(|l: String| l@) + Seq::<Seq<char>>::empty() =~= out@.map_values(
        |l: String| l@,
    ));
    out
}

/// Whether `insertion` can go into `source` at `row` and `column` (see
/// `insertion_fits`).
pub fn insertion_position_ok(source: &str, row: usize, column: usize) -> (res: bool)
    ensures
        res == insertion_fits(source@, row as nat, column as nat),
{
    let lines = source_lines(source);
    if row >= lines.len() {
        return true;
    }
    let line = lines[row].as_str();
    assert(line@ == spec_lines(source@)[row as int]);
    assert(line.spec_bytes() == encode_utf8(spec_lines(source@)[row as int]));
    if column < 1 {
        return false;
    }
    let k = column - 1;
    let byte_len = line.as_bytes().len();
    if k > byte_len {
        return false;
    }
    line.is_char_boundary(k)
}

/// Puts `insertion` at byte `column - 1` of line `row` of `source` and
/// joins the lines with `\n` (a line ending `\r\n` becomes `\n`, and a final
/// line ending is dropped).
pub fn insert_at(source: &str, row: usize, column: usize, insertion: &str) -> (res: String)
    requires
        insertion_fits(source@, row as nat, column as nat),
    ensures
        res@ == spec_insert_at(source@, row as nat, column as nat, insertion@),
{
    let lines = source_lines(source);
    let ghost ls = spec_lines(source@);
    let ghost target: Seq<Seq<char>> = if (row as int) < ls.len() {
        ls.update(
            row as int,
            decode_utf8(
                splice(
                    encode_utf8(ls[row as int]),
                    column - 1,
                    column - 1,
                    encode_utf8(insertion@),
                ),
            ),
        )
    } else {
        ls
    };
    let n = lines.len();
    let mut out = String::new();
    let mut i: usize = 0;
    while i < n
        invariant
            n == lines@.len(),
            lines@.map_values(|l: String| l@) == ls,
            ls == spec_lines(source@),
            target.len() == ls.len(),
            insertion_fits(source@, row as nat, column as nat),
            (row as int) < ls.len() ==> target == ls.update(
                row as int,
                decode_utf8(
                    splice(
                        encode_utf8(ls[row as int]),
                        column - 1,
                        column - 1,
                        encode_utf8(insertion@),
                    ),
                ),
            ),
            (row as int) >= ls.len() ==> target == ls,
            i <= n,
            out@ == join_lines(target.subrange(0, i as int)),
        decreases n - i,
    {
        if i > 0 {
            push_char(&mut out, '\n');
        }
        let line = lines[i].as_str();
        assert(line@ == ls[i as int]);
        if i == row {
            let k = column - 1;
            let (pre, post) = line.split_at(k);
            push_str(&mut out, pre);
            push_str(&mut out, insertion);
            push_str(&mut out, post);
            proof {
                let lb = encode_utf8(ls[i as int]);
                lemma_encode_utf8_concat(pre@, insertion@);
                lemma_encode_utf8_concat(pre@ + insertion@, post@);
                let joined = pre@ + insertion@ + post@;
                assert(encode_utf8(joined) =~= splice(lb, k as int, k as int, encode_utf8(insertion@)));
                encode_utf8_decode_utf8(joined);
                assert(target[i as int] == joined);
            }
        } else {
            push_str(&mut out, line);
            assert(target[i as int] == ls[i as int]);
        }
        proof {
            let t = target.subrange(0, i + 1);
            assert(t.drop_last() =~= target.subrange(0, i as int));
            assert(t.last() == target[i as int]);
            if i == 0 {
                assert(join_lines(t) == t[0]);
                assert(target.subrange(0, 0) =~= Seq::<Seq<char>>::empty());
            }
        }
        i = i + 1;
    }
    assert(target.subrange(0, n as int) =~= target);
    out
}

/// What `patch` gives for `source` once `source_root` and `context_root`
/// are the trees that `source` and the context parse to.
pub open spec fn spec_patch_trees(
    source: Seq<char>,
    source_root: SyntaxNode,
    context_root: SyntaxNode,
    insertion: Seq<char>,
) -> Result<Seq<char>, Seq<char>> {
    if context_root.children@.len() == 0 {
        Err("Context holds no code"@)
    } else {
        match spec_match_node(source_root, context_root.children@[0]) {
            None => Err("Could not find the context in the source"@),
            Some(p) => if insertion_fits(source, p.row as nat, p.column as nat) {
                Ok(spec_insert_at(source, p.row as nat, p.column as nat, insertion))
            } else {
                Err("Could not insert at the context's position"@)
            },
        }
    }
}

/// Locates the first node of `context_root` (the context's code) in
/// `source_root` and puts `insertion` at the byte before the end of the
/// located node, in that node's last line of `source`.
pub fn patch_trees(
    source: &str,
    source_root: &SyntaxNode,
    context_root: &SyntaxNode,
    insertion: &str,
) -> (res: Result<String, String>)
    ensures
        match spec_patch_trees(source@, *source_root, *context_root, insertion@) {
            Ok(s) => res matches Ok(out) && out@ == s,
            Err(e) => res matches Err(m) && m@ == e,
        },
{
    if context_root.children.len() == 0 {
        return Err(string_of("Context holds no code"));
    }
    let pattern = &context_root.children[0];
    match match_node(source_root, pattern) {
        Some(p) => {
            if !insertion_position_ok(source, p.row, p.column) {
                return Err(string_of("Could not insert at the context's position"));
            }
            Ok(insert_at(source, p.row, p.column, insertion))
        },
        None => Err(string_of("Could not find the context in the source")),
    }
}

/// The loose comparison sees only the values the trees hold.
pub proof fn lemma_approx_same(n1: SyntaxNode, m1: SyntaxNode, n2: SyntaxNode, m2: SyntaxNode)
    requires
        same_tree(n1, m1),
        same_tree(n2, m2),
    ensures
        approx_equal(n1, n2) == approx_equal(m1, m2),
    decreases n1, n2,
{
    lemma_same_tree_parts(n1, m1);
    lemma_same_tree_parts(n2, m2);
    lemma_approx_some_child_same(n1.children@, m1.children@, n2, m2);
}

/// The list form of `lemma_approx_same`.
pub proof fn lemma_approx_some_child_same(
    cs: Seq<SyntaxNode>,
    ds: Seq<SyntaxNode>,
    n2: SyntaxNode,
    m2: SyntaxNode,
)
    requires
        same_trees(cs, ds),
        same_tree(n2, m2),
    ensures
        approx_some_child(cs, n2) == approx_some_child(ds, m2),
    decreases cs, n2,
{
    if cs.len() > 0 {
        lemma_same_trees_shrink(cs, ds);
        lemma_same_tree_parts(cs.last(), ds.last());
        lemma_same_tree_parts(n2, m2);
        lemma_approx_some_child_same(cs.drop_last(), ds.drop_last(), n2, m2);
        if n2.children@.len() > 0 {
            lemma_same_trees_shrink(n2.children@, m2.children@);
            lemma_approx_same(cs.last(), ds.last(), n2.children@[0], m2.children@[0]);
        }
    }
}

/// Where the context is found depends only on the values the trees hold.
pub proof fn lemma_anchor_same(ns: Seq<SyntaxNode>, ms: Seq<SyntaxNode>, p: SyntaxNode, p2: SyntaxNode)
    requires
        same_trees(ns, ms),
        same_tree(p, p2),
    ensures
        anchor_in_list(ns, p) == anchor_in_list(ms, p2),
    decreases ns,
{
    if ns.len() > 0 {
        lemma_same_trees_shrink(ns, ms);
        lemma_same_tree_parts(ns[0], ms[0]);
        lemma_approx_same(ns[0], ms[0], p, p2);
        lemma_anchor_same(ns[0].children@, ms[0].children@, p, p2);
        lemma_anchor_same(ns.drop_first(), ms.drop_first(), p, p2);
    }
}

/// What `patch_trees` gives depends only on the values the trees hold.
pub proof fn lemma_patch_trees_same(
    source: Seq<char>,
    s: SyntaxNode,
    s2: SyntaxNode,
    c: SyntaxNode,
    c2: SyntaxNode,
    insertion: Seq<char>,
)
    requires
        same_tree(s, s2),
        same_tree(c, c2),
    ensures
        spec_patch_trees(source, s, c, insertion) == spec_patch_trees(source, s2, c2, insertion),
{
    lemma_same_tree_parts(s, s2);
    lemma_same_tree_parts(c, c2);
    if c.children@.len() > 0 {
        lemma_same_trees_shrink(c.children@, c2.children@);
        lemma_anchor_same(s.children@, s2.children@, c.children@[0], c2.children@[0]);
    }
}

/// Finds `context` in Java `source` (the first node below the root that is
/// loosely equal to the context's first node) and puts `insertion` at the
/// byte before the end of that node, in its last line (see `patch_trees`).
pub fn patch(source: &str, context: &str, insertion: &str) -> (res: Result<String, String>)
    ensures
        match language_refusal(Lang::Java) {
            Some(_) => res matches Err(e) && e@ == "Error loading Java grammar"@,
            None => match spec_patch_trees(
                source@,
                tree_of(parsed_records(Lang::Java, source@)),
                tree_of(parsed_records(Lang::Java, context@)),
                insertion@,
            ) {
                Ok(s) => res matches Ok(out) && out@ == s,
                Err(e) => res matches Err(m) && m@ == e,
            },
        },
{
    let grammar = Lang::Java.grammar();
    let mut parser = match ts::set_parser_language(ts::new_parser(), &grammar) {
        Ok(p) => p,
        Err(_) => {
            return Err(string_of("Error loading Java grammar"));
        },
    };
    let root = match ts::parse_text(&mut parser, source) {
        None => {
            return Err(string_of("Failed to parse source"));
        },
        Some(t) => match read_tree(&t) {
            None => {
                return Err(string_of("Failed to parse source"));
            },
            Some(n) => n,
        },
    };
    let context_root = match ts::parse_text(&mut parser, context) {
        None => {
            return Err(string_of("Failed to parse context"));
        },
        Some(t) => match read_tree(&t) {
            None => {
                return Err(string_of("Failed to parse context"));
            },
            Some(n) => n,
        },
    };
    let res = patch_trees(source, &root, &context_root, insertion);
    proof {
        lemma_tree_of_flatten(root);
        lemma_tree_of_flatten(context_root);
        lemma_patch_trees_same(
            source@,
            root,
            tree_of(flatten(root, 0)),
            context_root,
            tree_of(flatten(context_root, 0)),
            insertion@,
        );
    }
    res
}

} // verus!
