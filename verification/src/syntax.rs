//! Syntax trees as plain values: the nodes that tree-sitter reports, read
//! in preorder with their depths, and assembled into a tree.
use vstd::prelude::*;
use vstd::utf8::*;
use crate::matcher::Point;
use crate::ts;

verus! {

/// One node of a syntax tree, with its visible children in order.
pub struct SyntaxNode {
    /// The grammar's name for the node (`"return_statement"`, `"ERROR"`, or
    /// the literal text of an anonymous token).
    pub kind: String,
    /// Whether the node is named (as opposed to an anonymous token).
    pub named: bool,
    pub start_byte: usize,
    pub end_byte: usize,
    pub start_point: Point,
    pub end_point: Point,
    pub children: Vec<SyntaxNode>,
}

/// One node as met in a preorder walk of a tree: its depth below the root
/// and what it holds, without its children.
pub struct SyntaxRecord {
    pub depth: usize,
    pub kind: String,
    pub named: bool,
    pub start_byte: usize,
    pub end_byte: usize,
    pub start_point: Point,
    pub end_point: Point,
}

/// What a record holds, as plain values.
pub type RecordView = (nat, Seq<char>, bool, usize, usize, Point, Point);

pub open spec fn record_view(r: SyntaxRecord) -> RecordView {
    (r.depth as nat, r.kind@, r.named, r.start_byte, r.end_byte, r.start_point, r.end_point)
}

/// The record of node `n` met at depth `d`.
pub open spec fn node_record(n: SyntaxNode, d: nat) -> RecordView {
    (d, n.kind@, n.named, n.start_byte, n.end_byte, n.start_point, n.end_point)
}

/// The preorder records of the tree rooted at `n`, which sits at depth `d`.
pub open spec fn flatten(n: SyntaxNode, d: nat) -> Seq<RecordView>
    decreases n,
{
    seq![node_record(n, d)] + flatten_list(n.children@, d + 1)
}

/// The preorder records of the trees `ns`, one after the other, all rooted
/// at depth `d`.
pub open spec fn flatten_list(ns: Seq<SyntaxNode>, d: nat) -> Seq<RecordView>
    decreases ns,
{
    if ns.len() == 0 {
        Seq::empty()
    } else {
        flatten_list(ns.drop_last(), d) + flatten(ns.last(), d)
    }
}

/// The views of a sequence of records.
pub open spec fn record_views(rs: Seq<SyntaxRecord>) -> Seq<RecordView> {
    rs.map_values(|r: SyntaxRecord| record_view(r))
}

/// Records that can come from a preorder walk: the first is the root at
/// depth 0, every later one lies below the root, and depth grows by at
/// most one from a record to the next.
pub open spec fn records_wf(rs: Seq<SyntaxRecord>) -> bool {
    &&& rs.len() > 0
    &&& rs[0].depth == 0
    &&& forall|k: int| 1 <= k < rs.len() ==> 1 <= #[trigger] rs[k].depth <= rs[k - 1].depth + 1
}

/// Depth grows by at most one from a record to the next, from `i` on.
pub open spec fn steps_ok_from(rs: Seq<SyntaxRecord>, i: int) -> bool {
    forall|k: int| i < k < rs.len() ==> #[trigger] rs[k].depth <= rs[k - 1].depth + 1
}

/// Record views that can come from a preorder walk (see `records_wf`).
pub open spec fn views_wf(vs: Seq<RecordView>) -> bool {
    &&& vs.len() > 0
    &&& vs[0].0 == 0
    &&& forall|k: int| 1 <= k < vs.len() ==> 1 <= #[trigger] vs[k].0 <= vs[k - 1].0 + 1
}

/// The record `v` covers a range of `bytes` that starts and ends on
/// character boundaries.
pub open spec fn record_fits(bytes: Seq<u8>, v: RecordView) -> bool {
    &&& v.3 <= v.4 <= bytes.len()
    &&& is_char_boundary(bytes, v.3 as int)
    &&& is_char_boundary(bytes, v.4 as int)
}

/// Every record of `vs` fits `bytes`.
pub open spec fn records_fit(bytes: Seq<u8>, vs: Seq<RecordView>) -> bool {
    forall|k: int| 0 <= k < vs.len() ==> record_fits(bytes, #[trigger] vs[k])
}

/// Records are well formed exactly when their views are.
pub proof fn lemma_records_wf_views(rs: Seq<SyntaxRecord>)
    ensures
        records_wf(rs) == views_wf(record_views(rs)),
{
    let vs = record_views(rs);
    assert forall|k: int| 0 <= k < rs.len() implies #[trigger] vs[k].0 == rs[k].depth as nat by {}
    if views_wf(vs) {
        assert forall|k: int| 1 <= k < rs.len() implies 1 <= #[trigger] rs[k].depth <= rs[k
            - 1].depth + 1 by {
            assert(vs[k].0 == rs[k].depth);
            assert(vs[k - 1].0 == rs[k - 1].depth);
        }
    }
    if records_wf(rs) {
        assert forall|k: int| 1 <= k < vs.len() implies 1 <= #[trigger] vs[k].0 <= vs[k - 1].0
            + 1 by {
            assert(vs[k].0 == rs[k].depth);
            assert(vs[k - 1].0 == rs[k - 1].depth);
        }
    }
}

/// The records of trees rooted at depth `d`: each lies at depth `d` or
/// deeper, the first (if any) at depth `d`, and depth grows by at most one
/// from a record to the next.
pub open spec fn list_shape(vs: Seq<RecordView>, d: nat) -> bool {
    &&& vs.len() > 0 ==> vs[0].0 == d
    &&& forall|k: int| 0 <= k < vs.len() ==> #[trigger] vs[k].0 >= d
    &&& forall|k: int| 1 <= k < vs.len() ==> #[trigger] vs[k].0 <= vs[k - 1].0 + 1
}

proof fn lemma_flatten_shape(n: SyntaxNode, d: nat)
    ensures
        list_shape(flatten(n, d), d),
        flatten(n, d).len() > 0,
    decreases n,
{
    lemma_flatten_list_shape(n.children@, d + 1);
    let rest = flatten_list(n.children@, d + 1);
    let vs = flatten(n, d);
    assert(vs == seq![node_record(n, d)] + rest);
    assert forall|k: int| 1 <= k < vs.len() implies #[trigger] vs[k].0 <= vs[k - 1].0 + 1 by {
        assert(vs[k] == rest[k - 1]);
        if k >= 2 {
            assert(vs[k - 1] == rest[k - 2]);
        }
    }
    assert forall|k: int| 0 <= k < vs.len() implies #[trigger] vs[k].0 >= d by {
        if k >= 1 {
            assert(vs[k] == rest[k - 1]);
        }
    }
}

proof fn lemma_flatten_list_shape(ns: Seq<SyntaxNode>, d: nat)
    ensures
        list_shape(flatten_list(ns, d), d),
    decreases ns,
{
    if ns.len() > 0 {
        lemma_flatten_list_shape(ns.drop_last(), d);
        lemma_flatten_shape(ns.last(), d);
        let a = flatten_list(ns.drop_last(), d);
        let b = flatten(ns.last(), d);
        let vs = a + b;
        assert forall|k: int| 1 <= k < vs.len() implies #[trigger] vs[k].0 <= vs[k - 1].0 + 1 by {
            if k < a.len() {
                assert(vs[k] == a[k]);
                assert(vs[k - 1] == a[k - 1]);
            } else if k == a.len() {
                assert(vs[k] == b[0]);
                assert(vs[k - 1] == a[k - 1]);
            } else {
                assert(vs[k] == b[k - a.len()]);
                assert(vs[k - 1] == b[k - 1 - a.len()]);
            }
        }
        assert forall|k: int| 0 <= k < vs.len() implies #[trigger] vs[k].0 >= d by {
            if k < a.len() {
                assert(vs[k] == a[k]);
            } else {
                assert(vs[k] == b[k - a.len()]);
            }
        }
        if a.len() > 0 {
            assert(vs[0] == a[0]);
        } else {
            assert(vs[0] == b[0]);
        }
    }
}

/// The preorder records of any tree are well formed, so `build_tree` reads
/// them back into a tree with exactly these records.
pub proof fn lemma_flatten_wf(t: SyntaxNode)
    ensures
        views_wf(flatten(t, 0)),
{
    lemma_flatten_shape(t, 0);
    let vs = flatten(t, 0);
    assert forall|k: int| 1 <= k < vs.len() implies 1 <= #[trigger] vs[k].0 <= vs[k - 1].0 + 1 by {
        let rest = flatten_list(t.children@, 1);
        lemma_flatten_list_shape(t.children@, 1);
        assert(vs[k] == rest[k - 1]);
    }
}

/// Two trees that hold the same values: the same record at the root and,
/// child by child, the same subtrees.
pub open spec fn same_tree(a: SyntaxNode, b: SyntaxNode) -> bool
    decreases a,
{
    node_record(a, 0) == node_record(b, 0) && same_list(a.children@, b.children@)
}

/// Two lists of trees that hold the same values, tree by tree.
pub open spec fn same_list(xs: Seq<SyntaxNode>, ys: Seq<SyntaxNode>) -> bool
    decreases xs,
{
    &&& xs.len() == ys.len()
    &&& xs.len() > 0 ==> same_list(xs.drop_last(), ys.drop_last()) && same_tree(xs.last(), ys.last())
}

/// `same_list`, position by position.
pub open spec fn same_trees(xs: Seq<SyntaxNode>, ys: Seq<SyntaxNode>) -> bool {
    &&& xs.len() == ys.len()
    &&& forall|i: int| 0 <= i < xs.len() ==> #[trigger] same_tree(xs[i], ys[i])
}

/// Two lists hold the same values exactly when they do position by
/// position.
pub proof fn lemma_same_list_positions(xs: Seq<SyntaxNode>, ys: Seq<SyntaxNode>)
    ensures
        same_list(xs, ys) == same_trees(xs, ys),
    decreases xs.len(),
{
    if xs.len() > 0 && xs.len() == ys.len() {
        lemma_same_list_positions(xs.drop_last(), ys.drop_last());
        if same_trees(xs, ys) {
            assert forall|i: int| 0 <= i < xs.len() - 1 implies #[trigger] same_tree(
                xs.drop_last()[i],
                ys.drop_last()[i],
            ) by {
                assert(same_tree(xs[i], ys[i]));
            }
            assert(same_tree(xs[xs.len() - 1], ys[ys.len() - 1]));
        }
        if same_list(xs, ys) {
            assert forall|i: int| 0 <= i < xs.len() implies #[trigger] same_tree(xs[i], ys[i]) by {
                if i < xs.len() - 1 {
                    assert(same_tree(xs.drop_last()[i], ys.drop_last()[i]));
                }
            }
        }
    }
}

/// What two trees that hold the same values share.
pub proof fn lemma_same_tree_parts(a: SyntaxNode, b: SyntaxNode)
    requires
        same_tree(a, b),
    ensures
        a.kind@ == b.kind@,
        a.named == b.named,
        a.start_byte == b.start_byte,
        a.end_byte == b.end_byte,
        a.start_point == b.start_point,
        a.end_point == b.end_point,
        same_trees(a.children@, b.children@),
{
    lemma_same_list_positions(a.children@, b.children@);
}

/// Lists that hold the same values still do without their first or last
/// tree.
pub proof fn lemma_same_trees_shrink(xs: Seq<SyntaxNode>, ys: Seq<SyntaxNode>)
    requires
        same_trees(xs, ys),
        xs.len() > 0,
    ensures
        same_tree(xs[0], ys[0]),
        same_tree(xs.last(), ys.last()),
        same_trees(xs.drop_first(), ys.drop_first()),
        same_trees(xs.drop_last(), ys.drop_last()),
{
    assert(same_tree(xs[0], ys[0]));
    assert(same_tree(xs[xs.len() - 1], ys[ys.len() - 1]));
    assert forall|i: int| 0 <= i < xs.len() - 1 implies #[trigger] same_tree(
        xs.drop_first()[i],
        ys.drop_first()[i],
    ) by {
        assert(same_tree(xs[i + 1], ys[i + 1]));
    }
    assert forall|i: int| 0 <= i < xs.len() - 1 implies #[trigger] same_tree(
        xs.drop_last()[i],
        ys.drop_last()[i],
    ) by {
        assert(same_tree(xs[i], ys[i]));
    }
}

/// The tree whose preorder records, from depth 0, are `vs` (any such tree,
/// when there is one: all of them hold the same values).
pub open spec fn tree_of(vs: Seq<RecordView>) -> SyntaxNode {
    choose|t: SyntaxNode| flatten(t, 0) == vs
}

proof fn lemma_flatten_head(n: SyntaxNode, d: nat)
    ensures
        flatten(n, d).len() > 0,
        flatten(n, d)[0] == node_record(n, d),
        forall|j: int| 1 <= j < flatten(n, d).len() ==> #[trigger] flatten(n, d)[j].0 > d,
{
    lemma_flatten_list_shape(n.children@, d + 1);
    let rest = flatten_list(n.children@, d + 1);
    assert forall|j: int| 1 <= j < flatten(n, d).len() implies #[trigger] flatten(n, d)[j].0 > d by {
        assert(flatten(n, d)[j] == rest[j - 1]);
    }
}

/// A run of records that ends with one tree rooted at depth `d` splits in
/// one way only: the last tree starts at the last record of depth `d`.
proof fn lemma_split_unique(a: Seq<RecordView>, b: Seq<RecordView>, a2: Seq<RecordView>, b2: Seq<RecordView>, d: nat)
    requires
        a + b == a2 + b2,
        b.len() > 0,
        b2.len() > 0,
        b[0].0 == d,
        b2[0].0 == d,
        forall|j: int| 1 <= j < b.len() ==> #[trigger] b[j].0 > d,
        forall|j: int| 1 <= j < b2.len() ==> #[trigger] b2[j].0 > d,
    ensures
        a == a2,
        b == b2,
{
    let l = a + b;
    let l2 = a2 + b2;
    let (la, lb, la2, lb2) = (a.len() as int, b.len() as int, a2.len() as int, b2.len() as int);
    assert(l.len() == la + lb);
    assert(l2.len() == la2 + lb2);
    assert(l == l2);
    assert(la + lb == la2 + lb2);
    if lb < lb2 {
        let off = la - la2;
        assert(l[la] == b[0]);
        assert(l2[la] == b2[off]);
        assert(l[la] == l2[la]);
    } else if lb > lb2 {
        let off = la2 - la;
        assert(l2[la2] == b2[0]);
        assert(l[la2] == b[off]);
        assert(l[la2] == l2[la2]);
    }
    assert(a =~= l.subrange(0, a.len() as int));
    assert(a2 =~= (a2 + b2).subrange(0, a2.len() as int));
    assert(b =~= l.subrange(a.len() as int, l.len() as int));
    assert(b2 =~= (a2 + b2).subrange(a2.len() as int, l.len() as int));
}

/// Trees with the same preorder records hold the same values.
pub proof fn lemma_flatten_injective(a: SyntaxNode, b: SyntaxNode, d: nat)
    requires
        flatten(a, d) == flatten(b, d),
    ensures
        same_tree(a, b),
    decreases a,
{
    lemma_flatten_head(a, d);
    lemma_flatten_head(b, d);
    let fa = flatten_list(a.children@, d + 1);
    let fb = flatten_list(b.children@, d + 1);
    assert(fa =~= flatten(a, d).drop_first());
    assert(fb =~= flatten(b, d).drop_first());
    lemma_flatten_list_injective(a.children@, b.children@, d + 1);
    assert(node_record(a, d) == node_record(b, d));
    assert(node_record(a, 0) == node_record(b, 0));
    lemma_same_list_positions(a.children@, b.children@);
}

/// Lists of trees with the same preorder records hold the same values.
pub proof fn lemma_flatten_list_injective(xs: Seq<SyntaxNode>, ys: Seq<SyntaxNode>, d: nat)
    requires
        flatten_list(xs, d) == flatten_list(ys, d),
    ensures
        same_trees(xs, ys),
    decreases xs,
{
    if xs.len() == 0 {
        if ys.len() > 0 {
            lemma_flatten_head(ys.last(), d);
        }
    } else if ys.len() == 0 {
        lemma_flatten_head(xs.last(), d);
    } else {
        lemma_flatten_head(xs.last(), d);
        lemma_flatten_head(ys.last(), d);
        lemma_split_unique(
            flatten_list(xs.drop_last(), d),
            flatten(xs.last(), d),
            flatten_list(ys.drop_last(), d),
            flatten(ys.last(), d),
            d,
        );
        lemma_flatten_list_injective(xs.drop_last(), ys.drop_last(), d);
        lemma_flatten_injective(xs.last(), ys.last(), d);
        assert forall|i: int| 0 <= i < xs.len() implies #[trigger] same_tree(xs[i], ys[i]) by {
            if i < xs.len() - 1 {
                assert(xs.drop_last()[i] == xs[i]);
                assert(ys.drop_last()[i] == ys[i]);
            }
        }
    }
}

/// A tree read back from its own preorder records holds its values.
pub proof fn lemma_tree_of_flatten(t: SyntaxNode)
    ensures
        flatten(tree_of(flatten(t, 0)), 0) == flatten(t, 0),
        same_tree(t, tree_of(flatten(t, 0))),
{
    lemma_flatten_injective(t, tree_of(flatten(t, 0)), 0);
}

fn copy_point(p: &Point) -> (res: Point)
    ensures
        res == *p,
{
    Point { row: p.row, column: p.column }
}

/// Builds the subtree rooted at record `i`: its children are the runs of
/// following records that lie deeper than it.
fn build_at(records: &Vec<SyntaxRecord>, i: usize) -> (res: (SyntaxNode, usize))
    requires
        i < records@.len(),
    ensures
        i < res.1 <= records@.len(),
        res.1 == records@.len() || records@[res.1 as int].depth <= records@[i as int].depth,
        steps_ok_from(records@, i as int) ==> flatten(res.0, records@[i as int].depth as nat)
            == record_views(records@).subrange(i as int, res.1 as int),
    decreases records@.len() - i,
{
    let r = &records[i];
    let d = r.depth;
    let ghost views = record_views(records@);
    let mut children: Vec<SyntaxNode> = Vec::new();
    let n = records.len();
    let mut k: usize = i + 1;
    while k < n && records[k].depth > d
        invariant
            i < k <= records@.len(),
            d == records@[i as int].depth,
            views == record_views(records@),
            n == records@.len(),
            steps_ok_from(records@, i as int) ==> (k == i + 1 || k == records@.len()
                || records@[k as int].depth <= d + 1),
            steps_ok_from(records@, i as int) ==> flatten_list(children@, (d + 1) as nat)
                == views.subrange(i + 1, k as int),
        decreases records@.len() - k,
    {
        let (child, next) = build_at(records, k);
        proof {
            if steps_ok_from(records@, i as int) {
                assert(steps_ok_from(records@, k as int));
                assert(records@[k as int].depth == d + 1);
                assert(children@.push(child).drop_last() =~= children@);
                assert(views.subrange(i + 1, next as int) =~= views.subrange(i + 1, k as int)
                    + views.subrange(k as int, next as int));
            }
        }
        children.push(child);
        k = next;
    }
    let node = SyntaxNode {
        kind: r.kind.clone(),
        named: r.named,
        start_byte: r.start_byte,
        end_byte: r.end_byte,
        start_point: copy_point(&r.start_point),
        end_point: copy_point(&r.end_point),
        children,
    };
    proof {
        if steps_ok_from(records@, i as int) {
            assert(views[i as int] == node_record(node, d as nat));
            assert(views.subrange(i as int, k as int) =~= seq![views[i as int]] + views.subrange(
                i + 1,
                k as int,
            ));
        }
    }
    (node, k)
}

/// Assembles the tree whose preorder records are `records`.
pub fn build_tree(records: &Vec<SyntaxRecord>) -> (res: SyntaxNode)
    requires
        records@.len() > 0,
    ensures
        records_wf(records@) ==> flatten(res, 0) == record_views(records@),
{
    let (root, end) = build_at(records, 0);
    proof {
        if records_wf(records@) {
            assert(steps_ok_from(records@, 0));
            if end < records@.len() {
                assert(records@[end as int].depth >= 1);
            }
            assert(record_views(records@).subrange(0, records@.len() as int) =~= record_views(
                records@,
            ));
        }
    }
    root
}

/// Whether `records` can come from a preorder walk (see `records_wf`).
pub fn records_are_wf(records: &Vec<SyntaxRecord>) -> (res: bool)
    ensures
        res == records_wf(records@),
{
    let n = records.len();
    if n == 0 || records[0].depth != 0 {
        return false;
    }
    let mut k: usize = 1;
    while k < n
        invariant
            n == records@.len(),
            1 <= k <= n,
            records@[0].depth == 0,
            forall|j: int| 1 <= j < k ==> 1 <= #[trigger] records@[j].depth <= records@[j - 1].depth
                + 1,
        decreases n - k,
    {
        let d = records[k].depth;
        let prev = records[k - 1].depth;
        if d < 1 || d - 1 > prev {
            return false;
        }
        k = k + 1;
    }
    true
}

/// Reads the tree that tree-sitter made of `t` as a syntax tree, with
/// exactly the records that tree-sitter reports; `None` when those records
/// cannot come from a preorder walk.
pub fn read_tree(t: &ts::ParsedText) -> (res: Option<SyntaxNode>)
    ensures
        res is Some <==> views_wf(ts::parsed_records(t@.0, t@.1)),
        res matches Some(n) ==> flatten(n, 0) == ts::parsed_records(t@.0, t@.1),
{
    let ghost parsed = ts::parsed_records(t@.0, t@.1);
    let count = ts::record_count(t);
    let mut records: Vec<SyntaxRecord> = Vec::new();
    let mut i: usize = 0;
    while i < count
        invariant
            count == parsed.len(),
            parsed == ts::parsed_records(t@.0, t@.1),
            i <= count,
            records@.len() == i,
            forall|k: int| 0 <= k < i ==> record_view(#[trigger] records@[k]) == parsed[k],
        decreases count - i,
    {
        records.push(ts::record_at(t, i));
        i = i + 1;
    }
    proof {
        assert(record_views(records@) =~= parsed);
        lemma_records_wf_views(records@);
    }
    if records_are_wf(&records) {
        Some(build_tree(&records))
    } else {
        None
    }
}

} // verus!
