//! Turning matches into edits, and applying edits to source text.
use vstd::prelude::*;
use vstd::utf8::*;
use crate::matcher::{match_fits, matches_fit, Match};
use crate::text::{decimal, decimal_string, lemma_boundary_in_prefix, lemma_encode_utf8_concat, push_str, string_of};

verus! {

/// Replace the bytes `start_byte..end_byte` of the source with
/// `replacement` (an insertion when the range is empty).
#[derive(Clone, Debug)]
pub struct Edit {
    pub start_byte: usize,
    pub end_byte: usize,
    pub replacement: String,
}

/// What to do at each match.
pub enum Operation {
    /// Replace the matched code with the given text.
    Replace(String),
    /// Remove the matched code.
    Delete,
    /// Insert the given text just before the matched code.
    InsertBefore(String),
    /// Insert the given text just after the matched code.
    InsertAfter(String),
}

/// The range and text of an edit, as plain values.
pub open spec fn edit_view(e: Edit) -> (usize, usize, Seq<char>) {
    (e.start_byte, e.end_byte, e.replacement@)
}

/// The edit that `op` makes at match `m`.
pub open spec fn edit_for(m: Match, op: Operation) -> (usize, usize, Seq<char>) {
    match op {
        Operation::Replace(r) => (m.start_byte, m.end_byte, r@),
        Operation::Delete => (m.start_byte, m.end_byte, Seq::empty()),
        Operation::InsertBefore(c) => (m.start_byte, m.start_byte, c@),
        Operation::InsertAfter(c) => (m.end_byte, m.end_byte, c@),
    }
}

/// A copy of `e`.
fn copy_edit(e: &Edit) -> (res: Edit)
    ensures
        res == *e,
{
    Edit { start_byte: e.start_byte, end_byte: e.end_byte, replacement: e.replacement.clone() }
}

/// Converts matched locations into the edits that `op` makes, one per
/// match, in the same order.
pub fn matches_to_edits(matches: &[Match], op: &Operation) -> (res: Vec<Edit>)
    ensures
        res@.len() == matches@.len(),
        forall|i: int|
            0 <= i < matches@.len() ==> edit_view(#[trigger] res@[i]) == edit_for(
                matches@[i],
                *op,
            ),
{
    let mut out: Vec<Edit> = Vec::new();
    let n = matches.len();
    let mut i: usize = 0;
    while i < n
        invariant
            n == matches@.len(),
            i <= n,
            out@.len() == i,
            forall|k: int|
                0 <= k < i ==> edit_view(#[trigger] out@[k]) == edit_for(matches@[k], *op),
        decreases n - i,
    {
        let m = &matches[i];
        let e = match op {
            Operation::Replace(r) => Edit {
                start_byte: m.start_byte,
                end_byte: m.end_byte,
                replacement: r.clone(),
            },
            Operation::Delete => Edit {
                start_byte: m.start_byte,
                end_byte: m.end_byte,
                replacement: String::new(),
            },
            Operation::InsertBefore(c) => Edit {
                start_byte: m.start_byte,
                end_byte: m.start_byte,
                replacement: c.clone(),
            },
            Operation::InsertAfter(c) => Edit {
                start_byte: m.end_byte,
                end_byte: m.end_byte,
                replacement: c.clone(),
            },
        };
        out.push(e);
        i = i + 1;
    }
    out
}

/// Inserts `e` into `sorted` (ordered by start byte, highest first) after
/// every edit whose start is at least `e`'s.
pub open spec fn insert_desc(sorted: Seq<Edit>, e: Edit) -> Seq<Edit>
    decreases sorted.len(),
{
    if sorted.len() == 0 {
        seq![e]
    } else if sorted.last().start_byte >= e.start_byte {
        sorted.push(e)
    } else {
        insert_desc(sorted.drop_last(), e).push(sorted.last())
    }
}

/// `edits` sorted by start byte, highest first; edits with equal starts
/// keep their relative order.
pub open spec fn sort_desc(edits: Seq<Edit>) -> Seq<Edit>
    decreases edits.len(),
{
    if edits.len() == 0 {
        Seq::empty()
    } else {
        insert_desc(sort_desc(edits.drop_last()), edits.last())
    }
}

/// Whether edit `i` of `sorted` reaches into the edit placed before it.
pub open spec fn overlaps_previous(sorted: Seq<Edit>, i: int) -> bool {
    sorted[i].end_byte > sorted[i - 1].start_byte
}

/// The first position `i >= from` (and `i >= 1`) at which an edit of
/// `sorted` overlaps the one before it.
pub open spec fn overlap_from(sorted: Seq<Edit>, from: int) -> Option<int>
    decreases sorted.len() - from,
{
    if from >= sorted.len() || from < 1 {
        None
    } else if overlaps_previous(sorted, from) {
        Some(from)
    } else {
        overlap_from(sorted, from + 1)
    }
}

/// The first position of `sorted` at which an edit overlaps the one before
/// it, if any.
pub open spec fn first_overlap(sorted: Seq<Edit>) -> Option<int> {
    overlap_from(sorted, 1)
}

/// The error message that reports an overlapping edit.
pub open spec fn overlap_message(e: Edit) -> Seq<char> {
    "Overlapping edits detected at byte "@ + decimal(e.start_byte as nat) + ".."@ + decimal(
        e.end_byte as nat,
    ) + ": matches overlap, refine your pattern"@
}

/// `bytes` with `start..end` replaced by `r`.
pub open spec fn splice(bytes: Seq<u8>, start: int, end: int, r: Seq<u8>) -> Seq<u8> {
    bytes.subrange(0, start) + r + bytes.subrange(end, bytes.len() as int)
}

/// `bytes` after applying the edits of `edits` one after the other, in
/// order.
pub open spec fn apply_in_order(bytes: Seq<u8>, edits: Seq<Edit>) -> Seq<u8>
    decreases edits.len(),
{
    if edits.len() == 0 {
        bytes
    } else {
        let e = edits.last();
        splice(
            apply_in_order(bytes, edits.drop_last()),
            e.start_byte as int,
            e.end_byte as int,
            encode_utf8(e.replacement@),
        )
    }
}

/// Edit `e` covers a well-formed range of `bytes` whose ends are character
/// boundaries.
pub open spec fn edit_fits(bytes: Seq<u8>, e: Edit) -> bool {
    &&& e.start_byte <= e.end_byte <= bytes.len()
    &&& is_char_boundary(bytes, e.start_byte as int)
    &&& is_char_boundary(bytes, e.end_byte as int)
}

/// Every edit of `edits` fits `bytes`.
pub open spec fn all_fit(bytes: Seq<u8>, edits: Seq<Edit>) -> bool {
    forall|k: int| 0 <= k < edits.len() ==> edit_fits(bytes, #[trigger] edits[k])
}

proof fn lemma_insert_desc(sorted: Seq<Edit>, e: Edit)
    ensures
        insert_desc(sorted, e).len() == sorted.len() + 1,
        forall|x: Edit| #[trigger]
            insert_desc(sorted, e).contains(x) ==> x == e || sorted.contains(x),
    decreases sorted.len(),
{
    if sorted.len() > 0 && sorted.last().start_byte < e.start_byte {
        lemma_insert_desc(sorted.drop_last(), e);
        let r = insert_desc(sorted, e);
        assert forall|x: Edit| #[trigger] r.contains(x) implies x == e || sorted.contains(x) by {
            let j = choose|j: int| 0 <= j < r.len() && r[j] == x;
            if j == r.len() - 1 {
                assert(sorted[sorted.len() - 1] == x);
            } else {
                assert(insert_desc(sorted.drop_last(), e)[j] == x);
                assert(insert_desc(sorted.drop_last(), e).contains(x));
                if x != e {
                    let k = choose|k: int|
                        0 <= k < sorted.drop_last().len() && sorted.drop_last()[k] == x;
                    assert(sorted[k] == x);
                }
            }
        }
    } else if sorted.len() > 0 {
        let r = insert_desc(sorted, e);
        assert forall|x: Edit| #[trigger] r.contains(x) implies x == e || sorted.contains(x) by {
            let j = choose|j: int| 0 <= j < r.len() && r[j] == x;
            if j < sorted.len() {
                assert(sorted[j] == x);
            }
        }
    } else {
        let r = insert_desc(sorted, e);
        assert forall|x: Edit| #[trigger] r.contains(x) implies x == e || sorted.contains(x) by {
            let j = choose|j: int| 0 <= j < r.len() && r[j] == x;
        }
    }
}

/// Sorting keeps the length and brings in no edit that was not there.
pub proof fn lemma_sort_desc_members(edits: Seq<Edit>)
    ensures
        sort_desc(edits).len() == edits.len(),
        forall|x: Edit| #[trigger] sort_desc(edits).contains(x) ==> edits.contains(x),
    decreases edits.len(),
{
    if edits.len() > 0 {
        lemma_sort_desc_members(edits.drop_last());
        lemma_insert_desc(sort_desc(edits.drop_last()), edits.last());
        assert forall|x: Edit| #[trigger] sort_desc(edits).contains(x) implies edits.contains(
            x,
        ) by {
            if x == edits.last() {
                assert(edits[edits.len() - 1] == x);
            } else {
                assert(sort_desc(edits.drop_last()).contains(x));
                assert(edits.drop_last().contains(x));
                let k = choose|k: int|
                    0 <= k < edits.drop_last().len() && edits.drop_last()[k] == x;
                assert(edits[k] == x);
            }
        }
    }
}

/// Inserts `e` into `sorted` by scanning from the back, as `insert_desc`
/// describes.
fn insert_sorted(sorted: &mut Vec<Edit>, e: Edit)
    ensures
        final(sorted)@ == insert_desc(old(sorted)@, e),
{
    let ghost orig = sorted@;
    let mut j: usize = sorted.len();
    assert(orig.subrange(0, j as int) =~= orig);
    assert(insert_desc(orig, e) + orig.subrange(j as int, orig.len() as int) =~= insert_desc(
        orig,
        e,
    ));
    while j > 0 && sorted[j - 1].start_byte < e.start_byte
        invariant
            j <= orig.len(),
            sorted@ == orig,
            insert_desc(orig, e) == insert_desc(orig.subrange(0, j as int), e) + orig.subrange(
                j as int,
                orig.len() as int,
            ),
        decreases j,
    {
        let ghost pre = orig.subrange(0, j as int);
        assert(pre.drop_last() =~= orig.subrange(0, j - 1));
        assert(insert_desc(pre, e) == insert_desc(pre.drop_last(), e).push(pre.last()));
        assert(orig.subrange(j - 1, orig.len() as int) =~= seq![pre.last()] + orig.subrange(
            j as int,
            orig.len() as int,
        ));
        assert(insert_desc(pre.drop_last(), e).push(pre.last()) + orig.subrange(
            j as int,
            orig.len() as int,
        ) =~= insert_desc(pre.drop_last(), e) + orig.subrange(j - 1, orig.len() as int));
        j = j - 1;
    }
    let ghost pre = orig.subrange(0, j as int);
    assert(insert_desc(pre, e) =~= pre.push(e));
    sorted.insert(j, e);
    assert(sorted@ =~= pre.push(e) + orig.subrange(j as int, orig.len() as int));
}

/// Copies of `edits`, sorted by start byte, highest first, keeping the
/// relative order of edits with equal starts.
pub fn sorted_by_start_desc(edits: &[Edit]) -> (res: Vec<Edit>)
    ensures
        res@ == sort_desc(edits@),
{
    let mut out: Vec<Edit> = Vec::new();
    let n = edits.len();
    let mut i: usize = 0;
    while i < n
        invariant
            n == edits@.len(),
            i <= n,
            out@ == sort_desc(edits@.subrange(0, i as int)),
        decreases n - i,
    {
        let e = copy_edit(&edits[i]);
        let ghost pre = edits@.subrange(0, i + 1);
        assert(pre.drop_last() =~= edits@.subrange(0, i as int));
        insert_sorted(&mut out, e);
        i = i + 1;
    }
    assert(edits@.subrange(0, n as int) =~= edits@);
    out
}

/// The first position at which an edit of `sorted` overlaps the one before
/// it.
fn find_overlap(sorted: &Vec<Edit>) -> (res: Option<usize>)
    ensures
        match res {
            Some(i) => 1 <= i < sorted@.len() && first_overlap(sorted@) == Some(i as int),
            None => first_overlap(sorted@) is None,
        },
{
    let n = sorted.len();
    let mut i: usize = 1;
    while i < n
        invariant
            n == sorted@.len(),
            1 <= i,
            first_overlap(sorted@) == overlap_from(sorted@, i as int),
        decreases n - i,
    {
        if sorted[i].end_byte > sorted[i - 1].start_byte {
            return Some(i);
        }
        i = i + 1;
    }
    None
}

/// The message that reports edit `e` as overlapping.
fn overlap_error(e: &Edit) -> (res: String)
    ensures
        res@ == overlap_message(*e),
{
    let mut msg = string_of("Overlapping edits detected at byte ");
    let a = decimal_string(e.start_byte);
    push_str(&mut msg, a.as_str());
    push_str(&mut msg, "..");
    let b = decimal_string(e.end_byte);
    push_str(&mut msg, b.as_str());
    push_str(&mut msg, ": matches overlap, refine your pattern");
    msg
}

/// Replaces `start..end` of `cur` with `r`.
fn replace_range(cur: &String, start: usize, end: usize, r: &String) -> (res: String)
    requires
        start <= end <= encode_utf8(cur@).len(),
        is_char_boundary(encode_utf8(cur@), start as int),
        is_char_boundary(encode_utf8(cur@), end as int),
    ensures
        encode_utf8(res@) == splice(encode_utf8(cur@), start as int, end as int, encode_utf8(r@)),
{
    let s = cur.as_str();
    let (pre, _) = s.split_at(start);
    let (_, post) = s.split_at(end);
    let mut out = string_of(pre);
    push_str(&mut out, r.as_str());
    push_str(&mut out, post);
    proof {
        lemma_encode_utf8_concat(pre@, r@);
        lemma_encode_utf8_concat(pre@ + r@, post@);
    }
    out
}

/// Edits made at matches that lie in the text on character boundaries lie
/// there too: `apply_edits` can take the edits that `matches_to_edits`
/// makes of what a search found, and refuses them only if they overlap.
pub proof fn lemma_edits_at_matches_fit(
    bytes: Seq<u8>,
    ms: Seq<Match>,
    op: Operation,
    es: Seq<Edit>,
)
    requires
        matches_fit(bytes, ms),
        es.len() == ms.len(),
        forall|i: int| 0 <= i < ms.len() ==> edit_view(#[trigger] es[i]) == edit_for(ms[i], op),
    ensures
        all_fit(bytes, es),
{
    assert forall|k: int| 0 <= k < es.len() implies edit_fits(bytes, #[trigger] es[k]) by {
        assert(edit_view(es[k]) == edit_for(ms[k], op));
        assert(match_fits(bytes, ms[k]));
    }
}

/// Whether `apply_edits` refuses `edits` as overlapping: sorted by start
/// byte, highest first, some edit reaches into the one placed before it.
pub fn has_overlap(edits: &[Edit]) -> (res: bool)
    ensures
        res == first_overlap(sort_desc(edits@)) is Some,
{
    let sorted = sorted_by_start_desc(edits);
    find_overlap(&sorted).is_some()
}

/// Whether every edit lies within `source` and starts and ends on a
/// character boundary, as `apply_edits` needs of edits it applies.
pub fn all_edits_fit(source: &str, edits: &[Edit]) -> (res: bool)
    ensures
        res == all_fit(encode_utf8(source@), edits@),
{
    let len = source.as_bytes().len();
    let n = edits.len();
    let mut i: usize = 0;
    while i < n
        invariant
            n == edits@.len(),
            len == encode_utf8(source@).len(),
            i <= n,
            forall|k: int| 0 <= k < i ==> edit_fits(encode_utf8(source@), #[trigger] edits@[k]),
        decreases n - i,
    {
        let e = &edits[i];
        if !(e.start_byte <= e.end_byte && e.end_byte <= len && source.is_char_boundary(
            e.start_byte,
        ) && source.is_char_boundary(e.end_byte)) {
            assert(!edit_fits(encode_utf8(source@), edits@[i as int]));
            return false;
        }
        i = i + 1;
    }
    true
}

/// Applies edits to source text. The edits are first sorted by start byte,
/// highest first (equal starts keep their order), and then applied one after
/// the other from the end of the text towards its start, so that earlier
/// byte offsets stay valid. Edits that overlap in that order are refused.
pub fn apply_edits(source: &str, edits: &[Edit]) -> (res: Result<String, String>)
    requires
        first_overlap(sort_desc(edits@)) is None ==> all_fit(encode_utf8(source@), edits@),
    ensures
        res is Err <==> first_overlap(sort_desc(edits@)) is Some,
        res matches Err(msg) ==> msg@ == overlap_message(
            sort_desc(edits@)[first_overlap(sort_desc(edits@))->0],
        ),
        res matches Ok(out) ==> out@ == decode_utf8(
            apply_in_order(encode_utf8(source@), sort_desc(edits@)),
        ),
        res matches Ok(out) ==> encode_utf8(out@) == replace_at_source_offsets(
            encode_utf8(source@),
            sort_desc(edits@),
        ),
{
    let sorted = sorted_by_start_desc(edits);
    if let Some(i) = find_overlap(&sorted) {
        return Err(overlap_error(&sorted[i]));
    }
    let ghost b = encode_utf8(source@);
    let ghost es = sorted@;
    proof {
        lemma_sort_desc_members(edits@);
        assert forall|k: int| 0 <= k < es.len() implies edit_fits(b, #[trigger] es[k]) by {
            assert(es.contains(es[k]));
            let j = choose|j: int| 0 <= j < edits@.len() && edits@[j] == es[k];
        }
        encode_utf8_valid_utf8(source@);
        is_char_boundary_start_end_of_seq(b);
        assert forall|k: int| 1 <= k < es.len() implies !#[trigger] overlaps_previous(es, k) by {
            lemma_no_overlap_from(es, 1, k);
        }
    }
    let mut cur = string_of(source);
    let n = sorted.len();
    let mut i: usize = 0;
    // The text before `bound` is still the source text; what follows it is
    // valid UTF-8.
    let ghost mut bound: int = b.len() as int;
    let ghost mut tail: Seq<u8> = Seq::empty();
    assert(b.subrange(0, bound) + tail =~= b);
    assert(valid_utf8(tail));
    while i < n
        invariant
            n == es.len(),
            es == sorted@,
            i <= n,
            valid_utf8(b),
            forall|k: int| 0 <= k < es.len() ==> edit_fits(b, #[trigger] es[k]),
            forall|k: int| 1 <= k < es.len() ==> !#[trigger] overlaps_previous(es, k),
            encode_utf8(cur@) == apply_in_order(b, es.subrange(0, i as int)),
            encode_utf8(cur@) == b.subrange(0, bound) + tail,
            valid_utf8(tail),
            0 <= bound <= b.len(),
            is_char_boundary(b, bound),
            i == 0 ==> bound == b.len(),
            i > 0 ==> bound == es[i - 1].start_byte,
        decreases n - i,
    {
        let e = &sorted[i];
        let ghost c = encode_utf8(cur@);
        let ghost pre = b.subrange(0, bound);
        let ghost rbytes = encode_utf8(e.replacement@);
        proof {
            if i > 0 {
                assert(!overlaps_previous(es, i as int));
            }
            assert(e.end_byte <= bound);
            assert(b.subrange(0, bound) + b.subrange(bound, b.len() as int) =~= b);
            valid_utf8_split(b, bound);
            lemma_boundary_in_prefix(pre, b.subrange(bound, b.len() as int), e.start_byte as int);
            lemma_boundary_in_prefix(pre, b.subrange(bound, b.len() as int), e.end_byte as int);
            lemma_boundary_in_prefix(pre, tail, e.start_byte as int);
            lemma_boundary_in_prefix(pre, tail, e.end_byte as int);
        }
        let next = replace_range(&cur, e.start_byte, e.end_byte, &e.replacement);
        proof {
            let s = e.start_byte as int;
            let t = e.end_byte as int;
            assert(es.subrange(0, i + 1).drop_last() =~= es.subrange(0, i as int));
            assert(es.subrange(0, i + 1).last() == es[i as int]);
            // The segment between the edit and the old bound is unchanged
            // source text, and is valid on its own.
            valid_utf8_split(pre, t);
            let mid = pre.subrange(t, bound);
            assert(mid =~= b.subrange(t, bound));
            encode_utf8_valid_utf8(e.replacement@);
            valid_utf8_concat(mid, tail);
            valid_utf8_concat(rbytes, mid + tail);
            assert(c.subrange(0, s) =~= b.subrange(0, s));
            assert(c.subrange(t, c.len() as int) =~= mid + tail);
            assert(encode_utf8(next@) =~= b.subrange(0, s) + (rbytes + (mid + tail)));
            assert(is_char_boundary(b, s)) by {
                assert(edit_fits(b, es[i as int]));
            }
            tail = rbytes + (mid + tail);
            bound = s;
        }
        cur = next;
        i = i + 1;
    }
    proof {
        assert(es.subrange(0, n as int) =~= es);
        encode_utf8_decode_utf8(cur@);
        assert(chained(es, b.len() as int)) by {
            assert forall|i: int| 0 <= i < es.len() implies #[trigger] es[i].start_byte
                <= es[i].end_byte by {
                assert(edit_fits(b, es[i]));
            }
            if es.len() > 0 {
                assert(edit_fits(b, es[0]));
            }
            assert forall|i: int| 1 <= i < es.len() implies #[trigger] es[i].end_byte
                <= es[i - 1].start_byte by {
                assert(!overlaps_previous(es, i));
            }
        }
        lemma_edits_keep_offsets(b, es);
    }
    Ok(cur)
}

/// Edits in the order in which `apply_edits` applies them, none reaching
/// into another: each covers a well-formed range, the first ends by
/// `bound`, and each ends where or before the one placed before it starts.
pub open spec fn chained(es: Seq<Edit>, bound: int) -> bool {
    &&& forall|i: int| 0 <= i < es.len() ==> #[trigger] es[i].start_byte <= es[i].end_byte
    &&& es.len() > 0 ==> es[0].end_byte <= bound
    &&& forall|i: int| 1 <= i < es.len() ==> #[trigger] es[i].end_byte <= es[i - 1].start_byte
}

/// `bytes` with the range of each edit of `es` replaced, each range taken
/// at the offsets the edit gives, in the source text.
pub open spec fn replace_at_source_offsets(bytes: Seq<u8>, es: Seq<Edit>) -> Seq<u8>
    decreases es.len(),
{
    if es.len() == 0 {
        bytes
    } else {
        let e = es[0];
        replace_at_source_offsets(bytes.subrange(0, e.start_byte as int), es.drop_first())
            + encode_utf8(e.replacement@) + bytes.subrange(e.end_byte as int, bytes.len() as int)
    }
}

/// Applying edits one after the other is applying the first, then the
/// rest.
pub proof fn lemma_apply_first(bytes: Seq<u8>, es: Seq<Edit>)
    requires
        es.len() > 0,
    ensures
        apply_in_order(bytes, es) == apply_in_order(
            splice(
                bytes,
                es[0].start_byte as int,
                es[0].end_byte as int,
                encode_utf8(es[0].replacement@),
            ),
            es.drop_first(),
        ),
    decreases es.len(),
{
    let e = es[0];
    let first = splice(bytes, e.start_byte as int, e.end_byte as int, encode_utf8(e.replacement@));
    if es.len() == 1 {
        assert(es.drop_last().len() == 0);
        assert(es.drop_first().len() == 0);
        assert(es.last() == e);
        assert(apply_in_order(bytes, es.drop_last()) == bytes);
        assert(apply_in_order(first, es.drop_first()) == first);
    } else {
        lemma_apply_first(bytes, es.drop_last());
        assert(es.drop_last()[0] == e);
        assert(es.drop_last().drop_first() =~= es.drop_first().drop_last());
        assert(es.drop_first().last() == es.last());
        let l = es.last();
        assert(apply_in_order(first, es.drop_first()) == splice(
            apply_in_order(first, es.drop_first().drop_last()),
            l.start_byte as int,
            l.end_byte as int,
            encode_utf8(l.replacement@),
        ));
    }
}

/// Edits that stay inside a prefix leave the rest of the text alone.
pub proof fn lemma_apply_in_prefix(p: Seq<u8>, q: Seq<u8>, es: Seq<Edit>)
    requires
        chained(es, p.len() as int),
    ensures
        apply_in_order(p + q, es) == apply_in_order(p, es) + q,
    decreases es.len(),
{
    if es.len() > 0 {
        let e = es[0];
        let r = encode_utf8(e.replacement@);
        let s = e.start_byte as int;
        let t = e.end_byte as int;
        lemma_apply_first(p + q, es);
        lemma_apply_first(p, es);
        assert(splice(p + q, s, t, r) =~= splice(p, s, t, r) + q);
        let rest = es.drop_first();
        assert(chained(rest, splice(p, s, t, r).len() as int)) by {
            if rest.len() > 0 {
                assert(rest[0] == es[1]);
            }
            assert forall|i: int| 1 <= i < rest.len() implies #[trigger] rest[i].end_byte
                <= rest[i - 1].start_byte by {
                assert(rest[i] == es[i + 1]);
                assert(rest[i - 1] == es[i]);
            }
            assert forall|i: int| 0 <= i < rest.len() implies #[trigger] rest[i].start_byte
                <= rest[i].end_byte by {
                assert(rest[i] == es[i + 1]);
            }
        }
        lemma_apply_in_prefix(splice(p, s, t, r), q, rest);
    }
}

/// Applying chained edits one after the other, from the end of the text
/// towards its start, replaces each edit's range at the offsets the edit
/// gives: no edit sees the effect of another.
pub proof fn lemma_edits_keep_offsets(bytes: Seq<u8>, es: Seq<Edit>)
    requires
        chained(es, bytes.len() as int),
    ensures
        apply_in_order(bytes, es) == replace_at_source_offsets(bytes, es),
    decreases es.len(),
{
    if es.len() > 0 {
        let e = es[0];
        let r = encode_utf8(e.replacement@);
        let s = e.start_byte as int;
        let t = e.end_byte as int;
        let rest = es.drop_first();
        lemma_apply_first(bytes, es);
        let pre = bytes.subrange(0, s);
        let post = r + bytes.subrange(t, bytes.len() as int);
        assert(splice(bytes, s, t, r) =~= pre + post);
        assert(chained(rest, s)) by {
            if rest.len() > 0 {
                assert(rest[0] == es[1]);
            }
            assert forall|i: int| 1 <= i < rest.len() implies #[trigger] rest[i].end_byte
                <= rest[i - 1].start_byte by {
                assert(rest[i] == es[i + 1]);
                assert(rest[i - 1] == es[i]);
            }
            assert forall|i: int| 0 <= i < rest.len() implies #[trigger] rest[i].start_byte
                <= rest[i].end_byte by {
                assert(rest[i] == es[i + 1]);
            }
        }
        lemma_apply_in_prefix(pre, post, rest);
        lemma_edits_keep_offsets(pre, rest);
        assert(replace_at_source_offsets(pre, rest) + post =~= replace_at_source_offsets(
            pre,
            rest,
        ) + r + bytes.subrange(t, bytes.len() as int));
    }
}

/// The edits of `s` are ordered by start byte, highest first.
pub open spec fn starts_descending(s: Seq<Edit>) -> bool {
    forall|i: int, j: int| 0 <= i < j < s.len() ==> #[trigger] s[i].start_byte >= #[trigger] s[j].start_byte
}

/// No two edits of `s` start at the same byte.
pub open spec fn distinct_starts(s: Seq<Edit>) -> bool {
    forall|i: int, j: int|
        0 <= i < s.len() && 0 <= j < s.len() && i != j ==> #[trigger] s[i].start_byte
            != #[trigger] s[j].start_byte
}

proof fn lemma_insert_desc_descending(t: Seq<Edit>, e: Edit)
    requires
        starts_descending(t),
    ensures
        starts_descending(insert_desc(t, e)),
    decreases t.len(),
{
    if t.len() > 0 {
        if t.last().start_byte >= e.start_byte {
            let r = t.push(e);
            assert forall|i: int, j: int| 0 <= i < j < r.len() implies #[trigger] r[i].start_byte
                >= #[trigger] r[j].start_byte by {
                if j == r.len() - 1 && i < t.len() - 1 {
                    assert(t[i].start_byte >= t[t.len() - 1].start_byte);
                }
            }
        } else {
            let t2 = t.drop_last();
            lemma_insert_desc_descending(t2, e);
            lemma_insert_desc(t2, e);
            let inner = insert_desc(t2, e);
            let r = inner.push(t.last());
            assert forall|i: int, j: int| 0 <= i < j < r.len() implies #[trigger] r[i].start_byte
                >= #[trigger] r[j].start_byte by {
                if j == r.len() - 1 {
                    let x = inner[i];
                    assert(inner.contains(x));
                    if x != e {
                        let k = choose|k: int| 0 <= k < t2.len() && t2[k] == x;
                        assert(t[k] == x);
                        assert(t[k].start_byte >= t[t.len() - 1].start_byte);
                    }
                }
            }
        }
    }
}

proof fn lemma_insert_desc_distinct(t: Seq<Edit>, e: Edit)
    requires
        distinct_starts(t),
        forall|k: int| 0 <= k < t.len() ==> #[trigger] t[k].start_byte != e.start_byte,
    ensures
        distinct_starts(insert_desc(t, e)),
    decreases t.len(),
{
    if t.len() == 0 {
    } else if t.last().start_byte >= e.start_byte {
        let r = t.push(e);
        assert forall|i: int, j: int|
            0 <= i < r.len() && 0 <= j < r.len() && i != j implies #[trigger] r[i].start_byte
                != #[trigger] r[j].start_byte by {
            if i < t.len() && j < t.len() {
                assert(t[i].start_byte != t[j].start_byte);
            } else if i < t.len() {
                assert(t[i].start_byte != e.start_byte);
            } else {
                assert(t[j].start_byte != e.start_byte);
            }
        }
    } else {
        let t2 = t.drop_last();
        assert forall|i: int, j: int|
            0 <= i < t2.len() && 0 <= j < t2.len() && i != j implies #[trigger] t2[i].start_byte
                != #[trigger] t2[j].start_byte by {
            assert(t[i].start_byte != t[j].start_byte);
        }
        assert forall|k: int| 0 <= k < t2.len() implies #[trigger] t2[k].start_byte
            != e.start_byte by {
            assert(t[k].start_byte != e.start_byte);
        }
        lemma_insert_desc_distinct(t2, e);
        lemma_insert_desc(t2, e);
        let inner = insert_desc(t2, e);
        let l = t.last();
        let r = inner.push(l);
        assert forall|i: int, j: int|
            0 <= i < r.len() && 0 <= j < r.len() && i != j implies #[trigger] r[i].start_byte
                != #[trigger] r[j].start_byte by {
            if i < inner.len() && j < inner.len() {
                assert(inner[i].start_byte != inner[j].start_byte);
            } else {
                let x = if i < inner.len() {
                    inner[i]
                } else {
                    inner[j]
                };
                assert(inner.contains(x));
                if x != e {
                    let k = choose|k: int| 0 <= k < t2.len() && t2[k] == x;
                    assert(t[k] == x);
                    assert(t[k].start_byte != t[t.len() - 1].start_byte);
                }
            }
        }
    }
}

/// The sorted edits are ordered by start byte, highest first, and have the
/// same edits, as a multiset, as the input; edits with pairwise distinct
/// starts stay distinct.
pub proof fn lemma_sort_desc_properties(s: Seq<Edit>)
    ensures
        starts_descending(sort_desc(s)),
        sort_desc(s).to_multiset() == s.to_multiset(),
        distinct_starts(s) ==> distinct_starts(sort_desc(s)),
    decreases s.len(),
{
    broadcast use vstd::seq_lib::group_to_multiset_ensures;

    if s.len() > 0 {
        let s2 = s.drop_last();
        lemma_sort_desc_properties(s2);
        lemma_insert_desc_descending(sort_desc(s2), s.last());
        lemma_insert_desc_multiset(sort_desc(s2), s.last());
        assert(s2.push(s.last()) =~= s);
        if distinct_starts(s) {
            assert forall|i: int, j: int|
                0 <= i < s2.len() && 0 <= j < s2.len() && i != j implies #[trigger] s2[i].start_byte
                    != #[trigger] s2[j].start_byte by {
                assert(s[i].start_byte != s[j].start_byte);
            }
            lemma_sort_desc_members(s2);
            let t = sort_desc(s2);
            assert forall|k: int| 0 <= k < t.len() implies #[trigger] t[k].start_byte
                != s.last().start_byte by {
                assert(t.contains(t[k]));
                let m = choose|m: int| 0 <= m < s2.len() && s2[m] == t[k];
                assert(s[m].start_byte != s[s.len() - 1].start_byte);
            }
            lemma_insert_desc_distinct(t, s.last());
        }
    } else {
        assert(sort_desc(s) =~= s);
    }
}

proof fn lemma_insert_desc_multiset(t: Seq<Edit>, e: Edit)
    ensures
        insert_desc(t, e).to_multiset() == t.to_multiset().insert(e),
    decreases t.len(),
{
    broadcast use vstd::seq_lib::group_to_multiset_ensures;

    if t.len() > 0 && t.last().start_byte < e.start_byte {
        let t2 = t.drop_last();
        lemma_insert_desc_multiset(t2, e);
        assert(t2.push(t.last()) =~= t);
        assert(t2.to_multiset().insert(e).insert(t.last()) =~= t2.to_multiset().insert(
            t.last(),
        ).insert(e));
    } else if t.len() == 0 {
        assert(seq![e] =~= Seq::<Edit>::empty().push(e));
    }
}

/// Two orderings by start byte, highest first, of the same edits with
/// distinct starts are the same sequence.
proof fn lemma_descending_unique(a: Seq<Edit>, b: Seq<Edit>)
    requires
        starts_descending(a),
        starts_descending(b),
        distinct_starts(a),
        a.to_multiset() == b.to_multiset(),
    ensures
        a == b,
    decreases a.len(),
{
    broadcast use vstd::seq_lib::group_to_multiset_ensures;

    if a.len() == 0 {
        assert(a.to_multiset().len() == b.to_multiset().len());
        assert(b.len() == 0);
        assert(a =~= b);
    } else {
        a.to_multiset_ensures();
        b.to_multiset_ensures();
        assert(b.len() == a.len());
        assert(a.contains(a[0]));
        assert(b.to_multiset().count(a[0]) > 0);
        let k = choose|k: int| 0 <= k < b.len() && b[k] == a[0];
        assert(b.contains(b[0]));
        assert(a.to_multiset().count(b[0]) > 0);
        let m = choose|m: int| 0 <= m < a.len() && a[m] == b[0];
        if m != 0 {
            assert(a[0].start_byte >= a[m].start_byte);
            if k != 0 {
                assert(b[0].start_byte >= b[k].start_byte);
            }
            assert(a[0].start_byte != a[m].start_byte);
        }
        assert(a[0] == b[0]);
        let a2 = a.drop_first();
        let b2 = b.drop_first();
        assert(a.remove(0) =~= a2);
        assert(b.remove(0) =~= b2);
        assert(a2.to_multiset() == b2.to_multiset());
        assert forall|i: int, j: int|
            0 <= i < a2.len() && 0 <= j < a2.len() && i != j implies #[trigger] a2[i].start_byte
                != #[trigger] a2[j].start_byte by {
            assert(a[i + 1].start_byte != a[j + 1].start_byte);
        }
        assert forall|i: int, j: int| 0 <= i < j < a2.len() implies #[trigger] a2[i].start_byte
            >= #[trigger] a2[j].start_byte by {
            assert(a[i + 1].start_byte >= a[j + 1].start_byte);
        }
        assert forall|i: int, j: int| 0 <= i < j < b2.len() implies #[trigger] b2[i].start_byte
            >= #[trigger] b2[j].start_byte by {
            assert(b[i + 1].start_byte >= b[j + 1].start_byte);
        }
        lemma_descending_unique(a2, b2);
        assert forall|i: int| 0 <= i < a.len() implies a[i] == b[i] by {
            if i > 0 {
                assert(a[i] == a2[i - 1]);
                assert(b[i] == b2[i - 1]);
            }
        }
        assert(a =~= b);
    }
}

/// The order in which edits with pairwise distinct starts are given does
/// not matter: any two orderings of the same edits are sorted alike, and so
/// `apply_edits` treats them alike.
pub proof fn lemma_edit_order_irrelevant(a: Seq<Edit>, b: Seq<Edit>)
    requires
        a.to_multiset() == b.to_multiset(),
        distinct_starts(a),
    ensures
        sort_desc(a) == sort_desc(b),
{
    lemma_sort_desc_properties(a);
    lemma_sort_desc_properties(b);
    lemma_descending_unique(sort_desc(a), sort_desc(b));
}

/// When no overlap is found from `from` on, no position from `from` on
/// overlaps.
proof fn lemma_no_overlap_from(sorted: Seq<Edit>, from: int, k: int)
    requires
        1 <= from <= k < sorted.len(),
        overlap_from(sorted, from) is None,
    ensures
        !overlaps_previous(sorted, k),
    decreases k - from,
{
    if from < k {
        lemma_no_overlap_from(sorted, from + 1, k);
    }
}

} // verus!
