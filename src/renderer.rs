//! The renderer: lays a document out as rows and keeps an offset map between
//! source byte offsets and rows, for scroll synchronisation in both directions.
use vstd::prelude::*;
use crate::elements::{Document, Element, ElementKind};

verus! {

/// A block element placed in the rendered output: rows `row..row + rows`
/// show the source text `start..end` of element `element`.
#[derive(Debug, Clone, Copy, PartialEq, Eq, Structural)]
pub struct RenderNode {
    pub element: usize,
    pub start: usize,
    pub end: usize,
    pub row: usize,
    pub rows: usize,
}

/// Elements that occupy rows of their own: block-level leaves, and the items
/// and rows of lists and tables.
pub open spec fn is_row_block(k: ElementKind) -> bool {
    match k {
        ElementKind::Heading { .. } => true,
        ElementKind::Paragraph => true,
        ElementKind::CodeBlock { .. } => true,
        ElementKind::ListItem { .. } => true,
        ElementKind::ThematicBreak => true,
        ElementKind::TableRow { .. } => true,
        _ => false,
    }
}

/// Number of line feeds in `s`.
pub open spec fn newlines(s: Seq<u8>) -> nat
    decreases s.len(),
{
    if s.len() == 0 {
        0
    } else {
        newlines(s.drop_last()) + if s.last() == 10u8 { 1nat } else { 0nat }
    }
}

/// Rows taken by an element: one per physical line for a code block, one for
/// any other block.
pub open spec fn rows_of(kind: ElementKind, text: Seq<u8>, start: int, end: int) -> nat {
    match kind {
        ElementKind::CodeBlock { .. } => newlines(text.subrange(start, end)) + 1,
        _ => 1,
    }
}

/// Ordered pairs of source offset and row, both strictly increasing.
pub struct OffsetMap {
    offsets: Vec<usize>,
    rows: Vec<usize>,
}

pub open spec fn strictly_increasing(s: Seq<usize>) -> bool {
    forall|i: int, j: int| 0 <= i < j < s.len() ==> s[i] < s[j]
}

/// `r` is the row that offset `o` maps to: the row of the last entry at or
/// before `o`, the first row when `o` comes before every entry, and 0 for an
/// empty map.
pub open spec fn row_for_offset(offsets: Seq<usize>, rows: Seq<usize>, o: int, r: int) -> bool {
    if offsets.len() == 0 {
        r == 0
    } else if o < offsets[0] {
        r == rows[0]
    } else {
        exists|k: int|
            0 <= k < offsets.len() && offsets[k] <= o && (k + 1 == offsets.len() || o < offsets[k
                + 1]) && r == rows[k]
    }
}

/// `o` is the offset that row `r` maps to: the offset of the last entry at or
/// before row `r`, the first offset when `r` comes before every entry, and 0 for
/// an empty map.
pub open spec fn offset_for_row(offsets: Seq<usize>, rows: Seq<usize>, r: int, o: int) -> bool {
    row_for_offset(rows, offsets, r, o)
}

impl OffsetMap {
    pub closed spec fn offsets_spec(&self) -> Seq<usize> {
        self.offsets@
    }

    pub closed spec fn rows_spec(&self) -> Seq<usize> {
        self.rows@
    }

    pub open spec fn wf(&self) -> bool {
        &&& self.offsets_spec().len() == self.rows_spec().len()
        &&& strictly_increasing(self.offsets_spec())
        &&& strictly_increasing(self.rows_spec())
    }

    /// Number of entries.
    pub fn len(&self) -> (r: usize)
        ensures
            r == self.offsets_spec().len(),
    {
        self.offsets.len()
    }

    /// The row shown for source offset `offset`; offsets outside the mapped
    /// range are clamped to the nearest entry.
    pub fn offset_to_row(&self, offset: usize) -> (r: usize)
        requires
            self.wf(),
        ensures
            row_for_offset(self.offsets_spec(), self.rows_spec(), offset as int, r as int),
    {
        last_at_or_before(&self.offsets, &self.rows, offset)
    }

    /// The source offset shown at row `row`; rows outside the mapped range are
    /// clamped to the nearest entry.
    pub fn row_to_offset(&self, row: usize) -> (r: usize)
        requires
            self.wf(),
        ensures
            offset_for_row(self.offsets_spec(), self.rows_spec(), row as int, r as int),
    {
        last_at_or_before(&self.rows, &self.offsets, row)
    }
}

/// The value paired with the last key at or before `x` (binary search), the
/// first value when `x` precedes every key, or 0 when there are none.
fn last_at_or_before(keys: &Vec<usize>, values: &Vec<usize>, x: usize) -> (r: usize)
    requires
        keys.len() == values.len(),
        strictly_increasing(keys@),
    ensures
        row_for_offset(keys@, values@, x as int, r as int),
{
    if keys.len() == 0 {
        return 0;
    }
    if x < keys[0] {
        return values[0];
    }
    let mut lo: usize = 1;
    let mut hi: usize = keys.len();
    while lo < hi
        invariant
            1 <= lo <= hi <= keys.len(),
            keys.len() == values.len(),
            strictly_increasing(keys@),
            keys@[lo - 1] <= x,
            hi < keys.len() ==> x < keys@[hi as int],
        decreases hi - lo,
    {
        let mid = lo + (hi - lo) / 2;
        if keys[mid] <= x {
            lo = mid + 1;
        } else {
            hi = mid;
        }
    }
    let k = lo - 1;
    assert(k + 1 == keys.len() || x < keys@[k + 1]);
    values[k]
}

/// Looking up the offset of an entry gives its row, and looking up its row
/// gives its offset: the map round-trips on every entry.
pub proof fn lemma_round_trip(map: &OffsetMap, k: int, r: int, o: int)
    requires
        map.wf(),
        0 <= k < map.offsets_spec().len(),
        row_for_offset(map.offsets_spec(), map.rows_spec(), map.offsets_spec()[k] as int, r),
        offset_for_row(map.offsets_spec(), map.rows_spec(), map.rows_spec()[k] as int, o),
    ensures
        r == map.rows_spec()[k],
        o == map.offsets_spec()[k],
{
    lemma_lookup_exact(map.offsets_spec(), map.rows_spec(), k, r);
    lemma_lookup_exact(map.rows_spec(), map.offsets_spec(), k, o);
}

proof fn lemma_lookup_exact(keys: Seq<usize>, values: Seq<usize>, k: int, r: int)
    requires
        keys.len() == values.len(),
        strictly_increasing(keys),
        0 <= k < keys.len(),
        row_for_offset(keys, values, keys[k] as int, r),
    ensures
        r == values[k],
{
    if keys[k] < keys[0] {
        if k > 0 {
            assert(keys[0] < keys[k]);
        }
    } else {
        let j = choose|j: int|
            0 <= j < keys.len() && keys[j] <= keys[k] && (j + 1 == keys.len() || keys[k] < keys[j
                + 1]) && r == values[j];
        if j < k {
            assert(keys[j + 1] <= keys[k]) by {
                if j + 1 < k {
                    assert(keys[j + 1] < keys[k]);
                }
            }
        } else if j > k {
            assert(keys[k] < keys[j]);
        }
    }
}

/// Number of line feeds in `text[s..e]`.
fn count_newlines(text: &[u8], s: usize, e: usize) -> (r: usize)
    requires
        s <= e <= text.len(),
    ensures
        r == newlines(text@.subrange(s as int, e as int)),
        r <= e - s,
{
    let mut c: usize = 0;
    let mut i = s;
    while i < e
        invariant
            s <= i <= e <= text.len(),
            c <= i - s,
            c == newlines(text@.subrange(s as int, i as int)),
        decreases e - i,
    {
        assert(text@.subrange(s as int, i + 1).drop_last() =~= text@.subrange(s as int, i as int));
        if text[i] == 10u8 {
            c = c + 1;
        }
        i = i + 1;
    }
    c
}

fn is_row_block_exec(k: &ElementKind) -> (r: bool)
    ensures
        r == is_row_block(*k),
{
    match k {
        ElementKind::Heading { .. } => true,
        ElementKind::Paragraph => true,
        ElementKind::CodeBlock { .. } => true,
        ElementKind::ListItem { .. } => true,
        ElementKind::ThematicBreak => true,
        ElementKind::TableRow { .. } => true,
        _ => false,
    }
}

/// The first row after the first `m` nodes.
pub open spec fn row_after(nodes: Seq<RenderNode>, m: int) -> int {
    if m == 0 {
        0
    } else {
        nodes[m - 1].row + nodes[m - 1].rows
    }
}

/// Row block `i` of `es` would follow the first `m` nodes, and was left out:
/// it does not start after the last of them, or its rows would run past the
/// largest row number.
pub open spec fn left_out_at(es: Seq<Element>, text: Seq<u8>, nodes: Seq<RenderNode>, i: int, m: int) -> bool {
    &&& 0 <= m <= nodes.len()
    &&& forall|k: int| 0 <= k < m ==> (#[trigger] nodes[k]).element < i
    &&& forall|k: int| m <= k < nodes.len() ==> (#[trigger] nodes[k]).element > i
    &&& (m > 0 && nodes[m - 1].start >= es[i].span.start) || row_after(nodes, m) + rows_of(
        es[i].kind,
        text,
        es[i].span.start as int,
        es[i].span.end as int,
    ) > usize::MAX
}

/// Row block `i` of `es` is placed in `nodes`, or was left out.
pub open spec fn accounted(es: Seq<Element>, text: Seq<u8>, nodes: Seq<RenderNode>, i: int) -> bool {
    ||| exists|k: int| 0 <= k < nodes.len() && (#[trigger] nodes[k]).element == i
    ||| exists|m: int| left_out_at(es, text, nodes, i, m)
}

proof fn lemma_accounted_push(
    es: Seq<Element>,
    text: Seq<u8>,
    nodes: Seq<RenderNode>,
    nd: RenderNode,
    i: int,
)
    requires
        accounted(es, text, nodes, i),
        nd.element > i,
    ensures
        accounted(es, text, nodes.push(nd), i),
{
    let ns = nodes.push(nd);
    if exists|k: int| 0 <= k < nodes.len() && (#[trigger] nodes[k]).element == i {
        let k = choose|k: int| 0 <= k < nodes.len() && (#[trigger] nodes[k]).element == i;
        assert(ns[k] == nodes[k]);
    } else {
        let m = choose|m: int| left_out_at(es, text, nodes, i, m);
        assert forall|k: int| 0 <= k < m implies (#[trigger] ns[k]).element < i by {
            assert(ns[k] == nodes[k]);
        }
        assert forall|k: int| m <= k < ns.len() implies (#[trigger] ns[k]).element > i by {
            if k < nodes.len() {
                assert(ns[k] == nodes[k]);
            }
        }
        if m > 0 {
            assert(ns[m - 1] == nodes[m - 1]);
        }
        assert(row_after(ns, m) == row_after(nodes, m));
        assert(left_out_at(es, text, ns, i, m));
    }
}

/// The rendered form of a document: its row blocks in document order, each
/// placed on the rows after the previous one, and the offset map of their
/// starts and first rows.
pub open spec fn render_ok(doc: Document, text: Seq<u8>, nodes: Seq<RenderNode>, map: OffsetMap) -> bool {
    let es = doc.elements_spec();
    &&& map.wf()
    &&& map.offsets_spec().len() == nodes.len()
    &&& forall|k: int|
        0 <= k < nodes.len() ==> {
            let nd = #[trigger] nodes[k];
            &&& nd.element < es.len()
            &&& is_row_block(es[nd.element as int].kind)
            &&& nd.start == es[nd.element as int].span.start
            &&& nd.end == es[nd.element as int].span.end
            &&& nd.rows == rows_of(es[nd.element as int].kind, text, nd.start as int, nd.end as int)
            &&& nd.row == (if k == 0 { 0 } else { nodes[k - 1].row + nodes[k - 1].rows })
            &&& map.offsets_spec()[k] == nd.start
            &&& map.rows_spec()[k] == nd.row
        }
    &&& forall|k: int, l: int| 0 <= k < l < nodes.len() ==> nodes[k].element < nodes[l].element
    &&& forall|i: int|
        0 <= i < es.len() && is_row_block(#[trigger] es[i].kind) ==> accounted(es, text, nodes, i)
}

/// Lays out a parsed document of source `text`. A row block whose start does not
/// come after the previous one's, which no parsed document holds, is left out so
/// that the offset map stays strictly ordered.
#[verifier::rlimit(40)]
pub fn render(doc: &Document, text: &[u8]) -> (r: (Vec<RenderNode>, OffsetMap))
    requires
        doc.wf(),
        doc.source_len_spec() == text.len(),
    ensures
        render_ok(*doc, text@, r.0@, r.1),
{
    let ghost es = doc.elements_spec();
    let mut nodes: Vec<RenderNode> = Vec::new();
    let mut offsets: Vec<usize> = Vec::new();
    let mut rows: Vec<usize> = Vec::new();
    let mut row: usize = 0;
    let mut i: usize = 0;
    while i < doc.len()
        invariant
            i <= es.len(),
            es == doc.elements_spec(),
            doc.wf(),
            doc.source_len_spec() == text.len(),
            offsets.len() == nodes.len() == rows.len(),
            strictly_increasing(offsets@),
            strictly_increasing(rows@),
            nodes.len() == 0 ==> row == 0,
            nodes.len() > 0 ==> row == nodes@.last().row + nodes@.last().rows,
            nodes.len() > 0 ==> nodes@.last().element < i,
            nodes.len() > 0 ==> nodes@.last().row < row,
            forall|k: int|
                0 <= k < nodes.len() ==> {
                    let nd = #[trigger] nodes@[k];
                    &&& nd.element < es.len()
                    &&& is_row_block(es[nd.element as int].kind)
                    &&& nd.start == es[nd.element as int].span.start
                    &&& nd.end == es[nd.element as int].span.end
                    &&& nd.rows == rows_of(es[nd.element as int].kind, text@, nd.start as int, nd.end as int)
                    &&& nd.row == (if k == 0 { 0 } else { nodes@[k - 1].row + nodes@[k - 1].rows })
                    &&& offsets@[k] == nd.start
                    &&& rows@[k] == nd.row
                },
            forall|k: int, l: int| 0 <= k < l < nodes.len() ==> nodes@[k].element < nodes@[l].element,
            forall|j: int|
                0 <= j < i && is_row_block(#[trigger] es[j].kind) ==> accounted(es, text@, nodes@, j),
        decreases es.len() - i,
    {
        let el = doc.element(i);
        if is_row_block_exec(&el.kind) {
            let start = el.span.start;
            let end = el.span.end;
            let after_previous = nodes.len() == 0 || offsets[offsets.len() - 1] < start;
            let n_rows: usize = match el.kind {
                ElementKind::CodeBlock { .. } => {
                    let c = count_newlines(text, start, end);
                    if c < usize::MAX { c + 1 } else { 0 }
                },
                _ => 1,
            };
            if after_previous && n_rows > 0 && n_rows <= usize::MAX - row {
                let ghost before = nodes@;
                assert forall|j: int|
                    0 <= j < i && is_row_block(#[trigger] es[j].kind) implies accounted(
                    es,
                    text@,
                    before.push(RenderNode { element: i, start, end, row, rows: n_rows }),
                    j,
                ) by {
                    lemma_accounted_push(
                        es,
                        text@,
                        before,
                        RenderNode { element: i, start, end, row, rows: n_rows },
                        j,
                    );
                }
                let nd = RenderNode { element: i, start, end, row, rows: n_rows };
                nodes.push(nd);
                offsets.push(start);
                rows.push(row);
                row = row + n_rows;
                assert forall|k: int|
                    0 <= k < nodes.len() implies {
                        let nd = #[trigger] nodes@[k];
                        &&& nd.element < es.len()
                        &&& is_row_block(es[nd.element as int].kind)
                        &&& nd.start == es[nd.element as int].span.start
                        &&& nd.end == es[nd.element as int].span.end
                        &&& nd.rows == rows_of(es[nd.element as int].kind, text@, nd.start as int, nd.end as int)
                        &&& nd.row == (if k == 0 { 0 } else { nodes@[k - 1].row + nodes@[k - 1].rows })
                        &&& offsets@[k] == nd.start
                        &&& rows@[k] == nd.row
                    } by {
                    if k < before.len() {
                        assert(nodes@[k] == before[k]);
                        if k > 0 {
                            assert(nodes@[k - 1] == before[k - 1]);
                        }
                    }
                }
                assert(nodes@[nodes.len() - 1].element == i);
            } else {
                let ghost m = nodes.len() as int;
                assert forall|k: int| 0 <= k < m implies (#[trigger] nodes@[k]).element < i by {
                    if k < m - 1 {
                        assert(nodes@[k].element < nodes@[m - 1].element);
                    }
                }
                assert(row_after(nodes@, m) == row);
                assert(left_out_at(es, text@, nodes@, i as int, m));
            }
        }
        i = i + 1;
    }
    (nodes, OffsetMap { offsets, rows })
}

} // verus!
