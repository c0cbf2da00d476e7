//! A tolerant Markdown parser: any byte sequence yields a document whose
//! elements satisfy the span invariant. Malformed markup is kept as literal text.
use vstd::prelude::*;
use crate::elements::{
    append_element, elements_wf, lemma_childless_top_disjoint, span_within, Alignment, Document, Element, ElementKind, Span,
};
use crate::minifier::{is_blank_byte, is_content_byte};

verus! {

pub open spec fn is_space_or_tab(b: u8) -> bool {
    b == 32u8 || b == 9u8
}

/// `new` is `old` with elements appended that all have a parent and none of
/// which is a code block.
pub open spec fn adds_children(old: Seq<Element>, new: Seq<Element>) -> bool {
    &&& old.len() <= new.len()
    &&& forall|i: int| 0 <= i < old.len() ==> new[i] == old[i]
    &&& forall|i: int|
        old.len() <= i < new.len() ==> (#[trigger] new[i]).parent.is_some()
            && !(new[i].kind is CodeBlock)
}

/// `new` is `old` with a block appended that has parent `parent` and starts at
/// `start`, then elements below it (none when it is a code block), none of
/// them a code block; between the block's end and `r` lies no content byte.
pub open spec fn adds_block(
    old: Seq<Element>,
    new: Seq<Element>,
    parent: Option<usize>,
    start: int,
    r: int,
    text: Seq<u8>,
) -> bool {
    let b = new[old.len() as int];
    &&& old.len() < new.len()
    &&& forall|i: int| 0 <= i < old.len() ==> new[i] == old[i]
    &&& b.parent == parent
    &&& b.span.start == start
    &&& b.span.end <= r
    &&& forall|k: int| b.span.end <= k < r ==> !is_content_byte(#[trigger] text[k])
    &&& forall|i: int|
        old.len() < i < new.len() ==> (#[trigger] new[i]).parent.is_some() && new[i].parent.unwrap()
            >= old.len() && !(new[i].kind is CodeBlock)
    &&& b.kind is CodeBlock ==> new.len() == old.len() + 1
}

/// Every child of element `p` starts before `pos` and ends at or before it.
pub open spec fn children_end_by(es: Seq<Element>, p: usize, pos: int) -> bool {
    forall|i: int|
        0 <= i < es.len() && (#[trigger] es[i].parent) == Some(p) ==> es[i].span.end <= pos
            && es[i].span.start < pos
}

/// The byte at `k` lies in the span of a child of element `p`.
pub open spec fn in_child(es: Seq<Element>, p: usize, k: int) -> bool {
    exists|i: int|
        0 <= i < es.len() && (#[trigger] es[i]).parent == Some(p) && es[i].span.start <= k
            < es[i].span.end
}

/// Every byte of `s..e` lies in the span of a child of element `p`.
pub open spec fn tiled(es: Seq<Element>, p: usize, s: int, e: int) -> bool {
    forall|k: int| s <= k < e ==> #[trigger] in_child(es, p, k)
}

/// `new` is `old` with elements appended, each a child of `p` or of an
/// appended element.
pub open spec fn adds_below(old: Seq<Element>, new: Seq<Element>, p: usize) -> bool {
    &&& adds_children(old, new)
    &&& forall|i: int|
        old.len() <= i < new.len() ==> (#[trigger] new[i]).parent == Some(p)
            || new[i].parent.unwrap() >= old.len()
}

proof fn lemma_tiled_grows(old: Seq<Element>, new: Seq<Element>, p: usize, s: int, e: int)
    requires
        tiled(old, p, s, e),
        adds_children(old, new),
    ensures
        tiled(new, p, s, e),
{
    assert forall|k: int| s <= k < e implies #[trigger] in_child(new, p, k) by {
        assert(in_child(old, p, k));
        let i = choose|i: int|
            0 <= i < old.len() && (#[trigger] old[i]).parent == Some(p) && old[i].span.start <= k
                < old[i].span.end;
        assert(new[i] == old[i]);
    }
}

proof fn lemma_tiled_extend(old: Seq<Element>, new: Seq<Element>, p: usize, s: int, t: int, u: int)
    requires
        s <= t <= u,
        tiled(old, p, s, t),
        adds_children(old, new),
        tiled(new, p, t, u),
    ensures
        tiled(new, p, s, u),
{
    lemma_tiled_grows(old, new, p, s, t);
    assert forall|k: int| s <= k < u implies #[trigger] in_child(new, p, k) by {
        if k < t {
            assert(in_child(new, p, k));
        } else {
            assert(in_child(new, p, k));
        }
    }
}

pub open spec fn is_emphasis_marker(b: u8) -> bool {
    b == 42u8 || b == 95u8
}

/// The source of inline element `el` begins and ends with the markup of its
/// kind: backticks around code, `[` (or `![`) to `)` around a link (or image),
/// a pair of one marker byte around strong text and the marker byte around
/// emphasis, and a line feed at the end of a line break. Text is unconstrained;
/// no other kind is inline.
pub open spec fn inline_markup(text: Seq<u8>, el: Element) -> bool {
    let s = el.span.start as int;
    let e = el.span.end as int;
    match el.kind {
        ElementKind::Text => true,
        ElementKind::Code { .. } => e - s >= 2 && text[s] == 96u8 && text[e - 1] == 96u8,
        ElementKind::Link { .. } => e - s >= 4 && text[s] == 91u8 && text[e - 1] == 41u8,
        ElementKind::Image { .. } => e - s >= 5 && text[s] == 33u8 && text[s + 1] == 91u8
            && text[e - 1] == 41u8,
        ElementKind::Strong => e - s >= 5 && is_emphasis_marker(text[s]) && text[s + 1] == text[s]
            && text[e - 2] == text[s] && text[e - 1] == text[s],
        ElementKind::Emphasis => e - s >= 3 && is_emphasis_marker(text[s]) && text[e - 1] == text[s],
        ElementKind::LineBreak => e - s >= 1 && text[e - 1] == 10u8,
        _ => false,
    }
}

/// The line starting at `pos` has its first byte other than space or tab at
/// `c` and ends at `e` (a line feed or the end of the text).
pub open spec fn line_at(text: Seq<u8>, pos: int, c: int, e: int) -> bool {
    &&& 0 <= pos <= c < e <= text.len()
    &&& forall|q: int| pos <= q < c ==> is_space_or_tab(#[trigger] text[q])
    &&& !is_space_or_tab(text[c])
    &&& forall|q: int| pos <= q < e ==> #[trigger] text[q] != 10u8
    &&& e == text.len() || text[e] == 10u8
}

proof fn lemma_line_at_unique(text: Seq<u8>, pos: int, c1: int, e1: int, c2: int, e2: int)
    requires
        line_at(text, pos, c1, e1),
        line_at(text, pos, c2, e2),
    ensures
        c1 == c2,
        e1 == e2,
{
    if c1 < c2 {
        assert(is_space_or_tab(text[c1]));
    }
    if c2 < c1 {
        assert(is_space_or_tab(text[c2]));
    }
    if e1 < e2 {
        assert(text[e1] != 10u8);
    }
    if e2 < e1 {
        assert(text[e2] != 10u8);
    }
}

/// An ATX heading marker of level `k` at `c` in the line ending at `e`: one to
/// six `#`, then a space, a tab or the end of the line.
pub open spec fn heading_marker(text: Seq<u8>, c: int, e: int, k: int) -> bool {
    &&& 1 <= k <= 6
    &&& c + k <= e
    &&& forall|q: int| c <= q < c + k ==> #[trigger] text[q] == 35u8
    &&& c + k == e || is_space_or_tab(text[c + k])
}

/// A code fence at `c` in the line ending at `e`: three or more backticks or
/// three or more tildes.
pub open spec fn fence_marker(text: Seq<u8>, c: int, e: int) -> bool {
    &&& 0 <= c && c + 3 <= e <= text.len()
    &&& text[c] == 96u8 || text[c] == 126u8
    &&& text[c + 1] == text[c] && text[c + 2] == text[c]
}

/// A line whose content at `c..e` opens no block: it starts with no backtick,
/// tilde, `#`, `>` or digit and with no bullet marker, holds no pipe, and
/// holds a byte other than whitespace and its first byte (so it is no
/// thematic break).
pub open spec fn plain_line(text: Seq<u8>, c: int, e: int) -> bool {
    let x = text[c];
    &&& x != 96u8 && x != 126u8 && x != 35u8 && x != 62u8
    &&& !(48u8 <= x <= 57u8)
    &&& !bullet_marker(text, c, e)
    &&& forall|q: int| c <= q < e ==> #[trigger] text[q] != 124u8
    &&& exists|q: int| c <= q < e && #[trigger] text[q] != x && !is_blank_byte(text[q])
}

/// A bullet list marker at `c` in the line ending at `e`: `-`, `*` or `+`,
/// then a space, a tab or the end of the line.
pub open spec fn bullet_marker(text: Seq<u8>, c: int, e: int) -> bool {
    &&& 0 <= c < e <= text.len()
    &&& text[c] == 45u8 || text[c] == 42u8 || text[c] == 43u8
    &&& c + 1 == e || is_space_or_tab(text[c + 1])
}

/// Whether `k` is a kind of inline element.
pub open spec fn is_inline_kind(k: ElementKind) -> bool {
    match k {
        ElementKind::Text => true,
        ElementKind::Code { .. } => true,
        ElementKind::Link { .. } => true,
        ElementKind::Image { .. } => true,
        ElementKind::Strong => true,
        ElementKind::Emphasis => true,
        ElementKind::LineBreak => true,
        _ => false,
    }
}

/// Every inline element of `es` shows the markup of its kind in `text`.
pub open spec fn markup_ok(text: Seq<u8>, es: Seq<Element>) -> bool {
    forall|i: int| 0 <= i < es.len() && is_inline_kind(#[trigger] es[i].kind) ==> inline_markup(text, es[i])
}

/// Child `i` of element `p` shows its markup, and if it is text, it runs up to
/// `e` or to the start of a child of `p` that is not text: text is never split
/// into two adjacent pieces.
#[verifier::opaque]
pub open spec fn inline_child(text: Seq<u8>, es: Seq<Element>, p: usize, i: int, e: int) -> bool {
    &&& inline_markup(text, es[i])
    &&& es[i].kind is Text ==> es[i].span.end == e || exists|j: int|
        0 <= j < es.len() && (#[trigger] es[j]).parent == Some(p) && !(es[j].kind is Text)
            && es[j].span.start == es[i].span.end
}

/// One step of inline parsing keeps every new child of `p` well marked up:
/// `a` becomes `b` by the text `t..i` (if not empty), then `c`, a child of `p`
/// that is not text and starts at `i`, then elements that are not children of `p`.
proof fn lemma_inline_step(
    text: Seq<u8>,
    from: int,
    a: Seq<Element>,
    b: Seq<Element>,
    d: Seq<Element>,
    p: usize,
    t: int,
    i: int,
    c: Element,
)
    requires
        0 <= from <= a.len(),
        forall|m: int|
            from <= m < a.len() && (#[trigger] a[m]).parent == Some(p) ==> inline_child(text, a, p, m, -1),
        t <= i,
        t < i ==> b == a.push(
            (Element { kind: ElementKind::Text, span: Span { start: t as usize, end: i as usize }, parent: Some(p) }),
        ),
        t == i ==> b == a,
        c.parent == Some(p),
        c.span.start == i,
        !(c.kind is Text),
        inline_markup(text, c),
        d.len() > b.len(),
        d[b.len() as int] == c,
        forall|m: int| 0 <= m < b.len() ==> d[m] == b[m],
        forall|m: int| b.len() < m < d.len() ==> (#[trigger] d[m]).parent != Some(p),
    ensures
        forall|m: int|
            from <= m < d.len() && (#[trigger] d[m]).parent == Some(p) ==> inline_child(text, d, p, m, -1),
{
    reveal(inline_child);
    let w = b.len() as int;
    assert forall|m: int|
        from <= m < d.len() && (#[trigger] d[m]).parent == Some(p) implies inline_child(text, d, p, m, -1) by {
        assert(b.len() >= a.len());
        if m < a.len() {
            if t < i {
                assert(b[m] == a[m]);
            }
            assert(d[m] == b[m]);
            if a[m].kind is Text {
                let j = choose|j: int|
                    0 <= j < a.len() && (#[trigger] a[j]).parent == Some(p) && !(a[j].kind is Text)
                        && a[j].span.start == a[m].span.end;
                if t < i {
                    assert(b[j] == a[j]);
                }
                assert(d[j] == b[j]);
            }
        } else if m < w {
            assert(d[m] == b[m]);
            assert(d[w] == c);
        } else if m == w {
        } else {
        }
    }
}

/// Every top-level element of `es` starts before `pos` and ends at or before it.
pub open spec fn top_level_before(es: Seq<Element>, pos: int) -> bool {
    forall|i: int|
        0 <= i < es.len() && (#[trigger] es[i].parent).is_none() ==> es[i].span.end <= pos
            && es[i].span.start < pos
}

/// Code block `c` is a top-level element without children, and no other
/// element shares a byte with it.
pub open spec fn code_block_alone(es: Seq<Element>, c: int) -> bool {
    &&& es[c].parent.is_none()
    &&& forall|j: int| 0 <= j < es.len() ==> !(#[trigger] es[j].parent is Some && es[j].parent.unwrap() == c)
    &&& forall|j: int|
        0 <= j < es.len() && j != c ==> (#[trigger] es[j].span).end <= es[c].span.start
            || es[j].span.start >= es[c].span.end
}

/// Every code block is a top-level element without children.
pub open spec fn code_blocks_childless(es: Seq<Element>) -> bool {
    forall|c: int|
        0 <= c < es.len() && (#[trigger] es[c].kind) is CodeBlock ==> es[c].parent.is_none()
            && forall|j: int| 0 <= j < es.len() ==> !(#[trigger] es[j].parent is Some && es[j].parent.unwrap() == c)
}

proof fn lemma_code_blocks_kept(
    old: Seq<Element>,
    new: Seq<Element>,
    n: nat,
    pos: int,
    r: int,
    text: Seq<u8>,
)
    requires
        elements_wf(old, n),
        code_blocks_childless(old),
        adds_block(old, new, None, pos, r, text),
    ensures
        code_blocks_childless(new),
{
    let b = old.len() as int;
    assert forall|cc: int|
        0 <= cc < new.len() && (#[trigger] new[cc].kind) is CodeBlock implies new[cc].parent.is_none()
            && forall|j: int| 0 <= j < new.len() ==> !(#[trigger] new[j].parent is Some && new[j].parent.unwrap() == cc) by {
        if cc < b {
            assert(new[cc] == old[cc]);
            assert forall|j: int| 0 <= j < new.len() implies !(#[trigger] new[j].parent is Some && new[j].parent.unwrap() == cc) by {
                if j < b {
                    assert(new[j] == old[j]);
                } else if j > b {
                    assert(new[j].parent.unwrap() >= b);
                }
            }
        } else {
            assert(cc == b);
            assert forall|j: int| 0 <= j < new.len() implies !(#[trigger] new[j].parent is Some && new[j].parent.unwrap() == cc) by {
                if j < b {
                    assert(new[j] == old[j]);
                    if old[j].parent.is_some() {
                        assert(old[j].parent.unwrap() < j);
                    }
                }
            }
        }
    }
}

/// The byte at `k` lies in the span of a top-level element.
pub open spec fn covered(es: Seq<Element>, k: int) -> bool {
    exists|i: int|
        0 <= i < es.len() && (#[trigger] es[i]).parent.is_none() && es[i].span.start <= k
            < es[i].span.end
}

/// End of the line that contains `pos`: the offset of the next line feed, or
/// the text's length.
pub fn line_end(text: &[u8], pos: usize) -> (r: usize)
    requires
        pos <= text.len(),
    ensures
        pos <= r <= text.len(),
        r < text.len() ==> text@[r as int] == 10u8,
        forall|k: int| pos <= k < r ==> text@[k] != 10u8,
{
    let mut i = pos;
    while i < text.len() && text[i] != 10u8
        invariant
            pos <= i <= text.len(),
            forall|k: int| pos <= k < i ==> text@[k] != 10u8,
        decreases text.len() - i,
    {
        i = i + 1;
    }
    i
}

/// Start of the line after the one that ends at `e`.
fn next_line(text: &[u8], e: usize) -> (r: usize)
    requires
        e <= text.len(),
    ensures
        e <= r <= text.len(),
        e < text.len() ==> r == e + 1,
        e == text.len() ==> r == e,
{
    if e < text.len() {
        e + 1
    } else {
        e
    }
}

/// First offset in `pos..e` that is not a space or tab, or `e`.
fn skip_spaces(text: &[u8], pos: usize, e: usize) -> (r: usize)
    requires
        pos <= e <= text.len(),
    ensures
        pos <= r <= e,
        forall|k: int| pos <= k < r ==> is_space_or_tab(text@[k]),
        r < e ==> !is_space_or_tab(text@[r as int]),
{
    let mut i = pos;
    while i < e && (text[i] == 32u8 || text[i] == 9u8)
        invariant
            pos <= i <= e,
            e <= text.len(),
            forall|k: int| pos <= k < i ==> is_space_or_tab(text@[k]),
        decreases e - i,
    {
        i = i + 1;
    }
    i
}

/// End of `s..e` with trailing spaces, tabs and carriage returns removed.
fn trim_end(text: &[u8], s: usize, e: usize) -> (r: usize)
    requires
        s <= e <= text.len(),
    ensures
        s <= r <= e,
        forall|k: int| r <= k < e ==> is_blank_byte(#[trigger] text@[k]),
        r > s ==> !is_blank_byte(text@[r - 1]),
{
    let mut i = e;
    while i > s && (text[i - 1] == 32u8 || text[i - 1] == 9u8 || text[i - 1] == 13u8)
        invariant
            s <= i <= e,
            e <= text.len(),
            forall|k: int| i <= k < e ==> is_blank_byte(#[trigger] text@[k]),
        decreases i,
    {
        i = i - 1;
    }
    i
}

/// Whether `s..e` holds only spaces, tabs and carriage returns.
fn is_blank(text: &[u8], s: usize, e: usize) -> (r: bool)
    requires
        s <= e <= text.len(),
    ensures
        r == forall|k: int| s <= k < e ==> is_blank_byte(#[trigger] text@[k]),
{
    trim_end(text, s, e) == s
}

/// Length of the run of `b` that starts at `pos`, within `pos..e`.
fn run_length(text: &[u8], pos: usize, e: usize, b: u8) -> (r: usize)
    requires
        pos <= e <= text.len(),
    ensures
        pos + r <= e,
        pos < e && text@[pos as int] == b ==> r >= 1,
        forall|q: int| pos <= q < pos + r ==> text@[q] == b,
        pos + r == e || text@[pos + r] != b,
{
    let mut i = pos;
    while i < e && text[i] == b
        invariant
            pos <= i <= e,
            e <= text.len(),
            pos < i || pos == i,
            i == pos ==> (pos < e && text@[pos as int] == b ==> i < e && text@[i as int] == b),
            forall|q: int| pos <= q < i ==> text@[q] == b,
        decreases e - i,
    {
        i = i + 1;
    }
    i - pos
}

/// First offset `j` in `from..e` where a run of `k` copies of `b` starts that is
/// not preceded by whitespace (so that it can close an emphasis run).
fn find_closing_run(text: &[u8], from: usize, e: usize, b: u8, k: usize) -> (r: Option<usize>)
    requires
        from <= e <= text.len(),
        1 <= k <= 2,
    ensures
        r.is_some() ==> from <= r.unwrap() && r.unwrap() + k <= e && text@[r.unwrap() as int] == b
            && (k == 2 ==> text@[r.unwrap() + 1] == b),
{
    let mut j = from;
    while k <= e - j
        invariant
            from <= j <= e,
            e <= text.len(),
            1 <= k <= 2,
        decreases e - j,
    {
        if text[j] == b && (k == 1 || text[j + 1] == b) && j > 0 && text[j - 1] != 32u8
            && text[j - 1] != 9u8 && text[j - 1] != 10u8 {
            return Some(j);
        }
        j = j + 1;
    }
    None
}

/// First offset in `from..e` holding `b`.
fn find_byte(text: &[u8], from: usize, e: usize, b: u8) -> (r: Option<usize>)
    requires
        from <= e <= text.len(),
    ensures
        r.is_some() ==> from <= r.unwrap() < e && text@[r.unwrap() as int] == b,
        r.is_none() ==> forall|q: int| from <= q < e ==> text@[q] != b,
{
    let mut j = from;
    while j < e
        invariant
            from <= j,
            e <= text.len(),
            forall|q: int| from <= q < j ==> text@[q] != b,
        decreases e - j,
    {
        if text[j] == b {
            return Some(j);
        }
        j = j + 1;
    }
    None
}

/// Start of a closing backtick run of exactly `k` backticks in `from..e`.
fn find_code_close(text: &[u8], from: usize, e: usize, k: usize) -> (r: Option<usize>)
    requires
        from <= e <= text.len(),
    ensures
        r.is_some() ==> from <= r.unwrap() && r.unwrap() + k <= e && forall|q: int|
            r.unwrap() <= q < r.unwrap() + k ==> text@[q] == 96u8,
{
    let mut j = from;
    while j < e
        invariant
            from <= j,
            e <= text.len(),
        decreases e - j,
    {
        if text[j] == 96u8 {
            let m = run_length(text, j, e, 96u8);
            if m == k {
                return Some(j);
            }
            j = j + m;
        } else {
            j = j + 1;
        }
    }
    None
}

/// The link or image body that follows a `[` at `open`: the offsets of `]`
/// and of the closing `)` of `[text](destination)`.
fn link_parts(text: &[u8], open: usize, e: usize) -> (r: Option<(usize, usize)>)
    requires
        open < e <= text.len(),
    ensures
        r.is_some() ==> open < r.unwrap().0 && r.unwrap().0 + 1 < r.unwrap().1 && r.unwrap().1 < e
            && text@[r.unwrap().1 as int] == 41u8,
{
    match find_byte(text, open + 1, e, 93u8) {
        Some(close) => {
            if close + 1 < e && text[close + 1] == 40u8 {
                match find_byte(text, close + 2, e, 41u8) {
                    Some(paren) => Some((close, paren)),
                    None => None,
                }
            } else {
                None
            }
        },
        None => None,
    }
}

/// Appends `s..e`, unless it is empty, as a text child of `parent`.
fn push_text(text: &[u8], es: &mut Vec<Element>, s: usize, e: usize, parent: usize)
    requires
        s <= e,
        elements_wf(old(es)@, text.len() as nat),
        markup_ok(text@, old(es)@),
        parent < old(es)@.len(),
        span_within(Span { start: s, end: e }, old(es)@[parent as int].span),
        children_end_by(old(es)@, parent, s as int),
    ensures
        elements_wf(final(es)@, text.len() as nat),
        markup_ok(text@, final(es)@),
        adds_below(old(es)@, final(es)@, parent),
        tiled(final(es)@, parent, s as int, e as int),
        children_end_by(final(es)@, parent, e as int),
        s < e ==> final(es)@ == old(es)@.push(
            (Element { kind: ElementKind::Text, span: Span { start: s, end: e }, parent: Some(parent) }),
        ),
        s == e ==> final(es)@ == old(es)@,
{
    if s < e {
        let ghost es0 = es@;
        let _ = append_element(es, text.len(), ElementKind::Text, Span { start: s, end: e }, Some(parent));
        assert forall|k: int| s <= k < e implies #[trigger] in_child(es@, parent, k) by {
            assert(es@[es0.len() as int].parent == Some(parent));
        }
    }
}

/// Appends a child of `parent` that follows its other children.
fn push_child(
    text: &[u8],
    es: &mut Vec<Element>,
    kind: ElementKind,
    s: usize,
    e: usize,
    parent: usize,
) -> (r: usize)
    requires
        s < e,
        elements_wf(old(es)@, text.len() as nat),
        markup_ok(text@, old(es)@),
        parent < old(es)@.len(),
        span_within(Span { start: s, end: e }, old(es)@[parent as int].span),
        children_end_by(old(es)@, parent, s as int),
        !(kind is CodeBlock),
        is_inline_kind(kind) ==> inline_markup(
            text@,
            Element { kind, span: Span { start: s, end: e }, parent: Some(parent) },
        ),
    ensures
        elements_wf(final(es)@, text.len() as nat),
        markup_ok(text@, final(es)@),
        r == old(es)@.len(),
        final(es)@ == old(es)@.push((Element { kind, span: Span { start: s, end: e }, parent: Some(parent) })),
        adds_below(old(es)@, final(es)@, parent),
        tiled(final(es)@, parent, s as int, e as int),
        children_end_by(final(es)@, parent, e as int),
{
    let ghost es0 = es@;
    let len = es.len();
    let _ = append_element(es, text.len(), kind, Span { start: s, end: e }, Some(parent));
    assert forall|k: int| s <= k < e implies #[trigger] in_child(es@, parent, k) by {
        assert(es@[es0.len() as int].parent == Some(parent));
    }
    len
}

/// The text `t..i`, then the markup element `kind` over `i..x`, as children
/// of `parent`.
fn push_markup(
    text: &[u8],
    es: &mut Vec<Element>,
    s: usize,
    e: usize,
    t: usize,
    i: usize,
    x: usize,
    kind: ElementKind,
    parent: usize,
    es0: Ghost<Seq<Element>>,
)
    requires
        s <= t <= i < x <= e <= text.len(),
        !(kind is Text),
        !(kind is CodeBlock),
        inline_markup(text@, Element { kind, span: Span { start: i, end: x }, parent: Some(parent) }),
        elements_wf(old(es)@, text.len() as nat),
        markup_ok(text@, old(es)@),
        parent < es0@.len(),
        span_within(Span { start: s, end: e }, es0@[parent as int].span),
        adds_below(es0@, old(es)@, parent),
        tiled(old(es)@, parent, s as int, t as int),
        children_end_by(old(es)@, parent, t as int),
        forall|m: int|
            es0@.len() <= m < old(es)@.len() && (#[trigger] old(es)@[m]).parent == Some(parent)
                ==> inline_child(text@, old(es)@, parent, m, -1),
    ensures
        elements_wf(final(es)@, text.len() as nat),
        markup_ok(text@, final(es)@),
        adds_below(es0@, final(es)@, parent),
        tiled(final(es)@, parent, s as int, x as int),
        children_end_by(final(es)@, parent, x as int),
        forall|m: int|
            es0@.len() <= m < final(es)@.len() && (#[trigger] final(es)@[m]).parent == Some(parent)
                ==> inline_child(text@, final(es)@, parent, m, -1),
{
    let ghost e0 = es@;
    push_text(text, es, t, i, parent);
    let ghost e1 = es@;
    let _ = push_child(text, es, kind, i, x, parent);
    proof {
        lemma_tiled_extend(e0, e1, parent, s as int, t as int, i as int);
        lemma_tiled_extend(e1, es@, parent, s as int, i as int, x as int);
        lemma_inline_step(text@, es0@.len() as int, e0, e1, es@, parent, t as int, i as int, es@[e1.len() as int]);
    }
}

/// The emphasis branch of `parse_inline`: the text `t..i`, then strong text
/// (`w` is 2) or emphasis (`w` is 1) from the marker run at `i` to the closing
/// run at `j`, with its content parsed again.
#[verifier::rlimit(100)]
fn parse_emphasis(
    text: &[u8],
    es: &mut Vec<Element>,
    s: usize,
    e: usize,
    t: usize,
    i: usize,
    j: usize,
    w: usize,
    parent: usize,
    es0: Ghost<Seq<Element>>,
)
    requires
        s <= t <= i,
        i + w + 1 <= j,
        j + w <= e <= text.len(),
        1 <= w <= 2,
        is_emphasis_marker(text@[i as int]),
        forall|q: int| i <= q < i + w ==> text@[q] == text@[i as int],
        forall|q: int| j <= q < j + w ==> text@[q] == text@[i as int],
        elements_wf(old(es)@, text.len() as nat),
        markup_ok(text@, old(es)@),
        parent < es0@.len(),
        span_within(Span { start: s, end: e }, es0@[parent as int].span),
        adds_below(es0@, old(es)@, parent),
        tiled(old(es)@, parent, s as int, t as int),
        children_end_by(old(es)@, parent, t as int),
        forall|m: int|
            es0@.len() <= m < old(es)@.len() && (#[trigger] old(es)@[m]).parent == Some(parent)
                ==> inline_child(text@, old(es)@, parent, m, -1),
    ensures
        elements_wf(final(es)@, text.len() as nat),
        markup_ok(text@, final(es)@),
        adds_below(es0@, final(es)@, parent),
        tiled(final(es)@, parent, s as int, (j + w) as int),
        children_end_by(final(es)@, parent, (j + w) as int),
        forall|m: int|
            es0@.len() <= m < final(es)@.len() && (#[trigger] final(es)@[m]).parent == Some(parent)
                ==> inline_child(text@, final(es)@, parent, m, -1),
    decreases e - s, 0int,
{
    let ghost e0 = es@;
    push_text(text, es, t, i, parent);
    let ghost e1 = es@;
    let kind = if w == 2 { ElementKind::Strong } else { ElementKind::Emphasis };
    let idx = push_child(text, es, kind, i, j + w, parent);
    let ghost e2 = es@;
    proof {
        lemma_tiled_extend(e0, e1, parent, s as int, t as int, i as int);
        lemma_tiled_extend(e1, e2, parent, s as int, i as int, (j + w) as int);
    }
    parse_inline(text, es, i + w, j, idx);
    proof {
        lemma_tiled_grows(e2, es@, parent, s as int, (j + w) as int);
        assert forall|m: int|
            e0.len() <= m < es@.len() implies (#[trigger] es@[m]).parent == Some(parent)
                || es@[m].parent.unwrap() >= es0@.len() by {
            if m < e2.len() {
                assert(es@[m] == e2[m]);
            }
        }
        assert forall|m: int| e1.len() < m < es@.len() implies (#[trigger] es@[m]).parent != Some(parent) by {
            if m < e2.len() {
                assert(es@[m] == e2[m]);
            }
        }
        assert(es@[e1.len() as int] == e2[e1.len() as int]);
        lemma_inline_step(text@, es0@.len() as int, e0, e1, es@, parent, t as int, i as int, es@[e1.len() as int]);
    }
}

/// Parses the inline content `s..e` into children of `parent`. Code spans bind
/// tightest; then links and images; then strong and emphasis, whose content is
/// parsed again; then hard line breaks. Markers without a partner stay text.
#[verifier::rlimit(100)]
pub fn parse_inline(text: &[u8], es: &mut Vec<Element>, s: usize, e: usize, parent: usize)
    requires
        s <= e <= text.len(),
        elements_wf(old(es)@, text.len() as nat),
        markup_ok(text@, old(es)@),
        parent < old(es)@.len(),
        span_within(Span { start: s, end: e }, old(es)@[parent as int].span),
        children_end_by(old(es)@, parent, s as int),
    ensures
        elements_wf(final(es)@, text.len() as nat),
        markup_ok(text@, final(es)@),
        adds_below(old(es)@, final(es)@, parent),
        tiled(final(es)@, parent, s as int, e as int),
        children_end_by(final(es)@, parent, e as int),
        forall|i: int|
            old(es)@.len() <= i < final(es)@.len() && (#[trigger] final(es)@[i]).parent == Some(parent)
                ==> inline_child(text@, final(es)@, parent, i, e as int),
    decreases e - s, 1int,
{
    let ghost es0 = es@;
    let n = text.len();
    let mut t = s;
    let mut i = s;
    while i < e
        invariant
            s <= t <= i <= e,
            e <= n == text.len(),
            elements_wf(es@, n as nat),
            markup_ok(text@, es@),
            parent < es0.len(),
            span_within(Span { start: s, end: e }, es0[parent as int].span),
            adds_below(es0, es@, parent),
            tiled(es@, parent, s as int, t as int),
            children_end_by(es@, parent, t as int),
            forall|m: int|
                es0.len() <= m < es@.len() && (#[trigger] es@[m]).parent == Some(parent)
                    ==> inline_child(text@, es@, parent, m, -1),
        decreases e - i,
    {
        let b = text[i];
        if b == 96u8 {
            let k = run_length(text, i, e, 96u8);
            match find_code_close(text, i + k, e, k) {
                Some(j) => {
                    let kind = ElementKind::Code { code: Span { start: i + k, end: j } };
                    push_markup(text, es, s, e, t, i, j + k, kind, parent, Ghost(es0));
                    i = j + k;
                    t = i;
                },
                None => {
                    i = i + k;
                },
            }
        } else if b == 91u8 || (b == 33u8 && i + 1 < e && text[i + 1] == 91u8) {
            let open = if b == 91u8 { i } else { i + 1 };
            match link_parts(text, open, e) {
                Some((close, paren)) => {
                    let label = Span { start: open + 1, end: close };
                    let destination = Span { start: close + 2, end: paren };
                    let kind = if b == 91u8 {
                        ElementKind::Link { text: label, destination }
                    } else {
                        ElementKind::Image { alt: label, destination }
                    };
                    push_markup(text, es, s, e, t, i, paren + 1, kind, parent, Ghost(es0));
                    i = paren + 1;
                    t = i;
                },
                None => {
                    i = open + 1;
                },
            }
        } else if b == 42u8 || b == 95u8 {
            let k = run_length(text, i, e, b);
            let w: usize = if k >= 2 { 2 } else { 1 };
            let opens = i + w < e && text[i + w] != 32u8 && text[i + w] != 9u8 && text[i + w] != 10u8;
            let close = if opens { find_closing_run(text, i + w + 1, e, b, w) } else { None };
            match close {
                Some(j) => {
                    parse_emphasis(text, es, s, e, t, i, j, w, parent, Ghost(es0));
                    i = j + w;
                    t = i;
                },
                None => {
                    i = i + k;
                },
            }
        } else if b == 10u8 && i - t >= 2 && text[i - 1] == 32u8 && text[i - 2] == 32u8 {
            let sp = trim_end(text, t, i);
            push_markup(text, es, s, e, t, sp, i + 1, ElementKind::LineBreak, parent, Ghost(es0));
            i = i + 1;
            t = i;
        } else {
            i = i + 1;
        }
    }
    let ghost e0 = es@;
    push_text(text, es, t, e, parent);
    proof {
        lemma_tiled_extend(e0, es@, parent, s as int, t as int, e as int);
        reveal(inline_child);
        assert forall|m: int|
            es0.len() <= m < es@.len() && (#[trigger] es@[m]).parent == Some(parent) implies inline_child(
            text@, es@, parent, m, e as int) by {
            if m < e0.len() {
                assert(es@[m] == e0[m]);
                assert(inline_child(text@, e0, parent, m, -1));
                if e0[m].kind is Text {
                    let j = choose|j: int|
                        0 <= j < e0.len() && (#[trigger] e0[j]).parent == Some(parent) && !(e0[j].kind is Text)
                            && e0[j].span.start == e0[m].span.end;
                    assert(es@[j] == e0[j]);
                }
            }
        }
    }
}

/// Start of the line after the one ending at `e`, not beyond `limit`.
fn next_within(e: usize, limit: usize) -> (r: usize)
    requires
        e <= limit,
    ensures
        e < r <= limit || (e == limit && r == limit),
        e < limit ==> r == e + 1,
{
    if e < limit {
        e + 1
    } else {
        limit
    }
}

/// End of the line starting at `pos`, not beyond `limit`.
fn line_end_within(text: &[u8], pos: usize, limit: usize) -> (r: usize)
    requires
        pos <= limit <= text.len(),
    ensures
        pos <= r <= limit,
        r < limit ==> text@[r as int] == 10u8,
        forall|k: int| pos <= k < r ==> text@[k] != 10u8,
{
    let e = line_end(text, pos);
    if e < limit {
        e
    } else {
        limit
    }
}

fn is_blank_line_byte(b: u8) -> (r: bool)
    ensures
        r == is_blank_byte(b),
{
    b == 32u8 || b == 9u8 || b == 13u8
}

/// Length of the fence run that opens a fenced code block at `c`, or 0.
fn fence_run(text: &[u8], c: usize, e: usize) -> (r: usize)
    requires
        c <= e <= text.len(),
    ensures
        r == 0 || (r >= 3 && c + r <= e),
        r > 0 ==> text@[c as int] == 96u8 || text@[c as int] == 126u8,
        fence_marker(text@, c as int, e as int) ==> r > 0,
{
    if c < e && (text[c] == 96u8 || text[c] == 126u8) {
        let k = run_length(text, c, e, text[c]);
        if k >= 3 {
            return k;
        }
    }
    0
}

/// Level of an ATX heading marker (`#` to `######` then a space or the end of
/// the line) at `c`, or 0.
fn heading_level(text: &[u8], c: usize, e: usize) -> (r: usize)
    requires
        c <= e <= text.len(),
    ensures
        r <= 6,
        r > 0 ==> c + r <= e,
        forall|k: int| heading_marker(text@, c as int, e as int, k) ==> r == k,
        r > 0 ==> text@[c as int] == 35u8,
{
    let k = run_length(text, c, e, 35u8);
    if 1 <= k && k <= 6 && (c + k == e || text[c + k] == 32u8 || text[c + k] == 9u8) {
        k
    } else {
        0
    }
}

/// A list item marker at `c` (`-`, `*`, `+`, or up to nine digits then `.` or
/// `)`), followed by a space or the end of the line: whether it is ordered, and
/// where the item's content starts.
fn list_marker(text: &[u8], c: usize, e: usize) -> (r: Option<(bool, usize)>)
    requires
        c <= e <= text.len(),
    ensures
        r.is_some() ==> c < r.unwrap().1 <= e,
        bullet_marker(text@, c as int, e as int) ==> r.is_some() && !r.unwrap().0,
        r.is_some() ==> bullet_marker(text@, c as int, e as int) || (48u8 <= text@[c as int] <= 57u8),
{
    if c >= e {
        return None;
    }
    let b = text[c];
    if b == 45u8 || b == 42u8 || b == 43u8 {
        if c + 1 == e {
            return Some((false, e));
        }
        if text[c + 1] == 32u8 || text[c + 1] == 9u8 {
            return Some((false, c + 2));
        }
        return None;
    }
    let mut d = c;
    while d < e && d - c < 9 && text[d] >= 48u8 && text[d] <= 57u8
        invariant
            c <= d <= e,
            e <= text.len(),
            forall|q: int| c <= q < d ==> 48u8 <= #[trigger] text@[q] <= 57u8,
        decreases e - d,
    {
        d = d + 1;
    }
    if d > c && d < e && (text[d] == 46u8 || text[d] == 41u8) {
        if d + 1 == e {
            return Some((true, e));
        }
        if text[d + 1] == 32u8 || text[d + 1] == 9u8 {
            return Some((true, d + 2));
        }
    }
    None
}

/// Three or more of one of `-`, `*`, `_`, and nothing else but whitespace.
fn is_thematic_break(text: &[u8], c: usize, e: usize) -> (r: bool)
    requires
        c <= e <= text.len(),
    ensures
        r ==> c < e && forall|q: int| c <= q < e ==> #[trigger] text@[q] == text@[c as int] || is_blank_byte(text@[q]),
{
    if c >= e {
        return false;
    }
    let b = text[c];
    if b != 45u8 && b != 42u8 && b != 95u8 {
        return false;
    }
    let mut count: usize = 0;
    let mut i = c;
    while i < e
        invariant
            c <= i <= e,
            e <= text.len(),
            count <= i - c,
            c < e && b == text@[c as int],
            forall|q: int| c <= q < i ==> #[trigger] text@[q] == b || is_blank_byte(text@[q]),
        decreases e - i,
    {
        if text[i] == b {
            count = count + 1;
        } else if !is_blank_line_byte(text[i]) {
            return false;
        }
        i = i + 1;
    }
    count >= 3
}

/// Whether a line whose content starts at `c` opens a block that ends a paragraph.
fn starts_block(text: &[u8], c: usize, e: usize) -> (r: bool)
    requires
        c <= e <= text.len(),
{
    fence_run(text, c, e) > 0 || heading_level(text, c, e) > 0 || (c < e && text[c] == 62u8)
        || list_marker(text, c, e).is_some() || is_thematic_break(text, c, e)
}

/// A table's separator row: only pipes, dashes, colons and whitespace, with at
/// least one dash and one pipe.
fn is_separator_row(text: &[u8], s: usize, e: usize) -> (r: bool)
    requires
        s <= e <= text.len(),
{
    let mut dash = false;
    let mut pipe = false;
    let mut i = s;
    while i < e
        invariant
            s <= i <= e,
            e <= text.len(),
        decreases e - i,
    {
        let b = text[i];
        if b == 45u8 {
            dash = true;
        } else if b == 124u8 {
            pipe = true;
        } else if b != 58u8 && !is_blank_line_byte(b) {
            return false;
        }
        i = i + 1;
    }
    dash && pipe
}

/// The cells of a table row `s..e`: the text between pipes, trimmed, with an
/// optional leading and trailing pipe.
fn row_cells(text: &[u8], s: usize, e: usize) -> (r: Vec<Span>)
    requires
        s <= e <= text.len(),
    ensures
        forall|k: int| 0 <= k < r.len() ==> s <= #[trigger] r@[k].start <= r@[k].end <= e,
{
    let mut a = skip_spaces(text, s, e);
    let mut z = trim_end(text, a, e);
    if a < z && text[a] == 124u8 {
        a = a + 1;
    }
    if z > a && text[z - 1] == 124u8 {
        z = z - 1;
    }
    let mut r: Vec<Span> = Vec::new();
    let mut cs = a;
    let mut j = a;
    while j < z
        invariant
            s <= a <= cs <= j,
            cs <= z,
            j <= z <= e <= text.len(),
            forall|k: int| 0 <= k < r.len() ==> s <= #[trigger] r@[k].start <= r@[k].end <= e,
        decreases z - j,
    {
        if text[j] == 124u8 {
            let c0 = skip_spaces(text, cs, j);
            let c1 = trim_end(text, c0, j);
            r.push(Span { start: c0, end: c1 });
            cs = j + 1;
        }
        j = j + 1;
    }
    let c0 = skip_spaces(text, cs, z);
    let c1 = trim_end(text, c0, z);
    r.push(Span { start: c0, end: c1 });
    r
}

fn alignment_of(text: &[u8], cell: Span) -> (r: Alignment)
    requires
        cell.start <= cell.end <= text.len(),
{
    if cell.start == cell.end {
        return Alignment::Unspecified;
    }
    let left = text[cell.start] == 58u8;
    let right = text[cell.end - 1] == 58u8;
    if left && right {
        Alignment::Center
    } else if left {
        Alignment::Left
    } else if right {
        Alignment::Right
    } else {
        Alignment::Unspecified
    }
}

/// Appends a table row and its cells.
fn push_row(text: &[u8], es: &mut Vec<Element>, s: usize, e: usize, header: bool, table: usize)
    requires
        s <= e <= text.len(),
        elements_wf(old(es)@, text.len() as nat),
        markup_ok(text@, old(es)@),
    ensures
        elements_wf(final(es)@, text.len() as nat),
        markup_ok(text@, final(es)@),
        adds_below(old(es)@, final(es)@, table),
{
    let ghost es0 = es@;
    let n = text.len();
    match append_element(es, n, ElementKind::TableRow { header }, Span { start: s, end: e }, Some(table)) {
        Some(row) => {
            let cells = row_cells(text, s, e);
            let mut k: usize = 0;
            while k < cells.len()
                invariant
                    k <= cells.len(),
                    n == text.len(),
                    forall|m: int| 0 <= m < cells.len() ==> s <= #[trigger] cells@[m].start <= cells@[m].end <= e,
                    e <= n,
                    elements_wf(es@, n as nat),
                    markup_ok(text@, es@),
                    adds_below(es0, es@, table),
                    row == es0.len(),
                decreases cells.len() - k,
            {
                let c = cells[k];
                let ghost before = es@;
                match append_element(es, n, ElementKind::TableCell, c, Some(row)) {
                    Some(cell) => {
                        let ghost mid = es@;
                        parse_inline(text, es, c.start, c.end, cell);
                        assert forall|m: int| es0.len() <= m < es@.len() implies (#[trigger] es@[m]).parent
                            == Some(table) || es@[m].parent.unwrap() >= es0.len() by {
                            if m < mid.len() {
                                assert(es@[m] == mid[m]);
                                if m < before.len() {
                                    assert(mid[m] == before[m]);
                                }
                            }
                        }
                    },
                    None => {},
                }
                k = k + 1;
            }
        },
        None => {},
    }
}

/// Parses a line `q..` after the first of a list item `item`, which ends at
/// `item_end`: a nested list when the line holds a marker indented beyond the
/// item's, else more inline content of the item. Returns where the next line
/// to parse starts.
#[verifier::rlimit(40)]
fn parse_item_line(
    text: &[u8],
    es: &mut Vec<Element>,
    q: usize,
    r: usize,
    item_end: usize,
    indent: usize,
    depth: usize,
    item: usize,
) -> (q2: usize)
    requires
        q < r <= text.len(),
        1 <= depth <= q,
        r == item_end || (r == item_end + 1 && text@[item_end as int] == 10u8),
        elements_wf(old(es)@, text.len() as nat),
        markup_ok(text@, old(es)@),
        item < old(es)@.len(),
        old(es)@[item as int].span.start < q,
        old(es)@[item as int].span.end == item_end,
        children_end_by(old(es)@, item, q as int),
    ensures
        q < q2 <= r,
        elements_wf(final(es)@, text.len() as nat),
        markup_ok(text@, final(es)@),
        adds_below(old(es)@, final(es)@, item),
        children_end_by(final(es)@, item, q2 as int),
    decreases r - q, 1int,
{
    let le = line_end_within(text, q, r);
    assert(le <= item_end) by {
        if le > item_end {
            assert(text@[item_end as int] != 10u8);
        }
    }
    let cc = skip_spaces(text, q, le);
    let ghost before = es@;
    if cc - q > indent && list_marker(text, cc, le).is_some() {
        let q2 = parse_list(text, es, q, r, cc - q, depth + 1, Some(item));
        assert forall|m: int| 0 <= m < es@.len() && (#[trigger] es@[m].parent) == Some(item) implies es@[m].span.end <= q2 && es@[m].span.start < q2 by {
            if m < before.len() {
                assert(es@[m] == before[m]);
            } else if m > before.len() {
                assert(es@[m].parent.unwrap() >= before.len());
            }
        }
        q2
    } else {
        parse_inline(text, es, cc, trim_end(text, cc, le), item);
        next_within(le, r)
    }
}

/// Parses the list whose first item's marker line starts at `start`, with the
/// marker `indent` bytes in; items of nested lists are indented further.
/// Returns where the text after the list starts.
fn parse_list(
    text: &[u8],
    es: &mut Vec<Element>,
    start: usize,
    limit: usize,
    indent: usize,
    depth: usize,
    parent: Option<usize>,
) -> (r: usize)
    requires
        start < limit <= text.len(),
        1 <= depth <= start + 1,
        elements_wf(old(es)@, text.len() as nat),
        markup_ok(text@, old(es)@),
    ensures
        start < r <= limit,
        elements_wf(final(es)@, text.len() as nat),
        markup_ok(text@, final(es)@),
        old(es)@.len() <= final(es)@.len(),
        forall|i: int| 0 <= i < old(es)@.len() ==> final(es)@[i] == old(es)@[i],
        final(es)@.len() > old(es)@.len() ==> final(es)@[old(es)@.len() as int].parent == parent,
        forall|i: int|
            old(es)@.len() < i < final(es)@.len() ==> (#[trigger] final(es)@[i]).parent.is_some(),
        parent.is_none() && limit == text.len() && top_level_before(old(es)@, start as int)
            ==> adds_block(old(es)@, final(es)@, parent, start as int, r as int, text@),
        r == limit || text@[r - 1] == 10u8,
        final(es)@.len() > old(es)@.len() ==> final(es)@[old(es)@.len() as int].span.end <= r
            && final(es)@[old(es)@.len() as int].span.start == start,
        forall|i: int|
            old(es)@.len() < i < final(es)@.len() ==> (#[trigger] final(es)@[i]).parent.unwrap()
                >= old(es)@.len(),
        forall|i: int|
            old(es)@.len() <= i < final(es)@.len() ==> !((#[trigger] final(es)@[i]).kind is CodeBlock),
        forall|c2: int, e2: int|
            line_at(text@, start as int, c2, e2) && e2 <= limit && bullet_marker(text@, c2, e2)
                && final(es)@.len() > old(es)@.len() ==> final(es)@[old(es)@.len() as int].kind == (
            ElementKind::List { ordered: false, depth }),
    decreases limit - start, 0int,
{
    let ghost es0 = es@;
    let n = text.len();
    let e0 = line_end_within(text, start, limit);
    let c0 = skip_spaces(text, start, e0);
    let ordered = match list_marker(text, c0, e0) {
        Some((o, _)) => o,
        None => false,
    };
    assert forall|c2: int, e2: int|
        line_at(text@, start as int, c2, e2) && e2 <= limit && bullet_marker(text@, c2, e2) implies !ordered by {
        if e0 < e2 {
            assert(text@[e0 as int] == 10u8);
        }
        if e2 < e0 {
            assert(text@[e2] == 10u8);
        }
        assert(e0 == e2);
        if c0 < c2 {
            assert(is_space_or_tab(text@[c0 as int]));
        }
        if c2 < c0 {
            assert(is_space_or_tab(text@[c2]));
        }
        assert(c0 == c2);
    }
    let mut last = e0;
    let mut q = next_within(e0, limit);
    while q < limit
        invariant
            (q == last + 1 && last < limit && text@[last as int] == 10u8) || (last == limit && q
                == limit),
            start <= last,
            limit <= n == text.len(),
        decreases limit - q,
    {
        let le = line_end_within(text, q, limit);
        if is_blank(text, q, le) {
            break;
        }
        let cc = skip_spaces(text, q, le);
        if cc - q < indent || (cc - q == indent && list_marker(text, cc, le).is_none()) {
            break;
        }
        last = le;
        q = next_within(le, limit);
    }
    let next = q;
    assert(forall|k: int| last <= k < next ==> !is_content_byte(#[trigger] text@[k]));
    let list = match append_element(
        es,
        n,
        ElementKind::List { ordered, depth },
        Span { start, end: last },
        parent,
    ) {
        Some(list) => list,
        None => {
            return next;
        },
    };
    let ghost es1 = es@;
    let mut p = start;
    while p < next
        invariant
            start <= p <= next <= limit <= n,
            start < next,
            n == text.len(),
            1 <= depth <= start + 1,
            elements_wf(es@, n as nat),
            markup_ok(text@, es@),
            adds_children(es1, es@),
            es1.len() == es0.len() + 1,
            list == es0.len(),
            forall|m: int| es1.len() <= m < es@.len() ==> (#[trigger] es@[m]).parent.unwrap() >= es0.len(),
        decreases next - p,
    {
        let e1 = line_end_within(text, p, next);
        let mut item_end = e1;
        let mut r = next_within(e1, next);
        assert(p < r) by {
            if e1 == next {
                assert(p < next);
            }
        }
        while r < next
            invariant
                p <= item_end <= r <= next,
                e1 <= item_end,
                p < r,
                next <= n == text.len(),
                r == item_end || (r == item_end + 1 && text@[item_end as int] == 10u8),
            decreases next - r,
        {
            let le = line_end_within(text, r, next);
            let cc = skip_spaces(text, r, le);
            if cc - r <= indent {
                break;
            }
            item_end = le;
            r = next_within(le, next);
        }
        let c1 = skip_spaces(text, p, e1);
        let mut content = match list_marker(text, c1, e1) {
            Some((_, cs)) => cs,
            None => c1,
        };
        let mut checked: Option<bool> = None;
        if e1 - content >= 3 && text[content] == 91u8 && text[content + 2] == 93u8
            && (e1 - content == 3 || text[content + 3] == 32u8) {
            let mark = text[content + 1];
            if mark == 32u8 {
                checked = Some(false);
            } else if mark == 120u8 || mark == 88u8 {
                checked = Some(true);
            }
            if checked.is_some() {
                content = skip_spaces(text, content + 3, e1);
            }
        }
        match append_element(
            es,
            n,
            ElementKind::ListItem { checked },
            Span { start: p, end: item_end },
            Some(list),
        ) {
            Some(item) => {
                let ghost es2 = es@;
                parse_inline(text, es, content, trim_end(text, content, e1), item);
                let mut q2 = next_within(e1, r);
                while q2 < r
                    invariant
                        p < q2 <= r <= next <= limit <= n,
                        start <= p,
                        n == text.len(),
                        1 <= depth <= start + 1,
                        elements_wf(es@, n as nat),
                        markup_ok(text@, es@),
                        adds_children(es1, es@),
                        r == item_end || (r == item_end + 1 && text@[item_end as int] == 10u8),
                        es1.len() <= item,
                        es2.len() == item + 1,
                        es2[item as int].span == (Span { start: p, end: item_end }),
                        adds_children(es2, es@),
                        children_end_by(es@, item, q2 as int),
                        list == es0.len(),
                        es1.len() == es0.len() + 1,
                        forall|m: int| es1.len() <= m < es@.len() ==> (#[trigger] es@[m]).parent.unwrap() >= es0.len(),
                    decreases r - q2,
                {
                    let ghost before = es@;
                    q2 = parse_item_line(text, es, q2, r, item_end, indent, depth, item);
                    proof {
                        assert forall|m: int| es1.len() <= m < es@.len() implies (#[trigger] es@[m]).parent.unwrap() >= es0.len() by {
                            if m < before.len() {
                                assert(es@[m] == before[m]);
                            }
                        }
                    }
                }
            },
            None => {},
        }
        p = r;
    }
    next
}

/// Parses the block whose first line is `pos..e`, with content from `c`.
/// Returns where the text after the block starts.
#[verifier::rlimit(100)]
fn parse_block(text: &[u8], es: &mut Vec<Element>, pos: usize, e: usize, c: usize) -> (r: usize)
    requires
        pos <= c < e <= text.len(),
        e == text.len() || text@[e as int] == 10u8,
        forall|k: int| pos <= k < e ==> text@[k] != 10u8,
        line_at(text@, pos as int, c as int, e as int),
        elements_wf(old(es)@, text.len() as nat),
        markup_ok(text@, old(es)@),
        top_level_before(old(es)@, pos as int),
    ensures
        pos < r <= text.len(),
        r == text.len() || text@[r - 1] == 10u8,
        e <= r,
        elements_wf(final(es)@, text.len() as nat),
        markup_ok(text@, final(es)@),
        adds_block(old(es)@, final(es)@, None, pos as int, r as int, text@),
        first_line_kind(text@, final(es)@[old(es)@.len() as int], c as int, e as int),
{
    let ghost es0 = es@;
    let n = text.len();
    let nx = next_line(text, e);
    let f = fence_run(text, c, e);
    if f > 0 {
        assert forall|k: int| !heading_marker(text@, c as int, e as int, k) by {
            if heading_marker(text@, c as int, e as int, k) {
                assert(text@[c as int] == 35u8);
            }
        }
        let fc = text[c];
        let ls = skip_spaces(text, c + f, e);
        let language = Span { start: ls, end: trim_end(text, ls, e) };
        let mut q = nx;
        while q < n
            invariant
                pos < nx <= q <= n,
                e <= nx,
                n == text.len(),
                c < e <= n,
                f >= 3,
                es@ == es0,
                es0 == old(es)@,
                elements_wf(es@, n as nat),
                markup_ok(text@, es@),
                top_level_before(es@, pos as int),
                forall|k: int| !heading_marker(text@, c as int, e as int, k),
                text@[c as int] == 96u8 || text@[c as int] == 126u8,
            decreases n - q,
        {
            let le = line_end(text, q);
            let cc = skip_spaces(text, q, le);
            let k = run_length(text, cc, le, fc);
            if k >= f && is_blank(text, cc + k, le) {
                let code = Span { start: nx, end: if q > nx { q - 1 } else { nx } };
                let kind = ElementKind::CodeBlock { language, code };
                let _ = append_element(es, n, kind, Span { start: pos, end: le }, None);
                let r = next_line(text, le);
                assert(forall|k: int| le <= k < r ==> !is_content_byte(#[trigger] text@[k]));
                return r;
            }
            q = next_line(text, le);
        }
        let kind = ElementKind::CodeBlock { language, code: Span { start: nx, end: n } };
        let _ = append_element(es, n, kind, Span { start: pos, end: n }, None);
        return n;
    }
    let h = heading_level(text, c, e);
    if h > 0 {
        let cs = skip_spaces(text, c + h, e);
        let kind = ElementKind::Heading { level: h as u8 };
        match append_element(es, n, kind, Span { start: pos, end: e }, None) {
            Some(idx) => parse_inline(text, es, cs, trim_end(text, cs, e), idx),
            None => {},
        }
        assert(forall|k: int| e <= k < nx ==> !is_content_byte(#[trigger] text@[k]));
        return nx;
    }
    if text[c] == 62u8 {
        let mut last = e;
        let mut q = nx;
        while q < n
            invariant
                e <= last <= q <= n,
                last < q || (last == n && q == n),
                last < n ==> text@[last as int] == 10u8,
                n == text.len(),
            decreases n - q,
        {
            let le = line_end(text, q);
            let cc = skip_spaces(text, q, le);
            if cc < le && text[cc] == 62u8 {
                last = le;
                assert(last < n ==> text@[last as int] == 10u8);
                q = next_line(text, le);
            } else {
                break;
            }
        }
        let first = if c + 1 < e && text[c + 1] == 32u8 { c + 2 } else { c + 1 };
        match append_element(es, n, ElementKind::BlockQuote, Span { start: pos, end: last }, None) {
            Some(quote) => {
                let ghost es1 = es@;
                match append_element(
                    es,
                    n,
                    ElementKind::Paragraph,
                    Span { start: first, end: last },
                    Some(quote),
                ) {
                    Some(para) => {
                        let ghost es2 = es@;
                        parse_inline(text, es, first, trim_end(text, first, e), para);
                        let mut l = nx;
                        while l < last
                            invariant
                                first <= e <= last <= n == text.len(),
                                e < n ==> nx == e + 1,
                                e == n ==> nx == n,
                                nx <= l <= n,
                                last < n ==> text@[last as int] == 10u8,
                                elements_wf(es@, n as nat),
                                markup_ok(text@, es@),
                                para < es2.len(),
                                es2[para as int].span == (Span { start: first, end: last }),
                                adds_children(es2, es@),
                                children_end_by(es@, para, l as int),
                                es1.len() == es0.len() + 1,
                                es2.len() == es1.len() + 1,
                                para == es1.len(),
                                forall|m: int| es2.len() <= m < es@.len() ==> (#[trigger] es@[m]).parent.unwrap() >= es0.len(),
                            decreases n - l,
                        {
                            let le = line_end(text, l);
                            assert(le <= last) by {
                                if le > last {
                                    assert(text@[last as int] != 10u8);
                                }
                            }
                            let cc = skip_spaces(text, l, le);
                            let mut ct = if cc < le { cc + 1 } else { cc };
                            if ct < le && text[ct] == 32u8 {
                                ct = ct + 1;
                            }
                            assert(es@[para as int] == es2[para as int]);
                            let ghost before = es@;
                            parse_inline(text, es, ct, trim_end(text, ct, le), para);
                            assert forall|m: int| es2.len() <= m < es@.len() implies (#[trigger] es@[m]).parent.unwrap() >= es0.len() by {
                                if m < before.len() {
                                    assert(es@[m] == before[m]);
                                }
                            }
                            l = next_line(text, le);
                        }
                        assert(adds_children(es1, es@)) by {
                            assert forall|m: int| es1.len() <= m < es@.len() implies (
                            #[trigger] es@[m]).parent.is_some() by {
                                if m < es2.len() {
                                    assert(es@[m] == es2[m]);
                                }
                            }
                        }
                    },
                    None => {},
                }
            },
            None => {},
        }
        let r = next_line(text, last);
        assert(forall|k: int| last <= k < r ==> !is_content_byte(#[trigger] text@[k]));
        return r;
    }
    if list_marker(text, c, e).is_some() {
        let r = parse_list(text, es, pos, n, c - pos, 1, None);
        assert(bullet_marker(text@, c as int, e as int) ==> es@[old(es)@.len() as int].kind == (
        ElementKind::List { ordered: false, depth: 1 }));
        assert(e <= r) by {
            if r < e {
                assert(text@[r - 1] == 10u8);
            }
        }
        return r;
    }
    if nx < n && has_byte(text, c, e, 124u8) {
        let se = line_end(text, nx);
        if is_separator_row(text, nx, se) {
            return parse_table(text, es, pos, e, nx, se);
        }
    }
    if is_thematic_break(text, c, e) {
        let _ = append_element(es, n, ElementKind::ThematicBreak, Span { start: pos, end: e }, None);
        assert(forall|k: int| e <= k < nx ==> !is_content_byte(#[trigger] text@[k]));
        return nx;
    }
    let mut last = e;
    let mut q = nx;
    while q < n
        invariant
            e <= last <= q <= n,
                last < q || (last == n && q == n),
            last < n ==> text@[last as int] == 10u8,
            n == text.len(),
        decreases n - q,
    {
        let le = line_end(text, q);
        if is_blank(text, q, le) {
            break;
        }
        let cc = skip_spaces(text, q, le);
        if starts_block(text, cc, le) {
            break;
        }
        last = le;
        q = next_line(text, le);
    }
    match append_element(es, n, ElementKind::Paragraph, Span { start: pos, end: last }, None) {
        Some(idx) => parse_inline(text, es, c, trim_end(text, c, last), idx),
        None => {},
    }
    let r = next_line(text, last);
    assert(forall|k: int| last <= k < r ==> !is_content_byte(#[trigger] text@[k]));
    r
}

fn has_byte(text: &[u8], s: usize, e: usize, b: u8) -> (r: bool)
    requires
        s <= e <= text.len(),
    ensures
        !r ==> forall|q: int| s <= q < e ==> text@[q] != b,
        r ==> exists|q: int| s <= q < e && text@[q] == b,
{
    find_byte(text, s, e, b).is_some()
}

/// Parses a table whose header row is `pos..e` and separator row `sep..se`;
/// body rows are the following lines that hold a pipe.
fn parse_table(text: &[u8], es: &mut Vec<Element>, pos: usize, e: usize, sep: usize, se: usize) -> (r: usize)
    requires
        pos <= e < sep <= se <= text.len(),
        se < text.len() ==> text@[se as int] == 10u8,
        elements_wf(old(es)@, text.len() as nat),
        markup_ok(text@, old(es)@),
        top_level_before(old(es)@, pos as int),
    ensures
        pos < r <= text.len(),
        r == text.len() || text@[r - 1] == 10u8,
        sep <= r,
        elements_wf(final(es)@, text.len() as nat),
        markup_ok(text@, final(es)@),
        adds_block(old(es)@, final(es)@, None, pos as int, r as int, text@),
{
    let ghost es0 = es@;
    let n = text.len();
    let sep_cells = row_cells(text, sep, se);
    let mut alignments: Vec<Alignment> = Vec::new();
    let mut k: usize = 0;
    while k < sep_cells.len()
        invariant
            k <= sep_cells.len(),
            se <= text.len(),
            forall|m: int| 0 <= m < sep_cells.len() ==> sep <= #[trigger] sep_cells@[m].start <= sep_cells@[m].end <= se,
        decreases sep_cells.len() - k,
    {
        alignments.push(alignment_of(text, sep_cells[k]));
        k = k + 1;
    }
    let mut last = se;
    let mut q = next_line(text, se);
    while q < n
        invariant
            (q == last + 1 && last < n && text@[last as int] == 10u8) || (last == n && q == n),
            se <= last,
            n == text.len(),
        decreases n - q,
    {
        let le = line_end(text, q);
        if is_blank(text, q, le) || !has_byte(text, q, le, 124u8) {
            break;
        }
        last = le;
        q = next_line(text, le);
    }
    let kind = ElementKind::Table { alignments };
    match append_element(es, n, kind, Span { start: pos, end: last }, None) {
        Some(table) => {
            let ghost es1 = es@;
            push_row(text, es, pos, e, true, table);
            let mut l = next_line(text, se);
            while l < last
                invariant
                    l <= n == text.len(),
                    last <= n,
                    elements_wf(es@, n as nat),
                    markup_ok(text@, es@),
                    adds_children(es1, es@),
                    es1.len() == es0.len() + 1,
                    table == es0.len(),
                    forall|m: int| es1.len() <= m < es@.len() ==> (#[trigger] es@[m]).parent.unwrap() >= es0.len(),
                decreases n - l,
            {
                let le = line_end(text, l);
                let ghost before = es@;
                push_row(text, es, l, le, false, table);
                assert forall|m: int| es1.len() <= m < es@.len() implies (#[trigger] es@[m]).parent.unwrap() >= es0.len() by {
                    if m < before.len() {
                        assert(es@[m] == before[m]);
                    }
                }
                l = next_line(text, le);
            }
        },
        None => {},
    }
    let r = next_line(text, last);
    assert(forall|k: int| last <= k < r ==> !is_content_byte(#[trigger] text@[k]));
    r
}

/// What parsing `text` guarantees of `doc`: it is well formed over `text`;
/// every byte that is not whitespace lies in a top-level block, and text of
/// whitespace only gives no elements; a code block stands alone, with no
/// children and no byte shared with another element; every inline element
/// shows the markup of its kind.
pub open spec fn parse_ok(doc: Document, text: Seq<u8>) -> bool {
    let es = doc.elements_spec();
    &&& doc.wf()
    &&& doc.source_len_spec() == text.len()
    &&& forall|k: int| 0 <= k < text.len() && is_content_byte(#[trigger] text[k]) ==> covered(es, k)
    &&& (forall|k: int| 0 <= k < text.len() ==> !is_content_byte(#[trigger] text[k])) ==> es.len() == 0
    &&& forall|c: int| 0 <= c < es.len() && (#[trigger] es[c].kind) is CodeBlock ==> code_block_alone(es, c)
    &&& markup_ok(text, es)
    &&& blocks_classified(text, es)
    &&& blocks_start_lines(text, es)
}

/// How a top-level element's first line decides its kind: a code fence makes
/// a code block; a heading marker of level `k` makes a heading of level `k`
/// over that line; a `>` makes a block quote; a bullet marker makes an
/// unordered list of depth 1; a line that opens no block starts a paragraph.
pub open spec fn first_line_kind(text: Seq<u8>, b: Element, c: int, e: int) -> bool {
    &&& fence_marker(text, c, e) ==> b.kind is CodeBlock
    &&& forall|k: int|
        heading_marker(text, c, e, k) ==> b.kind == (ElementKind::Heading { level: k as u8 })
            && b.span.end == e
    &&& text[c] == 62u8 ==> b.kind == ElementKind::BlockQuote
    &&& bullet_marker(text, c, e) ==> b.kind == (ElementKind::List { ordered: false, depth: 1 })
    &&& plain_line(text, c, e) ==> b.kind == ElementKind::Paragraph
}

/// `p` is the start of a line that is not blank.
pub open spec fn starts_line(text: Seq<u8>, p: int) -> bool {
    &&& p == 0 || (0 < p <= text.len() && text[p - 1] == 10u8)
    &&& exists|c: int, e: int| line_at(text, p, c, e)
}

/// Every top-level element starts a line that is not blank.
pub open spec fn blocks_start_lines(text: Seq<u8>, es: Seq<Element>) -> bool {
    forall|i: int|
        0 <= i < es.len() && (#[trigger] es[i]).parent.is_none() ==> starts_line(
            text,
            es[i].span.start as int,
        )
}

/// Every top-level element has the kind that its first line decides.
pub open spec fn blocks_classified(text: Seq<u8>, es: Seq<Element>) -> bool {
    forall|i: int, c: int, e: int|
        #![trigger es[i], line_at(text, es[i].span.start as int, c, e)]
        0 <= i < es.len() && es[i].parent.is_none() && line_at(text, es[i].span.start as int, c, e)
            ==> first_line_kind(text, es[i], c, e)
}

/// Parses Markdown source. Parsing never fails: text that is not markup, and
/// markup without its closing part, become literal text.
#[verifier::rlimit(100)]
pub fn parse(text: &[u8]) -> (doc: Document)
    ensures
        parse_ok(doc, text@),
{
    let n = text.len();
    let mut es: Vec<Element> = Vec::new();
    let mut pos: usize = 0;
    while pos < n
        invariant
            pos <= n == text.len(),
            elements_wf(es@, n as nat),
            markup_ok(text@, es@),
            top_level_before(es@, pos as int),
            forall|k: int| 0 <= k < pos && is_content_byte(#[trigger] text@[k]) ==> covered(es@, k),
            es@.len() > 0 ==> exists|k: int| 0 <= k < pos && is_content_byte(#[trigger] text@[k]),
            code_blocks_childless(es@),
            blocks_classified(text@, es@),
            blocks_start_lines(text@, es@),
            pos == 0 || pos == n || text@[pos - 1] == 10u8,
        decreases n - pos,
    {
        let e = line_end(text, pos);
        let c = skip_spaces(text, pos, e);
        if c == e || is_blank(text, pos, e) {
            let next = next_line(text, e);
            assert forall|k: int| 0 <= k < next && is_content_byte(#[trigger] text@[k]) implies covered(
                es@,
                k,
            ) by {
                if k >= pos {
                    assert(k < e);
                }
            }
            pos = next;
        } else {
            let ghost old_es = es@;
            let ghost w = choose|w: int| pos <= w < e && !is_blank_byte(#[trigger] text@[w]);
            assert(is_content_byte(text@[w]));
            let r = parse_block(text, &mut es, pos, e, c);
            proof {
                assert forall|i: int|
                    0 <= i < es@.len() && (#[trigger] es@[i]).parent.is_none() implies starts_line(
                    text@,
                    es@[i].span.start as int,
                ) by {
                    if i < old_es.len() {
                        assert(es@[i] == old_es[i]);
                    } else if i == old_es.len() {
                        assert(line_at(text@, pos as int, c as int, e as int));
                    }
                }
                assert forall|i: int, c2: int, e2: int|
                    0 <= i < es@.len() && es@[i].parent.is_none() && line_at(
                        text@,
                        es@[i].span.start as int,
                        c2,
                        e2,
                    ) implies first_line_kind(text@, es@[i], c2, e2) by {
                    if i < old_es.len() {
                        assert(es@[i] == old_es[i]);
                        assert(old_es[i] == es@[i]);
                    } else if i == old_es.len() {
                        assert(line_at(text@, pos as int, c as int, e as int));
                        lemma_line_at_unique(text@, pos as int, c as int, e as int, c2, e2);
                    }
                }
            }
            pos = r;
        }
    }
    assert forall|c: int|
        0 <= c < es@.len() && (#[trigger] es@[c].kind) is CodeBlock implies code_block_alone(es@, c) by {
        assert forall|j: int| 0 <= j < es@.len() && j != c implies (#[trigger] es@[j].span).end
            <= es@[c].span.start || es@[j].span.start >= es@[c].span.end by {
            lemma_childless_top_disjoint(es@, n as nat, c, j);
        }
    }
    Document::from_elements(es, n)
}

} // verus!
