//! The element model: a parsed document is a tree of typed Markdown elements,
//! stored in document order (pre-order) with each element naming its parent.
//! Every element carries the byte span of the source text it was parsed from.
use vstd::prelude::*;

verus! {

/// A half-open range `start..end` of byte offsets into the source text.
#[derive(Debug, Clone, Copy, PartialEq, Eq, Structural)]
pub struct Span {
    pub start: usize,
    pub end: usize,
}

/// Alignment of a table column, from its separator cell (`:--`, `:-:`, `--:`).
#[derive(Debug, Clone, Copy, PartialEq, Eq, Structural)]
pub enum Alignment {
    Unspecified,
    Left,
    Center,
    Right,
}

/// What an element is. Text-bearing kinds refer to the source through spans.
#[derive(Debug, Clone, PartialEq, Eq)]
pub enum ElementKind {
    /// `#` to `######`; the inline content is in the children.
    Heading { level: u8 },
    Paragraph,
    /// A fenced code block; `language` is the info string, `code` the lines
    /// between the fences.
    CodeBlock { language: Span, code: Span },
    /// A list whose items are its children; the outermost list has depth 1.
    List { ordered: bool, depth: usize },
    /// A list item; `checked` is the state of a task checkbox, if it has one.
    ListItem { checked: Option<bool> },
    BlockQuote,
    ThematicBreak,
    /// A table; its rows are its children, the header row first.
    Table { alignments: Vec<Alignment> },
    TableRow { header: bool },
    TableCell,
    /// Literal text: the bytes of its span.
    Text,
    Emphasis,
    Strong,
    /// An inline code span; `code` is the text between the backtick runs.
    Code { code: Span },
    Link { text: Span, destination: Span },
    Image { alt: Span, destination: Span },
    LineBreak,
}

#[derive(Debug, Clone, PartialEq, Eq)]
pub struct Element {
    pub kind: ElementKind,
    pub span: Span,
    /// Index of the parent element; `None` for a top-level block.
    pub parent: Option<usize>,
}

/// Whether `a` lies within `b`.
pub open spec fn span_within(a: Span, b: Span) -> bool {
    b.start <= a.start && a.end <= b.end
}

/// The structural invariant of a document of `n` source bytes: spans lie in the
/// source; a parent comes before its children and contains their spans; elements
/// with the same parent start at strictly increasing offsets and do not overlap.
pub open spec fn elements_wf(es: Seq<Element>, n: nat) -> bool {
    &&& forall|i: int| 0 <= i < es.len() ==> #[trigger] es[i].span.start <= es[i].span.end <= n
    &&& forall|i: int|
        0 <= i < es.len() && (#[trigger] es[i].parent).is_some() ==> {
            let p = es[i].parent.unwrap() as int;
            p < i && span_within(es[i].span, es[p].span)
        }
    &&& forall|i: int, j: int|
        0 <= i < j < es.len() && #[trigger] es[i].parent == #[trigger] es[j].parent
            ==> es[i].span.end <= es[j].span.start && es[i].span.start < es[j].span.start
}

/// Whether an element with this span and parent may be appended to `es`.
pub open spec fn can_append(es: Seq<Element>, n: nat, span: Span, parent: Option<usize>) -> bool {
    &&& span.start <= span.end <= n
    &&& parent.is_some() ==> parent.unwrap() < es.len() && span_within(
        span,
        es[parent.unwrap() as int].span,
    )
    &&& forall|i: int|
        0 <= i < es.len() && #[trigger] es[i].parent == parent ==> es[i].span.end <= span.start
            && es[i].span.start < span.start
}

pub fn same_parent(a: Option<usize>, b: Option<usize>) -> (r: bool)
    ensures
        r == (a == b),
{
    match (a, b) {
        (None, None) => true,
        (Some(x), Some(y)) => x == y,
        _ => false,
    }
}

/// Whether every element of `es` with the given parent starts before `start`
/// and ends at or before it.
/// Siblings end in increasing order, so only the last one needs checking.
fn after_siblings(es: &Vec<Element>, n: usize, start: usize, parent: Option<usize>) -> (ok: bool)
    requires
        elements_wf(es@, n as nat),
    ensures
        ok == forall|i: int|
            0 <= i < es.len() && #[trigger] es@[i].parent == parent ==> es@[i].span.end <= start
                && es@[i].span.start < start,
{
    let mut k: usize = es.len();
    while k > 0
        invariant
            k <= es.len(),
            elements_wf(es@, n as nat),
            forall|i: int| k <= i < es.len() ==> #[trigger] es@[i].parent != parent,
        decreases k,
    {
        k = k - 1;
        if same_parent(es[k].parent, parent) {
            let ok = es[k].span.end <= start && es[k].span.start < start;
            assert forall|i: int|
                0 <= i < es.len() && #[trigger] es@[i].parent == parent && ok implies es@[i].span.end
                <= start && es@[i].span.start < start by {
                if i < k {
                    assert(es@[i].parent == es@[k as int].parent);
                    assert(es@[i].span.end <= es@[k as int].span.start);
                    assert(es@[k as int].span.start <= es@[k as int].span.end);
                }
            }
            return ok;
        }
    }
    true
}

/// Appends an element when doing so keeps the invariant, and returns its index;
/// otherwise leaves `es` unchanged and returns `None`.
pub fn append_element(
    es: &mut Vec<Element>,
    n: usize,
    kind: ElementKind,
    span: Span,
    parent: Option<usize>,
) -> (r: Option<usize>)
    requires
        elements_wf(old(es)@, n as nat),
    ensures
        elements_wf(final(es)@, n as nat),
        r.is_some() == can_append(old(es)@, n as nat, span, parent),
        r.is_some() ==> r == Some(old(es).len()) && final(es)@ == old(es)@.push(
            (Element { kind, span, parent }),
        ),
        r.is_none() ==> final(es)@ == old(es)@,
{
    if span.start > span.end || span.end > n {
        return None;
    }
    match parent {
        Some(p) => {
            if p >= es.len() {
                return None;
            }
            let ps = es[p].span;
            if span.start < ps.start || span.end > ps.end {
                return None;
            }
        },
        None => {},
    }
    if !after_siblings(es, n, span.start, parent) {
        return None;
    }
    let ghost old_es = es@;
    let idx = es.len();
    es.push(Element { kind, span, parent });
    assert(es@[idx as int] == (Element { kind, span, parent }));
    assert forall|i: int, j: int|
        0 <= i < j < es@.len() && #[trigger] es@[i].parent == #[trigger] es@[j].parent
            implies es@[i].span.end <= es@[j].span.start && es@[i].span.start
            < es@[j].span.start by {
        if j < idx {
            assert(old_es[i] == es@[i] && old_es[j] == es@[j]);
        } else {
            assert(old_es[i] == es@[i]);
        }
    }
    assert forall|i: int|
        0 <= i < es@.len() && (#[trigger] es@[i].parent).is_some() implies {
            let p = es@[i].parent.unwrap() as int;
            p < i && span_within(es@[i].span, es@[p].span)
        } by {
        if i < idx {
            assert(old_es[i] == es@[i]);
            assert(old_es[es@[i].parent.unwrap() as int] == es@[es@[i].parent.unwrap() as int]);
        } else {
            assert(old_es[parent.unwrap() as int] == es@[parent.unwrap() as int]);
        }
    }
    Some(idx)
}

/// A parsed document: its elements in document order, and the length of the
/// source text that their spans refer to.
pub struct Document {
    elements: Vec<Element>,
    source_len: usize,
}

impl Document {
    pub closed spec fn elements_spec(&self) -> Seq<Element> {
        self.elements@
    }

    pub closed spec fn source_len_spec(&self) -> nat {
        self.source_len as nat
    }

    pub open spec fn wf(&self) -> bool {
        elements_wf(self.elements_spec(), self.source_len_spec())
    }

    pub(crate) fn from_elements(elements: Vec<Element>, source_len: usize) -> (r: Document)
        requires
            elements_wf(elements@, source_len as nat),
        ensures
            r.wf(),
            r.elements_spec() == elements@,
            r.source_len_spec() == source_len,
    {
        Document { elements, source_len }
    }

    /// Number of elements, at all levels.
    pub fn len(&self) -> (r: usize)
        ensures
            r == self.elements_spec().len(),
    {
        self.elements.len()
    }

    pub fn element(&self, i: usize) -> (r: &Element)
        requires
            i < self.elements_spec().len(),
        ensures
            *r == self.elements_spec()[i as int],
    {
        &self.elements[i]
    }

    pub fn source_len(&self) -> (r: usize)
        ensures
            r == self.source_len_spec(),
    {
        self.source_len
    }

    /// Indices of the elements whose parent is `parent` (`None`: the top-level
    /// blocks), in document order.
    pub fn children(&self, parent: Option<usize>) -> (r: Vec<usize>)
        ensures
            forall|k: int| 0 <= k < r.len() ==> #[trigger] r@[k] < self.elements_spec().len()
                && self.elements_spec()[r@[k] as int].parent == parent,
            forall|k: int, l: int| 0 <= k < l < r.len() ==> r@[k] < r@[l],
            forall|i: int|
                0 <= i < self.elements_spec().len() && #[trigger] self.elements_spec()[i].parent
                    == parent ==> r@.contains(i as usize),
    {
        let mut r: Vec<usize> = Vec::new();
        let mut i: usize = 0;
        while i < self.elements.len()
            invariant
                i <= self.elements.len(),
                forall|k: int| 0 <= k < r.len() ==> #[trigger] r@[k] < i
                    && self.elements@[r@[k] as int].parent == parent,
                forall|k: int, l: int| 0 <= k < l < r.len() ==> r@[k] < r@[l],
                forall|j: int|
                    0 <= j < i && #[trigger] self.elements@[j].parent == parent ==> r@.contains(
                        j as usize,
                    ),
            decreases self.elements.len() - i,
        {
            if same_parent(self.elements[i].parent, parent) {
                let ghost before = r@;
                r.push(i);
                assert forall|j: int|
                    0 <= j < i + 1 && #[trigger] self.elements@[j].parent == parent implies r@.contains(
                    j as usize) by {
                    if j < i {
                        let w = choose|w: int| 0 <= w < before.len() && before[w] == j as usize;
                        assert(r@[w] == j as usize);
                    } else {
                        assert(r@[r.len() - 1] == j as usize);
                    }
                }
            } else {
                assert forall|j: int|
                    0 <= j < i + 1 && #[trigger] self.elements@[j].parent == parent implies r@.contains(
                    j as usize) by {
                    if j == i {
                        assert(false);
                    }
                }
            }
            i = i + 1;
        }
        r
    }
}

/// Every element's span lies within the span of its parent.
pub proof fn lemma_span_containment(doc: &Document, i: int)
    requires
        doc.wf(),
        0 <= i < doc.elements_spec().len(),
        doc.elements_spec()[i].parent.is_some(),
    ensures
        ({
            let es = doc.elements_spec();
            let p = es[i].parent.unwrap() as int;
            &&& p < i
            &&& es[p].span.start <= es[i].span.start
            &&& es[i].span.end <= es[p].span.end
        }),
{
    let es = doc.elements_spec();
    assert(es[i].parent.is_some());
}

/// A top-level element without children shares no byte with any other element:
/// other top-level elements are its siblings, and every nested element lies
/// within some other top-level element.
pub proof fn lemma_childless_top_disjoint(es: Seq<Element>, n: nat, c: int, j: int)
    requires
        elements_wf(es, n),
        0 <= c < es.len(),
        0 <= j < es.len(),
        j != c,
        es[c].parent.is_none(),
        forall|m: int| 0 <= m < es.len() ==> !(#[trigger] es[m].parent is Some && es[m].parent.unwrap() == c),
    ensures
        es[j].span.end <= es[c].span.start || es[j].span.start >= es[c].span.end,
    decreases j,
{
    assert(es[j].span.start <= es[j].span.end);
    assert(es[c].span.start <= es[c].span.end);
    if es[j].parent.is_none() {
        assert(es[j].parent == es[c].parent);
    } else {
        let p = es[j].parent.unwrap() as int;
        assert(p != c);
        lemma_childless_top_disjoint(es, n, c, p);
    }
}

/// Elements with the same parent (siblings) have spans that start at strictly
/// increasing offsets and do not overlap: an earlier sibling ends where or
/// before a later one starts.
pub proof fn lemma_sibling_order(doc: &Document, i: int, j: int)
    requires
        doc.wf(),
        0 <= i < j < doc.elements_spec().len(),
        doc.elements_spec()[i].parent == doc.elements_spec()[j].parent,
    ensures
        ({
            let es = doc.elements_spec();
            &&& es[i].span.end <= es[j].span.start
            &&& es[i].span.start < es[j].span.start
        }),
{
    let es = doc.elements_spec();
    assert(es[i].span.start <= es[i].span.end);
}

} // verus!
