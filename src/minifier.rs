//! Whitespace normalization of Markdown source, used to detect edits that
//! cannot change what the preview shows.
use vstd::prelude::*;

verus! {

/// Space, tab and carriage return: whitespace that may be trimmed at a line's end.
pub open spec fn is_blank_byte(b: u8) -> bool {
    b == 32u8 || b == 9u8 || b == 13u8
}

/// A byte that is neither a line feed nor trimmable whitespace.
pub open spec fn is_content_byte(b: u8) -> bool {
    b != 10u8 && !is_blank_byte(b)
}

/// `n` line feeds.
pub open spec fn breaks(n: nat) -> Seq<u8> {
    Seq::new(n, |i: int| 10u8)
}

/// State of the normalizer after a prefix of the input: the text emitted so far,
/// the number of line feeds seen since the last content byte, and the whitespace
/// seen since the last line feed (held back until content follows it).
pub open spec fn norm_step(st: (Seq<u8>, nat, Seq<u8>), b: u8) -> (Seq<u8>, nat, Seq<u8>) {
    if b == 10u8 {
        (st.0, st.1 + 1, Seq::<u8>::empty())
    } else if is_blank_byte(b) {
        (st.0, st.1, st.2.push(b))
    } else {
        let k: nat = if st.0.len() == 0 { 0 } else if st.1 >= 2 { 2 } else { st.1 };
        (st.0 + breaks(k) + st.2.push(b), 0, Seq::<u8>::empty())
    }
}

pub open spec fn norm_state(s: Seq<u8>) -> (Seq<u8>, nat, Seq<u8>)
    decreases s.len(),
{
    if s.len() == 0 {
        (Seq::<u8>::empty(), 0, Seq::<u8>::empty())
    } else {
        norm_step(norm_state(s.drop_last()), s.last())
    }
}

/// The normal form of a text: whitespace at the end of each line removed, line
/// endings reduced to line feeds, runs of blank lines collapsed to a single blank
/// line, and blank lines at the start and end dropped. Every other byte is kept,
/// in order.
pub open spec fn normalized(s: Seq<u8>) -> Seq<u8> {
    norm_state(s).0
}

/// A text that normalization leaves unchanged.
pub open spec fn is_normal(s: Seq<u8>) -> bool {
    &&& s.len() > 0 ==> is_content_byte(s.last())
    &&& s.len() > 0 ==> s[0] != 10u8
    &&& forall|i: int| 0 <= i < s.len() - 1 && s[i + 1] == 10u8 ==> !is_blank_byte(#[trigger] s[i])
    &&& forall|i: int|
        0 <= i < s.len() - 2 && #[trigger] s[i] == 10u8 && s[i + 1] == 10u8 ==> s[i + 2] != 10u8
}

proof fn lemma_append_piece(out: Seq<u8>, k: nat, ws: Seq<u8>, b: u8)
    requires
        is_normal(out),
        out.len() == 0 ==> k == 0,
        k <= 2,
        forall|j: int| 0 <= j < ws.len() ==> is_blank_byte(#[trigger] ws[j]),
        is_content_byte(b),
    ensures
        is_normal(out + breaks(k) + ws.push(b)),
{
    let r = out + breaks(k) + ws.push(b);
    let n = out.len() as int;
    let m = n + k;
    assert(r.len() == m + ws.len() + 1);
    assert forall|i: int| 0 <= i < r.len() implies #[trigger] r[i] == (if i < n {
        out[i]
    } else if i < m {
        10u8
    } else if i < m + ws.len() {
        ws[i - m]
    } else {
        b
    }) by {}
    assert forall|i: int| 0 <= i < r.len() - 1 && r[i + 1] == 10u8 implies !is_blank_byte(
        #[trigger] r[i],
    ) by {
        if i + 1 >= m {
            assert(false);
        }
        if i == n - 1 {
            assert(is_content_byte(out.last()));
        }
    }
    assert forall|i: int|
        0 <= i < r.len() - 2 && #[trigger] r[i] == 10u8 && r[i + 1] == 10u8 implies r[i + 2]
        != 10u8 by {
        if i + 2 < n {
        } else if i < n {
            if i + 1 < n {
                assert(out[i + 1] == 10u8);
                assert(i + 1 == n - 1);
            } else {
                assert(out[i] == 10u8);
                assert(i == n - 1);
            }
        } else {
            assert(i + 2 >= m);
        }
    }
}

proof fn lemma_norm_state_normal(s: Seq<u8>)
    ensures
        is_normal(norm_state(s).0),
        forall|j: int|
            0 <= j < norm_state(s).2.len() ==> is_blank_byte(#[trigger] norm_state(s).2[j]),
    decreases s.len(),
{
    if s.len() > 0 {
        lemma_norm_state_normal(s.drop_last());
        let st = norm_state(s.drop_last());
        let b = s.last();
        if b != 10u8 && !is_blank_byte(b) {
            let k: nat = if st.0.len() == 0 { 0 } else if st.1 >= 2 { 2 } else { st.1 };
            lemma_append_piece(st.0, k, st.2, b);
        } else if is_blank_byte(b) {
            let w = st.2.push(b);
            assert forall|j: int| 0 <= j < w.len() implies is_blank_byte(#[trigger] w[j]) by {
                if j < st.2.len() {
                    assert(w[j] == st.2[j]);
                }
            }
        }
    }
}

proof fn lemma_normal_prefix(s: Seq<u8>, i: int)
    requires
        is_normal(s),
        0 <= i <= s.len(),
    ensures
        ({
            let st = norm_state(s.take(i));
            &&& s.take(i) == st.0 + breaks(st.1) + st.2
            &&& st.1 <= 2
            &&& st.0.len() == 0 ==> st.1 == 0
            &&& st.0.len() > 0 ==> is_content_byte(st.0.last())
            &&& forall|j: int| 0 <= j < st.2.len() ==> is_blank_byte(#[trigger] st.2[j])
        }),
    decreases i,
{
    if i == 0 {
        assert(s.take(0) =~= Seq::<u8>::empty() + breaks(0) + Seq::<u8>::empty());
    } else {
        lemma_normal_prefix(s, i - 1);
        let p = s.take(i - 1);
        assert(s.take(i).drop_last() =~= p);
        let st = norm_state(p);
        let b = s[i - 1];
        assert(s.take(i) =~= p.push(b));
        assert(norm_state(s.take(i)) == norm_step(st, b));
        let n = st.0.len() as int;
        let m = n + st.1;
        assert(p.len() == m + st.2.len());
        if b == 10u8 {
            if st.2.len() > 0 {
                assert(p[i - 2] == st.2.last());
                assert(s[i - 2] == p[i - 2]);
                assert(false);
            }
            if st.1 == 2 {
                assert(p[i - 2] == 10u8);
                assert(p[i - 3] == 10u8);
                assert(s[i - 3] == 10u8 && s[i - 2] == 10u8);
                assert(false);
            }
            if n == 0 && st.1 == 0 {
                assert(false);
            }
            assert(s.take(i) =~= st.0 + breaks(st.1 + 1) + Seq::<u8>::empty());
        } else if is_blank_byte(b) {
            assert(s.take(i) =~= st.0 + breaks(st.1) + st.2.push(b));
        } else {
            assert(s.take(i) =~= st.0 + breaks(st.1) + st.2.push(b));
            let r = st.0 + breaks(st.1) + st.2.push(b);
            assert(r.last() == b);
        }
    }
}

/// Normalization reaches a fixed point in one pass: normalizing an already
/// normalized text gives it back unchanged.
pub proof fn lemma_normalize_idempotent(s: Seq<u8>)
    ensures
        normalized(normalized(s)) == normalized(s),
{
    lemma_norm_state_normal(s);
    let t = normalized(s);
    lemma_normal_prefix(t, t.len() as int);
    assert(t.take(t.len() as int) =~= t);
    let st = norm_state(t);
    if st.1 > 0 || st.2.len() > 0 {
        let tail = breaks(st.1) + st.2;
        assert(t.last() == (st.0 + tail)[t.len() - 1]);
        assert(false);
    }
    assert(t =~= st.0);
}

/// The bytes of `s` that are neither whitespace nor line feeds, in order.
pub open spec fn content_of(s: Seq<u8>) -> Seq<u8>
    decreases s.len(),
{
    if s.len() == 0 {
        Seq::<u8>::empty()
    } else {
        content_of(s.drop_last()) + if is_content_byte(s.last()) {
            seq![s.last()]
        } else {
            Seq::<u8>::empty()
        }
    }
}

proof fn lemma_content_of_add(a: Seq<u8>, b: Seq<u8>)
    ensures
        content_of(a + b) == content_of(a) + content_of(b),
    decreases b.len(),
{
    if b.len() == 0 {
        assert(a + b =~= a);
        assert(content_of(a) + content_of(b) =~= content_of(a));
    } else {
        assert((a + b).drop_last() =~= a + b.drop_last());
        lemma_content_of_add(a, b.drop_last());
        assert((a + b).last() == b.last());
        let tail = if is_content_byte(b.last()) {
            seq![b.last()]
        } else {
            Seq::<u8>::empty()
        };
        assert(content_of(a) + content_of(b.drop_last()) + tail =~= content_of(a) + (content_of(
            b.drop_last(),
        ) + tail));
    }
}

proof fn lemma_content_of_breaks(k: nat)
    ensures
        content_of(breaks(k)) == Seq::<u8>::empty(),
    decreases k,
{
    if k > 0 {
        assert(breaks(k).drop_last() =~= breaks((k - 1) as nat));
        lemma_content_of_breaks((k - 1) as nat);
        assert(content_of(breaks(k)) =~= Seq::<u8>::empty());
    }
}

proof fn lemma_norm_state_content(s: Seq<u8>)
    ensures
        content_of(norm_state(s).0) == content_of(s),
        content_of(norm_state(s).2) == Seq::<u8>::empty(),
    decreases s.len(),
{
    if s.len() == 0 {
        assert(content_of(Seq::<u8>::empty()) == Seq::<u8>::empty());
    } else {
        let p = s.drop_last();
        lemma_norm_state_content(p);
        let st = norm_state(p);
        let b = s.last();
        if b == 10u8 {
            assert(content_of(s) =~= content_of(p));
            assert(content_of(Seq::<u8>::empty()) == Seq::<u8>::empty());
        } else if is_blank_byte(b) {
            assert(content_of(s) =~= content_of(p));
            assert(st.2.push(b).drop_last() =~= st.2);
            assert(content_of(st.2.push(b)) =~= Seq::<u8>::empty());
        } else {
            let k: nat = if st.0.len() == 0 { 0 } else if st.1 >= 2 { 2 } else { st.1 };
            assert(st.2.push(b).drop_last() =~= st.2);
            assert(content_of(st.2.push(b)) =~= seq![b]);
            lemma_content_of_add(st.0, breaks(k));
            lemma_content_of_add(st.0 + breaks(k), st.2.push(b));
            lemma_content_of_breaks(k);
            assert(content_of(st.0) + Seq::<u8>::empty() =~= content_of(st.0));
            assert(content_of(Seq::<u8>::empty()) == Seq::<u8>::empty());
        }
    }
}

/// Normalization keeps every byte that is not whitespace, in order: it only
/// removes or reduces spaces, tabs, carriage returns and line feeds.
pub proof fn lemma_normalize_keeps_content(s: Seq<u8>)
    ensures
        content_of(normalized(s)) == content_of(s),
{
    lemma_norm_state_content(s);
}

/// Texts whose bytes other than whitespace differ normalize differently, so a
/// change of content or of Markdown syntax is never taken for no change.
pub proof fn lemma_content_change_detected(a: Seq<u8>, b: Seq<u8>)
    requires
        content_of(a) != content_of(b),
    ensures
        normalized(a) != normalized(b),
{
    lemma_normalize_keeps_content(a);
    lemma_normalize_keeps_content(b);
}

/// Normalizes `text` (see `normalized`).
pub fn normalize(text: &[u8]) -> (r: Vec<u8>)
    ensures
        r@ == normalized(text@),
{
    let mut out: Vec<u8> = Vec::new();
    let mut nl: usize = 0;
    let mut ws: Vec<u8> = Vec::new();
    let mut i: usize = 0;
    while i < text.len()
        invariant
            i <= text.len(),
            nl <= i,
            (out@, nl as nat, ws@) == norm_state(text@.take(i as int)),
        decreases text.len() - i,
    {
        let b = text[i];
        assert(text@.take(i + 1).drop_last() =~= text@.take(i as int));
        if b == 10u8 {
            nl = nl + 1;
            ws = Vec::new();
        } else if b == 32u8 || b == 9u8 || b == 13u8 {
            ws.push(b);
        } else {
            let ghost old_out = out@;
            let k: usize = if out.len() == 0 { 0 } else if nl >= 2 { 2 } else { nl };
            let mut j: usize = 0;
            while j < k
                invariant
                    j <= k,
                    out@ == old_out + breaks(j as nat),
                decreases k - j,
            {
                out.push(10u8);
                j = j + 1;
                assert(out@ =~= old_out + breaks(j as nat));
            }
            let mut j: usize = 0;
            let ghost mid = out@;
            while j < ws.len()
                invariant
                    j <= ws.len(),
                    out@ == mid + ws@.take(j as int),
                decreases ws.len() - j,
            {
                out.push(ws[j]);
                j = j + 1;
                assert(out@ =~= mid + ws@.take(j as int));
            }
            out.push(b);
            assert(out@ =~= old_out + breaks(k as nat) + ws@.push(b));
            nl = 0;
            ws = Vec::new();
        }
        i = i + 1;
    }
    assert(text@.take(text.len() as int) =~= text@);
    out
}

/// Whether a new text may change the preview, given the normal forms of the
/// text last parsed and of the new text.
pub fn should_reparse(old_normalized: &[u8], new_normalized: &[u8]) -> (r: bool)
    ensures
        r == (old_normalized@ != new_normalized@),
{
    if old_normalized.len() != new_normalized.len() {
        return true;
    }
    let mut i: usize = 0;
    while i < old_normalized.len()
        invariant
            i <= old_normalized.len(),
            old_normalized.len() == new_normalized.len(),
            old_normalized@.take(i as int) == new_normalized@.take(i as int),
        decreases old_normalized.len() - i,
    {
        if old_normalized[i] != new_normalized[i] {
            return true;
        }
        assert(old_normalized@.take(i + 1) =~= new_normalized@.take(i + 1));
        i = i + 1;
    }
    assert(old_normalized@ =~= old_normalized@.take(i as int));
    assert(new_normalized@ =~= new_normalized@.take(i as int));
    false
}

} // verus!
