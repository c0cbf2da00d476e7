//! The sync controller: keeps the current generation (document, render nodes,
//! offset map) for the latest meaningful text, and translates scroll positions
//! between editor and preview.
use vstd::prelude::*;
use crate::elements::Document;
use crate::minifier::{normalize, normalized, should_reparse};
use crate::parser::{parse, parse_ok};
use crate::renderer::{offset_for_row, render, render_ok, row_for_offset, OffsetMap, RenderNode};

verus! {

#[derive(Debug, Clone, Copy, PartialEq, Eq, Structural)]
pub enum SyncState {
    /// No text has been submitted yet.
    Idle,
    /// A new text is being parsed; scroll events wait for it.
    Parsing,
    /// The current generation reflects the latest submitted text.
    Synced,
}

/// A scroll or cursor movement on one side.
#[derive(Debug, Clone, Copy, PartialEq, Eq, Structural)]
pub enum ScrollEvent {
    /// The editor's cursor moved to this byte offset.
    EditorOffset(usize),
    /// The preview scrolled to this row.
    PreviewRow(usize),
}

/// What the host is asked to do in answer to a scroll event.
#[derive(Debug, Clone, Copy, PartialEq, Eq, Structural)]
pub enum ScrollCommand {
    ScrollPreviewToRow(usize),
    ScrollEditorToOffset(usize),
}

/// One complete parse and render cycle.
pub struct Generation {
    pub id: u64,
    pub document: Document,
    pub nodes: Vec<RenderNode>,
    pub map: OffsetMap,
}

/// The answer to `event` from the offset map `map`.
pub open spec fn answers(map: OffsetMap, event: ScrollEvent, cmd: ScrollCommand) -> bool {
    match (event, cmd) {
        (ScrollEvent::EditorOffset(o), ScrollCommand::ScrollPreviewToRow(r)) => row_for_offset(
            map.offsets_spec(),
            map.rows_spec(),
            o as int,
            r as int,
        ),
        (ScrollEvent::PreviewRow(r), ScrollCommand::ScrollEditorToOffset(o)) => offset_for_row(
            map.offsets_spec(),
            map.rows_spec(),
            r as int,
            o as int,
        ),
        _ => false,
    }
}

pub struct SyncController {
    state: SyncState,
    generation: u64,
    normalized: Vec<u8>,
    current: Option<Generation>,
    pending: Option<ScrollEvent>,
}

/// What a call of `submit_text` with `text` does to a controller whose state
/// before is `(generation, normalized text, has a generation)` and after is
/// `(generation2, normalized2)`, with `published` its result.
pub open spec fn submit_step(
    generation: u64,
    norm: Seq<u8>,
    has_current: bool,
    text: Seq<u8>,
    generation2: u64,
    norm2: Seq<u8>,
    published: bool,
) -> bool {
    &&& published == (!has_current || norm != normalized(text))
    &&& published ==> generation2 == generation + 1 && norm2 == normalized(text)
    &&& !published ==> generation2 == generation && norm2 == norm
}

/// Replacing a text by another with the same normal form publishes no new
/// generation: after `a` was submitted (to a controller that had a generation,
/// or with a generation published), submitting `b` publishes nothing and keeps
/// the generation number.
pub proof fn lemma_change_gate(
    gen_before: u64,
    norm_before: Seq<u8>,
    had_current: bool,
    a: Seq<u8>,
    gen_after_a: u64,
    norm_after_a: Seq<u8>,
    published_a: bool,
    b: Seq<u8>,
    gen_after_b: u64,
    norm_after_b: Seq<u8>,
    published_b: bool,
)
    requires
        submit_step(
            gen_before,
            norm_before,
            had_current,
            a,
            gen_after_a,
            norm_after_a,
            published_a,
        ),
        had_current || published_a,
        submit_step(gen_after_a, norm_after_a, true, b, gen_after_b, norm_after_b, published_b),
        normalized(a) == normalized(b),
    ensures
        !published_b,
        gen_after_b == gen_after_a,
{
}

impl SyncController {
    pub closed spec fn state_spec(&self) -> SyncState {
        self.state
    }

    pub closed spec fn generation_spec(&self) -> u64 {
        self.generation
    }

    /// The normal form of the text behind the current generation.
    pub closed spec fn normalized_spec(&self) -> Seq<u8> {
        self.normalized@
    }

    pub closed spec fn has_current(&self) -> bool {
        self.current.is_some()
    }

    pub closed spec fn map_spec(&self) -> OffsetMap {
        self.current.unwrap().map
    }

    pub closed spec fn pending_spec(&self) -> Option<ScrollEvent> {
        self.pending
    }

    pub closed spec fn wf(&self) -> bool {
        &&& (self.current.is_some() <==> self.state != SyncState::Idle)
        &&& self.current.is_some() ==> self.current.unwrap().map.wf() && self.current.unwrap().id
            == self.generation
    }

    pub fn new() -> (r: SyncController)
        ensures
            r.wf(),
            r.state_spec() == SyncState::Idle,
            r.generation_spec() == 0,
            !r.has_current(),
            r.pending_spec().is_none(),
    {
        SyncController {
            state: SyncState::Idle,
            generation: 0,
            normalized: Vec::new(),
            current: None,
            pending: None,
        }
    }

    pub fn state(&self) -> (r: SyncState)
        ensures
            r == self.state_spec(),
    {
        self.state
    }

    pub fn generation(&self) -> (r: u64)
        ensures
            r == self.generation_spec(),
    {
        self.generation
    }

    /// Whether output tagged with `generation` is still current.
    pub fn is_current(&self, generation: u64) -> (r: bool)
        ensures
            r == (self.has_current() && generation == self.generation_spec()),
    {
        self.current.is_some() && generation == self.generation
    }

    /// The host has started work on a changed buffer: scroll events wait until
    /// the next text is submitted.
    pub fn begin_parse(&mut self)
        requires
            old(self).wf(),
        ensures
            final(self).wf(),
            old(self).has_current() ==> final(self).state_spec() == SyncState::Parsing,
            !old(self).has_current() ==> final(self).state_spec() == SyncState::Idle,
            final(self).generation_spec() == old(self).generation_spec(),
            final(self).normalized_spec() == old(self).normalized_spec(),
            final(self).has_current() == old(self).has_current(),
            final(self).has_current() ==> final(self).map_spec() == old(self).map_spec(),
            final(self).pending_spec() == old(self).pending_spec(),
    {
        if self.current.is_some() {
            self.state = SyncState::Parsing;
        }
    }

    /// Submits the editor's text. When its normal form differs from that of
    /// the current generation's text, or there is none yet, the text is parsed
    /// and rendered into a new generation, which replaces the current one;
    /// otherwise nothing is redone. Returns whether a generation was published.
    /// A text that is not published keeps the current generation, whose spans
    /// and offset map refer to the text it was parsed from: after an edit that
    /// only changed whitespace (blank lines, trailing spaces), its offsets may
    /// lag behind the new text.
    pub fn submit_text(&mut self, text: &[u8]) -> (published: bool)
        requires
            old(self).wf(),
            old(self).has_current() && old(self).normalized_spec() == normalized(text@)
                || old(self).generation_spec() < u64::MAX,
        ensures
            final(self).wf(),
            submit_step(
                old(self).generation_spec(),
                old(self).normalized_spec(),
                old(self).has_current(),
                text@,
                final(self).generation_spec(),
                final(self).normalized_spec(),
                published,
            ),
            final(self).state_spec() == SyncState::Synced,
            final(self).has_current(),
            published ==> ({
                let g = final(self).current_spec();
                &&& g.id == final(self).generation_spec()
                &&& parse_ok(g.document, text@)
                &&& render_ok(g.document, text@, g.nodes@, g.map)
            }),
            !published ==> final(self).current_spec() == old(self).current_spec(),
            final(self).pending_spec() == old(self).pending_spec(),
    {
        let norm = normalize(text);
        let changed = match &self.current {
            Some(_) => should_reparse(&self.normalized, &norm),
            None => true,
        };
        if !changed {
            self.state = SyncState::Synced;
            return false;
        }
        assert(self.generation < u64::MAX) by {
            if self.current.is_some() {
                assert(self.normalized@ != norm@);
            }
        }
        let document = parse(text);
        let (nodes, map) = render(&document, text);
        self.generation = self.generation + 1;
        self.current = Some(Generation { id: self.generation, document, nodes, map });
        self.normalized = norm;
        self.state = SyncState::Synced;
        true
    }

    pub closed spec fn current_spec(&self) -> Generation {
        self.current.unwrap()
    }

    /// The render nodes of the current generation (none before the first).
    pub fn current_render_nodes(&self) -> (r: &[RenderNode])
        ensures
            self.has_current() ==> r@ == self.current_spec().nodes@,
            !self.has_current() ==> r@.len() == 0,
    {
        match &self.current {
            Some(g) => g.nodes.as_slice(),
            None => &[],
        }
    }

    /// The preview row for editor offset `offset`, from the current offset map
    /// (`None` before the first generation).
    pub fn offset_to_row(&self, offset: usize) -> (r: Option<usize>)
        requires
            self.wf(),
        ensures
            r.is_some() == self.has_current(),
            r.is_some() ==> row_for_offset(
                self.map_spec().offsets_spec(),
                self.map_spec().rows_spec(),
                offset as int,
                r.unwrap() as int,
            ),
    {
        match &self.current {
            Some(g) => Some(g.map.offset_to_row(offset)),
            None => None,
        }
    }

    /// The editor offset for preview row `row`, from the current offset map
    /// (`None` before the first generation).
    pub fn row_to_offset(&self, row: usize) -> (r: Option<usize>)
        requires
            self.wf(),
        ensures
            r.is_some() == self.has_current(),
            r.is_some() ==> offset_for_row(
                self.map_spec().offsets_spec(),
                self.map_spec().rows_spec(),
                row as int,
                r.unwrap() as int,
            ),
    {
        match &self.current {
            Some(g) => Some(g.map.row_to_offset(row)),
            None => None,
        }
    }

    /// A scroll or cursor event from either side. While synced it is answered
    /// from the current offset map; otherwise it is held (replacing any held
    /// before it) until the next generation is published.
    pub fn on_scroll(&mut self, event: ScrollEvent) -> (r: Option<ScrollCommand>)
        requires
            old(self).wf(),
        ensures
            final(self).wf(),
            final(self).state_spec() == old(self).state_spec(),
            final(self).generation_spec() == old(self).generation_spec(),
            final(self).normalized_spec() == old(self).normalized_spec(),
            final(self).has_current() == old(self).has_current(),
            final(self).has_current() ==> final(self).current_spec() == old(self).current_spec(),
            old(self).state_spec() == SyncState::Synced ==> r.is_some() && answers(
                old(self).map_spec(),
                event,
                r.unwrap(),
            ) && final(self).pending_spec() == old(self).pending_spec(),
            old(self).state_spec() != SyncState::Synced ==> r.is_none()
                && final(self).pending_spec() == Some(event),
    {
        if self.state != SyncState::Synced {
            self.pending = Some(event);
            return None;
        }
        match &self.current {
            Some(g) => Some(answer(&g.map, event)),
            None => None,
        }
    }

    /// Once synced, answers the scroll event held while parsing, once.
    pub fn replay_pending(&mut self) -> (r: Option<ScrollCommand>)
        requires
            old(self).wf(),
        ensures
            final(self).wf(),
            final(self).state_spec() == old(self).state_spec(),
            final(self).generation_spec() == old(self).generation_spec(),
            final(self).normalized_spec() == old(self).normalized_spec(),
            final(self).has_current() == old(self).has_current(),
            final(self).has_current() ==> final(self).current_spec() == old(self).current_spec(),
            old(self).state_spec() == SyncState::Synced && old(self).pending_spec().is_some() ==> r.is_some()
                && answers(old(self).map_spec(), old(self).pending_spec().unwrap(), r.unwrap())
                && final(self).pending_spec().is_none(),
            !(old(self).state_spec() == SyncState::Synced && old(self).pending_spec().is_some())
                ==> r.is_none() && final(self).pending_spec() == old(self).pending_spec(),
    {
        if self.state != SyncState::Synced {
            return None;
        }
        match self.pending {
            Some(event) => {
                self.pending = None;
                match &self.current {
                    Some(g) => Some(answer(&g.map, event)),
                    None => None,
                }
            },
            None => None,
        }
    }
}

fn answer(map: &OffsetMap, event: ScrollEvent) -> (r: ScrollCommand)
    requires
        map.wf(),
    ensures
        answers(*map, event, r),
{
    match event {
        ScrollEvent::EditorOffset(o) => ScrollCommand::ScrollPreviewToRow(map.offset_to_row(o)),
        ScrollEvent::PreviewRow(row) => ScrollCommand::ScrollEditorToOffset(map.row_to_offset(row)),
    }
}

} // verus!
