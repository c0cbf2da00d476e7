use markdown_preview::preview_settings::{
    auto_open_action, AutoOpenAction, MarkdownPreviewSettingsContent, OpenMarkdownPreview,
    SettingsContent,
};
use markdown_preview::sync::{ScrollCommand, ScrollEvent, SyncController, SyncState};
use markdown_preview::MarkdownPreviewSettings;
use OpenMarkdownPreview::{Code, Preview, PreviewToSide};

#[test]
fn first_text_publishes_a_generation() {
    let mut c = SyncController::new();
    assert_eq!(c.state(), SyncState::Idle);
    assert!(c.current_render_nodes().is_empty());
    assert!(c.submit_text(b"# a\n\nb"));
    assert_eq!(c.state(), SyncState::Synced);
    assert_eq!(c.generation(), 1);
    assert!(c.is_current(1));
    assert_eq!(c.current_render_nodes().len(), 2);
}

#[test]
fn whitespace_edit_publishes_nothing() {
    let mut c = SyncController::new();
    assert!(c.submit_text(b"a\nb"));
    assert!(!c.submit_text(b"a  \r\nb\n"));
    assert!(c.submit_text(b"a\n\n\n\nb"));
    assert!(!c.submit_text(b"a\n\nb  "));
    assert_eq!(c.generation(), 2);
    assert!(c.submit_text(b"a\nb"));
    assert!(!c.submit_text(b"a\nb"));
    assert_eq!(c.generation(), 3);
    assert!(c.submit_text(b"a\nc"));
    assert_eq!(c.generation(), 4);
    assert!(!c.is_current(3));
    assert!(c.is_current(4));
}

#[test]
fn scroll_is_answered_when_synced() {
    let mut c = SyncController::new();
    c.submit_text(b"one\n\ntwo\n\nthree");
    assert_eq!(c.on_scroll(ScrollEvent::EditorOffset(6)), Some(ScrollCommand::ScrollPreviewToRow(1)));
    assert_eq!(c.on_scroll(ScrollEvent::PreviewRow(2)), Some(ScrollCommand::ScrollEditorToOffset(10)));
    assert_eq!(c.replay_pending(), None);
}

#[test]
fn scroll_while_parsing_is_coalesced_and_replayed() {
    let mut c = SyncController::new();
    assert_eq!(c.on_scroll(ScrollEvent::PreviewRow(0)), None);
    c.submit_text(b"one\n\ntwo");
    c.begin_parse();
    assert_eq!(c.state(), SyncState::Parsing);
    assert_eq!(c.on_scroll(ScrollEvent::EditorOffset(0)), None);
    assert_eq!(c.on_scroll(ScrollEvent::EditorOffset(7)), None);
    assert_eq!(c.replay_pending(), None);
    c.submit_text(b"one\n\ntwo\n\nthree");
    assert_eq!(c.replay_pending(), Some(ScrollCommand::ScrollPreviewToRow(1)));
    assert_eq!(c.replay_pending(), None);
}

#[test]
fn begin_parse_before_any_text_stays_idle() {
    let mut c = SyncController::new();
    c.begin_parse();
    assert_eq!(c.state(), SyncState::Idle);
}

#[test]
fn settings_default_to_code() {
    let none = SettingsContent { markdown_preview: None };
    assert_eq!(MarkdownPreviewSettings::from_settings(&none).open_markdown_preview, OpenMarkdownPreview::Code);
    let unset = SettingsContent {
        markdown_preview: Some(MarkdownPreviewSettingsContent { open_markdown_preview: None }),
    };
    assert_eq!(MarkdownPreviewSettings::from_settings(&unset).open_markdown_preview, OpenMarkdownPreview::Code);
    let side = SettingsContent {
        markdown_preview: Some(MarkdownPreviewSettingsContent {
            open_markdown_preview: Some(OpenMarkdownPreview::PreviewToSide),
        }),
    };
    assert_eq!(
        MarkdownPreviewSettings::from_settings(&side).open_markdown_preview,
        OpenMarkdownPreview::PreviewToSide
    );
    assert_eq!(OpenMarkdownPreview::default(), OpenMarkdownPreview::Code);
}

#[test]
fn auto_open_decisions() {
    assert_eq!(auto_open_action(Code, true, Some(0), true, false), AutoOpenAction::Nothing);
    assert_eq!(auto_open_action(Preview, false, Some(0), false, false), AutoOpenAction::Nothing);
    assert_eq!(auto_open_action(Preview, true, Some(3), false, false), AutoOpenAction::ReplaceEditorAt(3));
    assert_eq!(auto_open_action(Preview, true, None, false, false), AutoOpenAction::Nothing);
    assert_eq!(auto_open_action(PreviewToSide, true, None, true, true), AutoOpenAction::Nothing);
    assert_eq!(auto_open_action(PreviewToSide, true, None, true, false), AutoOpenAction::OpenToSide { split: false });
    assert_eq!(auto_open_action(PreviewToSide, true, None, false, false), AutoOpenAction::OpenToSide { split: true });
}

#[test]
fn controller_lookups_use_the_current_map() {
    let mut c = SyncController::new();
    assert_eq!(c.offset_to_row(3), None);
    assert_eq!(c.row_to_offset(0), None);
    c.submit_text(b"one\n\ntwo\n\nthree");
    assert_eq!(c.offset_to_row(7), Some(1));
    assert_eq!(c.row_to_offset(2), Some(10));
    assert_eq!(c.row_to_offset(99), Some(10));
}

#[test]
fn empty_cells_get_distinct_starts() {
    let doc = markdown_preview::parser::parse(b"| | |\n|-|-|\n| | |");
    for i in 0..doc.len() {
        for j in (i + 1)..doc.len() {
            if doc.element(i).parent == doc.element(j).parent {
                assert!(doc.element(i).span.start < doc.element(j).span.start);
            }
        }
    }
}
