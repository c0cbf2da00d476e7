//! Settings of the Markdown preview, and the decision of what to do when an
//! editor is added to the workspace.
use vstd::prelude::*;

verus! {

/// Whether and where a preview opens for a Markdown file that is opened.
#[derive(Debug, Clone, Copy, PartialEq, Eq, Structural)]
pub enum OpenMarkdownPreview {
    /// Show the source only.
    Code,
    /// Replace the editor by a preview in place.
    Preview,
    /// Open a preview in the pane to the right.
    PreviewToSide,
}

impl Default for OpenMarkdownPreview {
    fn default() -> (r: OpenMarkdownPreview)
        ensures
            r == OpenMarkdownPreview::Code,
    {
        OpenMarkdownPreview::Code
    }
}

/// The preview's section of the user's settings, as read from them.
#[derive(Debug, Clone, Copy, PartialEq, Eq, Structural)]
pub struct MarkdownPreviewSettingsContent {
    pub open_markdown_preview: Option<OpenMarkdownPreview>,
}

/// The parts of the user's settings that the preview reads.
#[derive(Debug, Clone, Copy, PartialEq, Eq, Structural)]
pub struct SettingsContent {
    pub markdown_preview: Option<MarkdownPreviewSettingsContent>,
}

#[derive(Debug, Clone, Copy, PartialEq, Eq, Structural)]
pub struct MarkdownPreviewSettings {
    pub open_markdown_preview: OpenMarkdownPreview,
}

impl MarkdownPreviewSettings {
    /// The effective settings: the configured option, or `Code` when the
    /// section or the option is absent.
    pub fn from_settings(content: &SettingsContent) -> (r: MarkdownPreviewSettings)
        ensures
            r.open_markdown_preview == match content.markdown_preview {
                Some(MarkdownPreviewSettingsContent { open_markdown_preview: Some(o) }) => o,
                _ => OpenMarkdownPreview::Code,
            },
    {
        let open_markdown_preview = match content.markdown_preview {
            Some(preview) => match preview.open_markdown_preview {
                Some(o) => o,
                None => OpenMarkdownPreview::Code,
            },
            None => OpenMarkdownPreview::Code,
        };
        MarkdownPreviewSettings { open_markdown_preview }
    }
}

/// What to do when an item is added to the workspace.
#[derive(Debug, Clone, Copy, PartialEq, Eq, Structural)]
pub enum AutoOpenAction {
    /// Leave the workspace as it is.
    Nothing,
    /// Close the editor at this position of the active pane and put a preview
    /// there.
    ReplaceEditorAt(usize),
    /// Add a preview to the pane on the right, splitting the active pane first
    /// when there is none, and keep the focus on the editor.
    OpenToSide { split: bool },
}

/// The action for an added item under `setting`. `is_markdown_editor`: the item
/// is an editor of a Markdown file; `editor_index`: its position in the active
/// pane, if it is there; `has_right_pane`: a pane lies to the right;
/// `has_existing_preview`: that pane already previews this editor.
pub fn auto_open_action(
    setting: OpenMarkdownPreview,
    is_markdown_editor: bool,
    editor_index: Option<usize>,
    has_right_pane: bool,
    has_existing_preview: bool,
) -> (r: AutoOpenAction)
    ensures
        r == (if !is_markdown_editor {
            AutoOpenAction::Nothing
        } else {
            match setting {
                OpenMarkdownPreview::Code => AutoOpenAction::Nothing,
                OpenMarkdownPreview::Preview => match editor_index {
                    Some(i) => AutoOpenAction::ReplaceEditorAt(i),
                    None => AutoOpenAction::Nothing,
                },
                OpenMarkdownPreview::PreviewToSide => if has_right_pane && has_existing_preview {
                    AutoOpenAction::Nothing
                } else {
                    AutoOpenAction::OpenToSide { split: !has_right_pane }
                },
            }
        }),
{
    if !is_markdown_editor {
        return AutoOpenAction::Nothing;
    }
    match setting {
        OpenMarkdownPreview::Code => AutoOpenAction::Nothing,
        OpenMarkdownPreview::Preview => match editor_index {
            Some(i) => AutoOpenAction::ReplaceEditorAt(i),
            None => AutoOpenAction::Nothing,
        },
        OpenMarkdownPreview::PreviewToSide => {
            if has_right_pane && has_existing_preview {
                AutoOpenAction::Nothing
            } else {
                AutoOpenAction::OpenToSide { split: !has_right_pane }
            }
        },
    }
}

} // verus!
