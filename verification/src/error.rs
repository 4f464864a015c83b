//! The ways in which compiling a text or starting a session fails.

use crate::dtree::texts;
use vstd::prelude::*;

verus! {

/// A failure of compiling a text into a tree, or of starting a session on
/// one. Each kind names what was wrong, so that a caller can tell the kinds
/// apart and word its own message.
#[derive(Debug, PartialEq, Eq)]
pub enum DtreeError {
    /// At `position`, counted in scalar values, the text is neither a
    /// mapping nor a section.
    Syntax { position: usize },
    /// The section `name` is declared more than once.
    DuplicateSection { name: String },
    /// A mapping leads to `destination`, which is nowhere declared. The
    /// mapping was written for `section` with `triggers`.
    UnknownDestination { destination: String, triggers: Vec<String>, section: String },
    /// A mapping was written for `section`, which is nowhere declared. The
    /// mapping has `triggers` and leads to `destination`.
    UnknownSource { section: String, triggers: Vec<String>, destination: String },
    /// A session was to start in the section `name`, which the tree lacks.
    NoStartingSection { name: String },
}

/// What a [`DtreeError`] holds.
pub enum DtreeErrorView {
    Syntax { position: nat },
    DuplicateSection { name: Seq<char> },
    UnknownDestination { destination: Seq<char>, triggers: Seq<Seq<char>>, section: Seq<char> },
    UnknownSource { section: Seq<char>, triggers: Seq<Seq<char>>, destination: Seq<char> },
    NoStartingSection { name: Seq<char> },
}

impl View for DtreeError {
    type V = DtreeErrorView;

    open spec fn view(&self) -> DtreeErrorView {
        match *self {
            DtreeError::Syntax { position } => DtreeErrorView::Syntax { position: position as nat },
            DtreeError::DuplicateSection { name } => DtreeErrorView::DuplicateSection {
                name: name@,
            },
            DtreeError::UnknownDestination {
                destination,
                triggers,
                section,
            } => DtreeErrorView::UnknownDestination {
                destination: destination@,
                triggers: texts(triggers@),
                section: section@,
            },
            DtreeError::UnknownSource {
                section,
                triggers,
                destination,
            } => DtreeErrorView::UnknownSource {
                section: section@,
                triggers: texts(triggers@),
                destination: destination@,
            },
            DtreeError::NoStartingSection { name } => DtreeErrorView::NoStartingSection {
                name: name@,
            },
        }
    }
}

} // verus!
