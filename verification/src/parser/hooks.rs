//! Hooks that see, and may change, the attributes of each section before
//! the section is added to the statement.
use crate::maps::{text_entries, Entries};
use crate::parser::statement::{Statement, StatementView};
use indexmap::IndexMap;
use vstd::prelude::*;

verus! {

/// The kind of section a hook is called for.
#[derive(Debug, Clone, Copy, PartialEq, Eq, Structural)]
pub enum SectionType {
    Document,
    Account,
}

/// What a hook reports: a warning keeps the section out of the statement
/// and is recorded; an error stops the reading.
#[derive(Debug)]
pub enum HookError {
    Warning(String),
    Error(String),
}

pub enum HookErrorView {
    Warning(Seq<char>),
    Error(Seq<char>),
}

impl View for HookError {
    type V = HookErrorView;

    open spec fn view(&self) -> HookErrorView {
        match self {
            HookError::Warning(w) => HookErrorView::Warning(w@),
            HookError::Error(e) => HookErrorView::Error(e@),
        }
    }
}

pub open spec fn hook_result_view(r: Result<(), HookError>) -> Result<(), HookErrorView> {
    match r {
        Ok(()) => Ok(()),
        Err(e) => Err(e@),
    }
}

/// A hook on the sections of a statement, called with the kind of the
/// section, its attributes and the statement read so far.
///
/// `permits` says which outcomes (the attributes the hook leaves and its
/// result) the hook may give for the kind of section, the attributes it is
/// given and the statement; a call gives one of them. A hook that does not
/// say permits every outcome, so nothing is assumed of it.
pub trait SectionHook {
    open spec fn permits(
        &self,
        section: SectionType,
        before: Entries<Seq<char>>,
        statement: StatementView,
        after: Entries<Seq<char>>,
        result: Result<(), HookErrorView>,
    ) -> bool {
        true
    }

    fn call(
        &self,
        section: SectionType,
        attrs: &mut IndexMap<String, String>,
        statement: &Statement,
    ) -> (r: Result<(), HookError>)
        ensures
            self.permits(
                section,
                text_entries(*old(attrs)),
                statement@,
                text_entries(*final(attrs)),
                hook_result_view(r),
            ),
    ;
}

} // verus!
