use vstd::prelude::*;
use crate::scan::join;
use crate::scan::join_strings;

verus! {

/// One page of a paginated listing: the documents of the page and the cursor
/// for the next one.
pub struct PaginatedResponse<T> {
    pub bookmark: Option<String>,
    pub docs: Vec<T>,
}

/// The running state of a paginated listing: what has been collected, the
/// descriptions of failed page requests, and the cursor to ask with next.
pub struct ListState<T> {
    pub items: Vec<T>,
    pub errors: Vec<String>,
    pub bookmark: Option<String>,
}

/// What one page request came back with: a failure description, or a page.
pub enum PageEvent<T> {
    Failure(String),
    Page(PaginatedResponse<T>),
}

/// What to do after absorbing one page event.
#[derive(Debug, Copy, Clone, PartialEq, Eq, Structural)]
pub enum ListStep {
    /// Ask for the next page, with the state's bookmark.
    Continue,
    /// The requested number of items is collected; take them.
    DoneLimited,
    /// The listing is exhausted; take the items unless failures were seen.
    DoneExhausted,
}

impl<T> ListState<T> {
    /// The state before the first page is requested.
    pub fn new() -> (s: ListState<T>)
        ensures
            s.items@ =~= Seq::<T>::empty(),
            s.errors@ =~= Seq::<String>::empty(),
            s.bookmark is None,
    {
        ListState { items: Vec::new(), errors: Vec::new(), bookmark: None }
    }
}

/// Absorbs one page event into the listing state and decides how to go on:
/// a failure is recorded and the same page asked for again; an empty page
/// exhausts the listing; otherwise the documents are collected, the cursor
/// advances, and the listing stops early (truncated) once a given limit is
/// reached.
pub fn absorb_page<T>(state: &mut ListState<T>, event: PageEvent<T>, limit: Option<usize>) -> (step:
    ListStep)
    ensures
        match event {
            PageEvent::Failure(msg) => {
                &&& step == ListStep::Continue
                &&& final(state).items@ == old(state).items@
                &&& final(state).errors@ == old(state).errors@.push(msg)
                &&& final(state).bookmark == old(state).bookmark
            },
            PageEvent::Page(p) => {
                if p.docs@.len() == 0 {
                    &&& step == ListStep::DoneExhausted
                    &&& final(state).items@ == old(state).items@
                    &&& final(state).errors@ == old(state).errors@
                    &&& final(state).bookmark == old(state).bookmark
                } else {
                    &&& final(state).errors@ == old(state).errors@
                    &&& final(state).bookmark == p.bookmark
                    &&& match limit {
                        Some(l) => {
                            if old(state).items@.len() + p.docs@.len() >= l {
                                &&& step == ListStep::DoneLimited
                                &&& final(state).items@ == (old(state).items@ + p.docs@).take(
                                    l as int,
                                )
                            } else {
                                &&& step == ListStep::Continue
                                &&& final(state).items@ == old(state).items@ + p.docs@
                            }
                        },
                        None => {
                            &&& step == ListStep::Continue
                            &&& final(state).items@ == old(state).items@ + p.docs@
                        },
                    }
                }
            },
        },
{
    match event {
        PageEvent::Failure(msg) => {
            state.errors.push(msg);
            ListStep::Continue
        },
        PageEvent::Page(p) => {
            if p.docs.len() == 0 {
                ListStep::DoneExhausted
            } else {
                let mut docs = p.docs;
                state.items.append(&mut docs);
                state.bookmark = p.bookmark;
                match limit {
                    Some(l) => {
                        if state.items.len() >= l {
                            state.items.truncate(l);
                            ListStep::DoneLimited
                        } else {
                            ListStep::Continue
                        }
                    },
                    None => ListStep::Continue,
                }
            }
        },
    }
}

/// Closes a finished listing: a listing stopped at its limit yields its
/// items; an exhausted one yields its items only when every page request
/// succeeded, and otherwise the failure descriptions joined line by line.
pub fn finish_listing<T>(state: ListState<T>, limited: bool) -> (r: Result<Vec<T>, String>)
    ensures
        limited || state.errors@.len() == 0 ==> (r matches Ok(v) && v@ == state.items@),
        !limited && state.errors@.len() > 0 ==> (r matches Err(s) && s@ == join(
            state.errors.deep_view(),
            "\n"@,
        )),
{
    if limited || state.errors.len() == 0 {
        Ok(state.items)
    } else {
        Err(join_strings(&state.errors, "\n"))
    }
}

/// The page size to ask the service for: the caller's limit, capped at the
/// largest page the service allows.
pub fn per_call_limit(limit: Option<usize>) -> (r: usize)
    ensures
        r == (match limit {
            Some(l) => if l < 100 {
                l
            } else {
                100usize
            },
            None => 100usize,
        }),
{
    match limit {
        Some(l) => if l < 100 {
            l
        } else {
            100
        },
        None => 100,
    }
}

/// Aggregates the outcome of a bulk update: success when no update failed,
/// and otherwise the failure descriptions joined line by line.
pub fn summarize_updates(errors: &Vec<String>) -> (r: Result<(), String>)
    ensures
        r is Ok <==> errors@.len() == 0,
        r matches Err(s) ==> s@ == join(errors.deep_view(), "\n"@),
{
    if errors.len() == 0 {
        Ok(())
    } else {
        Err(join_strings(errors, "\n"))
    }
}

} // verus!
