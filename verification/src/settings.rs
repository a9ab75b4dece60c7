//! Configuration values the service layer is driven by.

use vstd::prelude::*;

verus! {

/// A query criterion over the article index: which subset a caller wants to
/// render.
#[derive(Clone, Copy, PartialEq, Eq, Structural, Debug)]
pub enum ArticleList {
    All,
    Unread,
    Starred,
    Archived,
    Deleted,
}

/// Backend selection: the identifier of the remote API a service should talk
/// to. Unknown identifiers select the no-op backend.
pub struct ArticleAuth {
    pub api: String,
}

} // verus!
