//! An earlier shape of the wiki payloads, kept for the archive tooling.

use vstd::prelude::*;

verus! {

/// A page payload.
pub struct Content {
    /// Page identifier, as decimal text.
    pub id: String,
    /// Page title.
    pub title: String,
    /// Page body.
    pub body: Body,
}

/// A page body.
pub struct Body {
    /// The rendered view.
    pub view: View,
}

/// The rendered view of a page body.
pub struct View {
    /// The markup itself.
    pub value: String,
}

/// A user payload.
#[allow(non_snake_case)]
pub struct User {
    /// Login name.
    pub username: String,
    /// Numeric service key.
    pub userKey: u64,
    /// Display name.
    pub displayName: String,
}

} // verus!
