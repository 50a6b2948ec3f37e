//! The shapes of the wiki's REST payloads, as plain values.  The
//! application shell decodes the wire format into these.

use vstd::prelude::*;

verus! {

/// A page payload.
pub struct ContenType {
    /// Page identifier, as the decimal text the service sends.
    pub id: String,
    /// Page title.
    pub title: String,
    /// Page body.
    pub body: BodyType,
}

/// A page-children payload.
pub struct HierarchyType {
    /// One entry per child page.
    pub results: Vec<HierarchyResultType>,
}

/// One child page reference.
pub struct HierarchyResultType {
    /// Child page identifier.
    pub id: String,
}

/// A child page payload.
pub struct ChildPageType {
    /// Page identifier.
    pub id: String,
    /// Page title.
    pub title: String,
    /// Page body.
    pub body: BodyType,
}

/// A page body.
pub struct BodyType {
    /// The rendered view.
    pub view: ViewType,
}

/// The rendered view of a page body.
pub struct ViewType {
    /// The markup itself.
    pub value: String,
}

/// A user payload.
#[allow(non_snake_case)]
pub struct UserType {
    /// Login name.
    pub username: String,
    /// Opaque service key.
    pub userKey: String,
    /// Display name.
    pub displayName: String,
}

} // verus!
