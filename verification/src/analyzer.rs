//! Reading attendance worksheets: one row per band per rehearsal.

use vstd::prelude::*;

use crate::http::rest_type::{ContenType, UserType};
use crate::{Band, User};

verus! {

/// A gateway to the remote attendance data.
pub trait ICommunicator {
    fn request_user(&self, id: &str) -> UserType;

    fn request_content(&self, id: u64) -> ContenType;
}

/// A live event under analysis.
pub struct Live {}

impl Live {
    /// Who plays.
    pub fn members(&self) -> (r: Vec<User>)
        ensures
            r@.len() == 0,
    {
        Vec::new()
    }

    /// Which bands appear.
    pub fn bands(&self) -> (r: Vec<Band>)
        ensures
            r@.len() == 0,
    {
        Vec::new()
    }
}

/// One worksheet row: a band's attendance for one rehearsal.
pub struct Node {
    band_name: String,
    time: String,
    members: Vec<String>,
    is_scheduled: bool,
}

impl Node {
    pub closed spec fn band_name_spec(&self) -> Seq<char> {
        self.band_name@
    }

    pub closed spec fn time_spec(&self) -> Seq<char> {
        self.time@
    }

    pub closed spec fn members_spec(&self) -> Seq<String> {
        self.members@
    }

    pub closed spec fn is_scheduled_spec(&self) -> bool {
        self.is_scheduled
    }

    /// A row as decoded from the worksheet.
    pub fn new(band_name: String, time: String, members: Vec<String>, is_scheduled: bool) -> (r:
        Self)
        ensures
            r.band_name_spec() == band_name@,
            r.time_spec() == time@,
            r.members_spec() == members@,
            r.is_scheduled_spec() == is_scheduled,
    {
        Node { band_name, time, members, is_scheduled }
    }

    /// The band the row is about.
    pub fn band_name(&self) -> (r: &str)
        ensures
            r@ == self.band_name_spec(),
    {
        self.band_name.as_str()
    }

    /// Which rehearsal the row is about.
    pub fn time(&self) -> (r: &str)
        ensures
            r@ == self.time_spec(),
    {
        self.time.as_str()
    }

    /// Who said they would come.
    pub fn members(&self) -> (r: &[String])
        ensures
            r@ == self.members_spec(),
    {
        self.members.as_slice()
    }

    /// Whether the band plans to attend.
    pub fn is_scheduled(&self) -> (r: bool)
        ensures
            r == self.is_scheduled_spec(),
    {
        self.is_scheduled
    }
}

} // verus!
