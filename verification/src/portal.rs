//! The portal's data access: a client interface over the member and
//! band sources, and a canned client for trying the portal out.

use vstd::prelude::*;

use crate::text_order::str_eq;
use crate::{Band, InstrumentType, User, INSTRUMENT_ELECTRIC_BASS, INSTRUMENT_TENOR_SAXPHONE,
    INSTRUMENT_TROMBONE, INSTRUMENT_VOCAL};

verus! {

/// What the portal shows.
#[derive(Debug, Clone, Copy, PartialEq, Eq, Structural)]
pub enum ContentType {
    /// The member roster.
    Members,
    /// The rehearsal schedule.
    Schedule,
}

/// A source of users and bands.
pub trait IClient {
    fn fetch_users(&mut self) -> Vec<String>;

    fn fetch_user(&mut self, id: &str) -> Result<User, ()>;

    fn fetch_bands(&mut self) -> Vec<Band>;
}

/// A client that serves a fixed cast.
pub struct MockClient {
    user_ids: Vec<String>,
    users: Vec<(String, User)>,
}

impl MockClient {
    pub closed spec fn user_ids_spec(&self) -> Seq<String> {
        self.user_ids@
    }

    pub closed spec fn users_spec(&self) -> Seq<(String, User)> {
        self.users@
    }

    /// The fixed cast: three musicians.
    pub fn new() -> (r: Self)
        ensures
            r.user_ids_spec().len() == 3,
            r.users_spec().len() == 3,
            forall|i: int|
                0 <= i < 3 ==> (#[trigger] r.users_spec()[i]).0@ == r.user_ids_spec()[i]@,
    {
        let mut user_ids: Vec<String> = Vec::new();
        user_ids.push("shikama_shuto".to_owned());
        user_ids.push("edogawa_conan".to_owned());
        user_ids.push("hattori_heiji".to_owned());
        let mut users: Vec<(String, User)> = Vec::new();
        users.push(
            (
                "shikama_shuto".to_owned(),
                User {
                    name: "鹿間脩斗".to_owned(),
                    instrument_type: InstrumentType(INSTRUMENT_ELECTRIC_BASS),
                },
            ),
        );
        users.push(
            (
                "edogawa_conan".to_owned(),
                User {
                    name: "江戸川コナン".to_owned(),
                    instrument_type: InstrumentType(INSTRUMENT_VOCAL),
                },
            ),
        );
        users.push(
            (
                "hattori_heiji".to_owned(),
                User {
                    name: "服部平次".to_owned(),
                    instrument_type: InstrumentType(
                        INSTRUMENT_TROMBONE | INSTRUMENT_TENOR_SAXPHONE,
                    ),
                },
            ),
        );
        MockClient { user_ids, users }
    }
}

impl IClient for MockClient {
    fn fetch_users(&mut self) -> Vec<String> {
        let mut out: Vec<String> = Vec::new();
        let mut i: usize = 0;
        while i < self.user_ids.len()
            decreases self.user_ids@.len() - i,
        {
            out.push(self.user_ids[i].clone());
            i = i + 1;
        }
        out
    }

    fn fetch_user(&mut self, id: &str) -> Result<User, ()> {
        let mut i: usize = 0;
        while i < self.users.len()
            decreases self.users@.len() - i,
        {
            if str_eq(self.users[i].0.as_str(), id) {
                let name = self.users[i].1.name.clone();
                let instrument_type = self.users[i].1.instrument_type;
                return Ok(User { name, instrument_type });
            }
            i = i + 1;
        }
        Err(())
    }

    fn fetch_bands(&mut self) -> Vec<Band> {
        Vec::new()
    }
}

} // verus!
