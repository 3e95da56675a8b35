use vstd::prelude::*;

verus! {

/// Where a server lives and who asks: the origin, the path of its
/// document API, and the account.  The transport that uses these
/// stays outside the library.
#[derive(Debug)]
pub struct Nextcloud {
    pub origin: String,
    pub dav_path: String,
    pub username: String,
    pub password: String,
}

impl Nextcloud {
    pub fn new(origin: String, dav_path: String, username: String, password: String) -> (r: Self)
        ensures
            r.origin@ == origin@,
            r.dav_path@ == dav_path@,
            r.username@ == username@,
            r.password@ == password@,
    {
        Self { origin, dav_path, username, password }
    }
}

} // verus!
