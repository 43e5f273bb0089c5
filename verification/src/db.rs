use vstd::prelude::*;

use crate::text::concat;

verus! {

/// Single-file JSON store for ratings, at `<data dir>/robot_master/ratings.json`; reading and
/// writing the file happen outside this library.
#[derive(Clone, Debug, PartialEq, Eq)]
pub struct JsonRatingDb {
    pub path: String,
}

impl JsonRatingDb {
    /// The store kept under the user's data directory `data_dir`.
    pub fn in_data_dir(data_dir: &str) -> (r: Self)
        ensures
            r.path@ == data_dir@ + "/robot_master/ratings.json"@,
    {
        JsonRatingDb { path: concat(data_dir, "/robot_master/ratings.json") }
    }

    /// The directory that holds the file: `<data dir>/robot_master`.
    pub fn dir_in_data_dir(data_dir: &str) -> (r: String)
        ensures
            r@ == data_dir@ + "/robot_master"@,
    {
        concat(data_dir, "/robot_master")
    }
}

} // verus!
