use vstd::prelude::*;
use crate::text::{join_path, path_join};

verus! {

/// Where the palace keeps its files, and the name of its drawer collection.
pub struct Config {
    pub palace_path: String,
    pub identity_file: String,
    pub vector_db: String,
    pub kg_db: String,
    pub collection: String,
}

/// The home directory: `home` when it is set, else the current directory.
pub open spec fn home_or_current(home: Option<Seq<char>>) -> Seq<char> {
    match home {
        Some(h) => h,
        None => "."@,
    }
}

/// The home directory: `home` when it is set, else the current directory.
pub fn dirs_or_manual_home(home: Option<String>) -> (r: String)
    ensures
        r@ == home_or_current(crate::types::opt_string_view(home)),
{
    match home {
        Some(h) => h,
        None => ".".to_owned(),
    }
}

impl Config {
    /// The configuration of a palace in `.steel-memory` under `home`, with the drawer
    /// collection `collection`, or "drawers" when none is given.
    pub fn from_home(home: &str, collection: Option<String>) -> (r: Config)
        ensures
            r.palace_path@ == path_join(home@, ".steel-memory"@),
            r.identity_file@ == path_join(r.palace_path@, "identity.txt"@),
            r.vector_db@ == path_join(r.palace_path@, "palace.sqlite3"@),
            r.kg_db@ == path_join(r.palace_path@, "knowledge_graph.sqlite3"@),
            r.collection@ == match collection {
                Some(c) => c@,
                None => "drawers"@,
            },
    {
        let palace = join_path(home, ".steel-memory");
        Config {
            identity_file: join_path(palace.as_str(), "identity.txt"),
            vector_db: join_path(palace.as_str(), "palace.sqlite3"),
            kg_db: join_path(palace.as_str(), "knowledge_graph.sqlite3"),
            collection: match collection {
                Some(c) => c,
                None => "drawers".to_owned(),
            },
            palace_path: palace,
        }
    }
}

} // verus!
