pub mod aaak_spec;
pub mod benchmark;
pub mod clock;
pub mod config;
pub mod dialect;
pub mod error;
pub mod knowledge_graph;
pub mod layers;
pub mod palace_graph;
pub mod sorting;
pub mod text;
pub mod tools;
pub mod types;
pub mod vector;

use vstd::prelude::*;
use crate::text::{join_path, path_join};

verus! {

/// The file paths of a palace kept under a base directory.
pub struct TestConfig {
    pub vector_db: String,
    pub kg_db: String,
    pub palace_path: String,
    pub identity_file: String,
}

/// The file paths of a palace kept in `base`.
pub fn config_default_with_base(base: String) -> (r: TestConfig)
    ensures
        r.palace_path@ == base@,
        r.vector_db@ == path_join(base@, "palace.sqlite3"@),
        r.kg_db@ == path_join(base@, "knowledge_graph.sqlite3"@),
        r.identity_file@ == path_join(base@, "identity.txt"@),
{
    TestConfig {
        vector_db: join_path(base.as_str(), "palace.sqlite3"),
        kg_db: join_path(base.as_str(), "knowledge_graph.sqlite3"),
        identity_file: join_path(base.as_str(), "identity.txt"),
        palace_path: base,
    }
}

} // verus!
