use vstd::prelude::*;
use crate::types::Drawer;
use crate::dialect::{aaak, compress_to_aaak};
use crate::text::{concat, join_with, join_sep, join_path, path_join, str_views, opt_view};
use crate::vector::{VectorStorage, recalled};

verus! {

/// The memory stack of a palace: identity (layer 0), AAAK memories (layer 1) and
/// recall by wing and room (layer 2).
pub struct MemoryStack {
    pub palace_path: String,
    pub db_path: String,
}

/// The identity text: the contents of the identity file when it could be read.
pub open spec fn identity_text(read: Option<Seq<char>>) -> Seq<char> {
    match read {
        Some(s) => s,
        None => "No identity file found."@,
    }
}

/// One memory line of layer 1: `[id] ` followed by the drawer in the AAAK dialect.
pub open spec fn memory_line(d: Drawer) -> Seq<char> {
    "["@ + d.id@ + "] "@ + aaak(d)
}

/// Layer 1: the memory lines joined by `\n---\n`, or a note that there are none.
pub open spec fn layer1_text(drawers: Seq<Drawer>) -> Seq<char> {
    if drawers.len() == 0 {
        "(no memories yet)"@
    } else {
        join_sep(drawers.map_values(|d: Drawer| memory_line(d)), "\n---\n"@)
    }
}

/// The wake-up context: layer 0 and layer 1 under their headings.
pub open spec fn wake_up_text(l0: Seq<char>, l1: Seq<char>) -> Seq<char> {
    "=== LAYER 0: IDENTITY ===\n"@ + l0 + "\n\n=== LAYER 1: AAAK MEMORIES ===\n"@ + l1
}

/// Layer 1 for the given drawers.
pub fn format_layer1(drawers: &Vec<Drawer>) -> (r: String)
    ensures
        r@ == layer1_text(drawers@),
{
    if drawers.len() == 0 {
        return "(no memories yet)".to_owned();
    }
    let mut lines: Vec<String> = Vec::new();
    let mut i: usize = 0;
    while i < drawers.len()
        invariant
            i <= drawers@.len(),
            str_views(lines@) == drawers@.map_values(|d: Drawer| memory_line(d)).take(i as int),
        decreases drawers@.len() - i,
    {
        let d = &drawers[i];
        let head = concat("[", d.id.as_str());
        let head = concat(head.as_str(), "] ");
        let body = compress_to_aaak(d);
        let line = concat(head.as_str(), body.as_str());
        let ghost before = lines@;
        lines.push(line);
        assert(str_views(lines@) =~= drawers@.map_values(|d: Drawer| memory_line(d)).take(i + 1)) by {
            assert(str_views(lines@) =~= str_views(before).push(memory_line(drawers@[i as int])));
        }
        i = i + 1;
    }
    assert(drawers@.map_values(|d: Drawer| memory_line(d)).take(drawers@.len() as int) =~= drawers@.map_values(
        |d: Drawer| memory_line(d),
    ));
    join_with(&lines, "\n---\n")
}

/// The wake-up context made of its two layers.
pub fn format_wake_up(l0: &str, l1: &str) -> (r: String)
    ensures
        r@ == wake_up_text(l0@, l1@),
{
    let s = concat("=== LAYER 0: IDENTITY ===\n", l0);
    let s = concat(s.as_str(), "\n\n=== LAYER 1: AAAK MEMORIES ===\n");
    concat(s.as_str(), l1)
}

impl MemoryStack {
    /// The memory stack of the palace at `palace_path` whose drawers are in `db_path`.
    pub fn new(palace_path: String, db_path: String) -> (r: MemoryStack)
        ensures
            r.palace_path == palace_path,
            r.db_path == db_path,
    {
        MemoryStack { palace_path, db_path }
    }

    /// The path of the identity file of layer 0.
    pub fn identity_path(&self) -> (r: String)
        ensures
            r@ == path_join(self.palace_path@, "identity.txt"@),
    {
        join_path(self.palace_path.as_str(), "identity.txt")
    }

    /// Layer 0: the identity read from the identity file, or a note that there is none.
    pub fn layer0(&self, read: Option<String>) -> (r: String)
        ensures
            r@ == identity_text(crate::types::opt_string_view(read)),
    {
        match read {
            Some(s) => s,
            None => "No identity file found.".to_owned(),
        }
    }

    /// Layer 1: the `limit` most important drawers of `wing` (of all wings when none is
    /// given) in the AAAK dialect.
    pub fn layer1(&self, storage: &VectorStorage, wing: Option<&str>, limit: usize) -> (r: String)
        ensures
            r@ == layer1_text(recalled(storage.table(), opt_view(wing), None, limit as nat)),
    {
        let drawers = storage.get_all(wing, None, limit);
        format_layer1(&drawers)
    }

    /// The wake-up context: the identity, then the 20 most important drawers of `wing`
    /// in the AAAK dialect.
    pub fn wake_up(&self, storage: &VectorStorage, identity: Option<String>, wing: Option<&str>) -> (r: String)
        ensures
            r@ == wake_up_text(
                identity_text(crate::types::opt_string_view(identity)),
                layer1_text(recalled(storage.table(), opt_view(wing), None, 20)),
            ),
    {
        let l0 = self.layer0(identity);
        let l1 = self.layer1(storage, wing, 20);
        format_wake_up(l0.as_str(), l1.as_str())
    }

    /// Layer 2: the `limit` most important drawers of `wing` and `room`, each when given.
    pub fn recall(&self, storage: &VectorStorage, wing: Option<&str>, room: Option<&str>, limit: usize) -> (r: Vec<Drawer>)
        ensures
            r@ == recalled(storage.table(), opt_view(wing), opt_view(room), limit as nat),
    {
        storage.get_all(wing, room, limit)
    }
}

} // verus!
