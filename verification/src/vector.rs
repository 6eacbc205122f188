use vstd::prelude::*;
use crate::types::Drawer;
use crate::text::{str_eq, str_lt, seq_lt, str_views, opt_view, take_at_most, distinct_seq, dedupe_strings};
use crate::sorting::{sort_by, stable_sort, lemma_sort_by_map};
use crate::palace_graph::{RoomNode, RoomNodeView, node_views, room_nodes, group_rooms, node_wings, wing_names};

verus! {

/// A row of the drawers table: a drawer and the JSON text of its embedding vector.
pub struct StoredDrawer {
    pub drawer: Drawer,
    pub vector: String,
}

impl Clone for StoredDrawer {
    fn clone(&self) -> (r: Self)
        ensures
            r == *self,
    {
        StoredDrawer { drawer: self.drawer.clone(), vector: self.vector.clone() }
    }
}

/// The drawers table of a palace: its rows in storage order, and the path of the
/// database file that holds them.
pub struct VectorStorage {
    db_path: String,
    rows: Vec<StoredDrawer>,
}

/// Whether no two rows hold drawers with the same id.
pub fn ids_are_distinct(rows: &Vec<StoredDrawer>) -> (r: bool)
    ensures
        r == distinct_ids(rows@),
{
    let mut j: usize = 0;
    while j < rows.len()
        invariant
            j <= rows@.len(),
            forall|a: int, b: int| 0 <= a < b < j ==> (#[trigger] rows@[a]).drawer.id@ != (#[trigger] rows@[b]).drawer.id@,
        decreases rows@.len() - j,
    {
        let mut i: usize = 0;
        while i < j
            invariant
                j < rows@.len(),
                i <= j,
                forall|a: int, b: int| 0 <= a < b < j ==> (#[trigger] rows@[a]).drawer.id@ != (#[trigger] rows@[b]).drawer.id@,
                forall|a: int| 0 <= a < i ==> (#[trigger] rows@[a]).drawer.id@ != rows@[j as int].drawer.id@,
            decreases j - i,
        {
            if str_eq(rows[i].drawer.id.as_str(), rows[j].drawer.id.as_str()) {
                return false;
            }
            i = i + 1;
        }
        j = j + 1;
    }
    true
}

/// Whether no two rows hold drawers with the same id, as the table's key requires.
pub open spec fn distinct_ids(rows: Seq<StoredDrawer>) -> bool {
    forall|i: int, j: int|
        0 <= i < j < rows.len() ==> (#[trigger] rows[i]).drawer.id@ != (#[trigger] rows[j]).drawer.id@
}

/// Whether some row holds a drawer with id `id`.
pub open spec fn has_id(rows: Seq<StoredDrawer>, id: Seq<char>) -> bool {
    exists|k: int| 0 <= k < rows.len() && (#[trigger] rows[k]).drawer.id@ == id
}

impl VectorStorage {
    /// The ids of the drawers are distinct.
    #[verifier::type_invariant]
    spec fn ids_distinct(self) -> bool {
        distinct_ids(self.rows@)
    }

    /// The rows, in storage order.
    pub closed spec fn table(&self) -> Seq<StoredDrawer> {
        self.rows@
    }

    /// The path of the database file.
    pub closed spec fn path(&self) -> Seq<char> {
        self.db_path@
    }

    /// An empty table kept at `db_path`.
    pub fn new(db_path: &str) -> (r: VectorStorage)
        ensures
            r.table() == Seq::<StoredDrawer>::empty(),
            r.path() == db_path@,
    {
        VectorStorage { db_path: db_path.to_owned(), rows: Vec::new() }
    }

    /// The table at `db_path` holding `rows`, as they were read from the database, or
    /// `None` when two rows hold drawers with the same id.
    pub fn from_rows(db_path: &str, rows: Vec<StoredDrawer>) -> (r: Option<VectorStorage>)
        ensures
            r is Some == distinct_ids(rows@),
            r matches Some(s) ==> s.table() == rows@ && s.path() == db_path@,
    {
        if ids_are_distinct(&rows) {
            Some(VectorStorage { db_path: db_path.to_owned(), rows })
        } else {
            None
        }
    }

    /// The rows, in storage order; no two hold drawers with the same id.
    pub fn rows(&self) -> (r: &Vec<StoredDrawer>)
        ensures
            r@ == self.table(),
            distinct_ids(r@),
    {
        proof {
            use_type_invariant(self);
        }
        &self.rows
    }

    /// The path of the database file.
    pub fn db_path(&self) -> (r: &String)
        ensures
            r@ == self.path(),
    {
        &self.db_path
    }
}

} // verus!

verus! {

/// The rank of an importance score given by its IEEE-754 bits: ranks follow the order
/// of the scores, negative scores below positive ones.
pub open spec fn importance_rank(bits: u64) -> u64 {
    if bits >= 0x8000_0000_0000_0000u64 {
        (u64::MAX - bits) as u64
    } else {
        (bits + 0x8000_0000_0000_0000u64) as u64
    }
}

/// The rank of an importance score given by its IEEE-754 bits.
pub fn importance_rank_of(bits: u64) -> (r: u64)
    ensures
        r == importance_rank(bits),
{
    if bits >= 0x8000_0000_0000_0000u64 {
        u64::MAX - bits
    } else {
        bits + 0x8000_0000_0000_0000u64
    }
}

/// The rows other than those whose drawer has id `id`, in order.
pub open spec fn rows_without(rows: Seq<StoredDrawer>, id: Seq<char>) -> Seq<StoredDrawer>
    decreases rows.len(),
{
    if rows.len() == 0 {
        Seq::empty()
    } else if rows.last().drawer.id@ == id {
        rows_without(rows.drop_last(), id)
    } else {
        rows_without(rows.drop_last(), id).push(rows.last())
    }
}

/// Whether the drawer is filed under `wing` and `room`, each when given.
pub open spec fn in_place(d: Drawer, wing: Option<Seq<char>>, room: Option<Seq<char>>) -> bool {
    &&& (wing matches Some(w) ==> d.wing@ == w)
    &&& (room matches Some(r) ==> d.room@ == r)
}

/// The rows filed under `wing` and `room`, each when given, in order.
pub open spec fn rows_in(rows: Seq<StoredDrawer>, wing: Option<Seq<char>>, room: Option<Seq<char>>) -> Seq<StoredDrawer>
    decreases rows.len(),
{
    if rows.len() == 0 {
        Seq::empty()
    } else if in_place(rows.last().drawer, wing, room) {
        rows_in(rows.drop_last(), wing, room).push(rows.last())
    } else {
        rows_in(rows.drop_last(), wing, room)
    }
}

/// Most important first; drawers of equal importance keep their order.
pub open spec fn more_important(a: StoredDrawer, b: StoredDrawer) -> bool {
    importance_rank(a.drawer.importance) > importance_rank(b.drawer.importance)
}

pub open spec fn drawers_of(rows: Seq<StoredDrawer>) -> Seq<Drawer> {
    rows.map_values(|r: StoredDrawer| r.drawer)
}

/// The drawers that `get_all` returns: those filed under `wing` and `room`, most
/// important first, at most `limit` of them.
pub open spec fn recalled(rows: Seq<StoredDrawer>, wing: Option<Seq<char>>, room: Option<Seq<char>>, limit: nat) -> Seq<Drawer> {
    drawers_of(take_at_most(sort_by(rows_in(rows, wing, room), |a: StoredDrawer, b: StoredDrawer| more_important(a, b)), limit))
}

/// How many rows have wing `wing`.
pub open spec fn wing_count(rows: Seq<StoredDrawer>, wing: Seq<char>) -> nat
    decreases rows.len(),
{
    if rows.len() == 0 {
        0
    } else {
        wing_count(rows.drop_last(), wing) + if rows.last().drawer.wing@ == wing {
            1nat
        } else {
            0nat
        }
    }
}

pub open spec fn row_wings(rows: Seq<StoredDrawer>) -> Seq<Seq<char>> {
    rows.map_values(|r: StoredDrawer| r.drawer.wing@)
}

/// Wings by name, then stable by count, most drawers first.
pub open spec fn more_drawers(a: (Seq<char>, nat), b: (Seq<char>, nat)) -> bool {
    a.1 > b.1
}

pub open spec fn wing_name_before(a: (Seq<char>, nat), b: (Seq<char>, nat)) -> bool {
    seq_lt(a.0, b.0)
}

/// The wings of the table with their drawer counts, most drawers first, and by name
/// among wings with as many drawers.
pub open spec fn wing_counts(rows: Seq<StoredDrawer>) -> Seq<(Seq<char>, nat)> {
    sort_by(
        sort_by(
            distinct_seq(row_wings(rows)).map_values(|w: Seq<char>| (w, wing_count(rows, w))),
            |a: (Seq<char>, nat), b: (Seq<char>, nat)| wing_name_before(a, b),
        ),
        |a: (Seq<char>, nat), b: (Seq<char>, nat)| more_drawers(a, b),
    )
}

pub open spec fn wing_count_views(s: Seq<(String, usize)>) -> Seq<(Seq<char>, nat)> {
    s.map_values(|p: (String, usize)| (p.0@, p.1 as nat))
}

/// Rooms by drawer count, most first; rooms with as many drawers keep the order of
/// the palace graph, by wing and then by room.
pub open spec fn room_more_drawers(a: RoomNodeView, b: RoomNodeView) -> bool {
    a.count > b.count
}

/// The (wing, room) pairs of the table, with their drawer counts, most drawers first;
/// restricted to `wing` when it is given.
pub open spec fn room_counts(rows: Seq<StoredDrawer>, wing: Option<Seq<char>>) -> Seq<RoomNodeView> {
    sort_by(room_nodes(rows_in(rows, wing, None)), |a: RoomNodeView, b: RoomNodeView| room_more_drawers(a, b))
}

pub open spec fn room_count_views(s: Seq<(String, String, usize)>) -> Seq<(Seq<char>, Seq<char>, nat)> {
    s.map_values(|p: (String, String, usize)| (p.0@, p.1@, p.2 as nat))
}

pub open spec fn room_triples(s: Seq<RoomNodeView>) -> Seq<(Seq<char>, Seq<char>, nat)> {
    s.map_values(|n: RoomNodeView| (n.wing, n.room, n.count))
}

fn drawer_more_important(a: &StoredDrawer, b: &StoredDrawer) -> (r: bool)
    ensures
        r == more_important(*a, *b),
{
    importance_rank_of(a.drawer.importance) > importance_rank_of(b.drawer.importance)
}

fn place_matches(d: &Drawer, wing: Option<&str>, room: Option<&str>) -> (r: bool)
    ensures
        r == in_place(*d, opt_view(wing), opt_view(room)),
{
    let w_ok = match wing {
        Some(w) => str_eq(d.wing.as_str(), w),
        None => true,
    };
    let r_ok = match room {
        Some(r) => str_eq(d.room.as_str(), r),
        None => true,
    };
    w_ok && r_ok
}

fn room_node_more(a: &RoomNode, b: &RoomNode) -> (r: bool)
    ensures
        r == room_more_drawers(a@, b@),
{
    a.count > b.count
}

fn wing_pair_before(a: &(String, usize), b: &(String, usize)) -> (r: bool)
    ensures
        r == wing_name_before((a.0@, a.1 as nat), (b.0@, b.1 as nat)),
{
    str_lt(a.0.as_str(), b.0.as_str())
}

fn wing_pair_more(a: &(String, usize), b: &(String, usize)) -> (r: bool)
    ensures
        r == more_drawers((a.0@, a.1 as nat), (b.0@, b.1 as nat)),
{
    a.1 > b.1
}

impl VectorStorage {
    /// Stores `drawer` with the JSON text of its vector; a drawer with the same id is
    /// replaced. The count of drawers grows by one when the id is new, and stays as it
    /// was otherwise.
    pub fn add_drawer(&mut self, drawer: Drawer, vector: String)
        ensures
            final(self).table() == rows_without(old(self).table(), drawer.id@).push(
                StoredDrawer { drawer, vector },
            ),
            final(self).table().len() == if has_id(old(self).table(), drawer.id@) {
                old(self).table().len()
            } else {
                old(self).table().len() + 1
            },
            final(self).path() == old(self).path(),
    {
        proof {
            use_type_invariant(&*self);
            lemma_without_distinct(self.rows@, drawer.id@);
            lemma_count_after_remove(self.rows@, drawer.id@);
        }
        let mut kept = self.rows_kept(drawer.id.as_str());
        let ghost before = kept@;
        let ghost new_id = drawer.id@;
        kept.push(StoredDrawer { drawer, vector });
        assert forall|i: int, j: int| 0 <= i < j < kept@.len() implies (#[trigger] kept@[i]).drawer.id@
            != (#[trigger] kept@[j]).drawer.id@ by {
            if j == kept@.len() - 1 {
                assert(kept@[i] == before[i]);
            } else {
                assert(kept@[i] == before[i] && kept@[j] == before[j]);
            }
        }
        self.rows = kept;
    }

    fn rows_kept(&self, id: &str) -> (r: Vec<StoredDrawer>)
        ensures
            r@ == rows_without(self.table(), id@),
    {
        let ghost rs = self.rows@;
        let mut kept: Vec<StoredDrawer> = Vec::new();
        let mut i: usize = 0;
        assert(rs.take(0) =~= Seq::<StoredDrawer>::empty());
        while i < self.rows.len()
            invariant
                i <= self.rows@.len(),
                rs == self.rows@,
                kept@ == rows_without(rs.take(i as int), id@),
                kept@.len() <= i,
            decreases self.rows@.len() - i,
        {
            assert(rs.take(i + 1).drop_last() =~= rs.take(i as int));
            assert(rs.take(i + 1).last() == rs[i as int]);
            if !str_eq(self.rows[i].drawer.id.as_str(), id) {
                kept.push(self.rows[i].clone());
            }
            i = i + 1;
        }
        assert(rs.take(rs.len() as int) =~= rs);
        kept
    }

    /// Deletes the drawers with id `id` and returns how many there were: one when the
    /// id is there, none otherwise.
    pub fn delete_drawer(&mut self, id: &str) -> (r: usize)
        ensures
            final(self).table() == rows_without(old(self).table(), id@),
            r == old(self).table().len() - final(self).table().len(),
            r == if has_id(old(self).table(), id@) { 1usize } else { 0usize },
            final(self).path() == old(self).path(),
    {
        proof {
            use_type_invariant(&*self);
            lemma_without_distinct(self.rows@, id@);
            lemma_count_after_remove(self.rows@, id@);
        }
        let kept = self.rows_kept(id);
        let removed = self.rows.len() - kept.len();
        self.rows = kept;
        removed
    }

    /// The number of drawers.
    pub fn count(&self) -> (r: usize)
        ensures
            r == self.table().len(),
    {
        self.rows.len()
    }

    /// The rows filed under `wing` and `room`, each when given, in storage order: the
    /// candidates of a semantic search.
    pub fn rows_in_place(&self, wing: Option<&str>, room: Option<&str>) -> (r: Vec<StoredDrawer>)
        ensures
            r@ == rows_in(self.table(), opt_view(wing), opt_view(room)),
    {
        let ghost rs = self.rows@;
        let mut out: Vec<StoredDrawer> = Vec::new();
        let mut i: usize = 0;
        assert(rs.take(0) =~= Seq::<StoredDrawer>::empty());
        while i < self.rows.len()
            invariant
                i <= self.rows@.len(),
                rs == self.rows@,
                out@ == rows_in(rs.take(i as int), opt_view(wing), opt_view(room)),
            decreases self.rows@.len() - i,
        {
            assert(rs.take(i + 1).drop_last() =~= rs.take(i as int));
            assert(rs.take(i + 1).last() == rs[i as int]);
            if place_matches(&self.rows[i].drawer, wing, room) {
                out.push(self.rows[i].clone());
            }
            i = i + 1;
        }
        assert(rs.take(rs.len() as int) =~= rs);
        out
    }

    /// The drawers filed under `wing` and `room`, each when given, most important
    /// first, at most `limit` of them.
    pub fn get_all(&self, wing: Option<&str>, room: Option<&str>, limit: usize) -> (r: Vec<Drawer>)
        ensures
            r@ == recalled(self.table(), opt_view(wing), opt_view(room), limit as nat),
    {
        let candidates = self.rows_in_place(wing, room);
        let ghost b = |a: StoredDrawer, b: StoredDrawer| more_important(a, b);
        let mut sorted = stable_sort(candidates, drawer_more_important, Ghost(b));
        let ghost before = sorted@;
        sorted.truncate(limit);
        assert(sorted@ =~= take_at_most(before, limit as nat));
        let mut out: Vec<Drawer> = Vec::new();
        let mut i: usize = 0;
        while i < sorted.len()
            invariant
                i <= sorted@.len(),
                out@ == drawers_of(sorted@).take(i as int),
            decreases sorted@.len() - i,
        {
            out.push(sorted[i].drawer.clone());
            assert(out@ =~= drawers_of(sorted@).take(i + 1));
            i = i + 1;
        }
        assert(drawers_of(sorted@).take(sorted@.len() as int) =~= drawers_of(sorted@));
        out
    }

    /// The wings with their drawer counts, most drawers first, and by name among wings
    /// with as many drawers.
    pub fn list_wings(&self) -> (r: Vec<(String, usize)>)
        ensures
            wing_count_views(r@) == wing_counts(self.table()),
    {
        let ghost rs = self.rows@;
        let mut names: Vec<String> = Vec::new();
        let mut i: usize = 0;
        while i < self.rows.len()
            invariant
                i <= rs.len(),
                rs == self.rows@,
                str_views(names@) == row_wings(rs).take(i as int),
            decreases rs.len() - i,
        {
            let ghost before = names@;
            names.push(self.rows[i].drawer.wing.clone());
            assert(str_views(names@) =~= row_wings(rs).take(i + 1)) by {
                assert(str_views(names@) =~= str_views(before).push(rs[i as int].drawer.wing@));
            }
            i = i + 1;
        }
        assert(row_wings(rs).take(rs.len() as int) =~= row_wings(rs));
        let wings = dedupe_strings(names);
        let ghost ws = str_views(wings@);
        let mut groups: Vec<(String, usize)> = Vec::new();
        let mut k: usize = 0;
        while k < wings.len()
            invariant
                k <= wings@.len(),
                rs == self.rows@,
                ws == str_views(wings@),
                wing_count_views(groups@) == ws.take(k as int).map_values(
                    |w: Seq<char>| (w, wing_count(rs, w)),
                ),
            decreases wings@.len() - k,
        {
            let n = self.count_wing(wings[k].as_str());
            let ghost before = groups@;
            groups.push((wings[k].clone(), n));
            assert(wing_count_views(groups@) =~= ws.take(k + 1).map_values(
                |w: Seq<char>| (w, wing_count(rs, w)),
            )) by {
                assert(wing_count_views(groups@) =~= wing_count_views(before).push((ws[k as int], n as nat)));
            }
            k = k + 1;
        }
        assert(ws.take(ws.len() as int) =~= ws);
        let ghost bn = |a: (String, usize), b: (String, usize)| wing_name_before((a.0@, a.1 as nat), (b.0@, b.1 as nat));
        let by_name = stable_sort(groups, wing_pair_before, Ghost(bn));
        let ghost bc = |a: (String, usize), b: (String, usize)| more_drawers((a.0@, a.1 as nat), (b.0@, b.1 as nat));
        let by_count = stable_sort(by_name, wing_pair_more, Ghost(bc));
        proof {
            let f = |p: (String, usize)| (p.0@, p.1 as nat);
            lemma_sort_by_map(groups@, f, |a: (Seq<char>, nat), b: (Seq<char>, nat)| wing_name_before(a, b), bn);
            lemma_sort_by_map(by_name@, f, |a: (Seq<char>, nat), b: (Seq<char>, nat)| more_drawers(a, b), bc);
        }
        by_count
    }

    fn count_wing(&self, wing: &str) -> (r: usize)
        ensures
            r == wing_count(self.table(), wing@),
    {
        let ghost rs = self.rows@;
        let mut n: usize = 0;
        let mut i: usize = 0;
        assert(rs.take(0) =~= Seq::<StoredDrawer>::empty());
        while i < self.rows.len()
            invariant
                i <= rs.len(),
                rs == self.rows@,
                n == wing_count(rs.take(i as int), wing@),
                n <= i,
            decreases rs.len() - i,
        {
            assert(rs.take(i + 1).drop_last() =~= rs.take(i as int));
            assert(rs.take(i + 1).last() == rs[i as int]);
            if str_eq(self.rows[i].drawer.wing.as_str(), wing) {
                n = n + 1;
            }
            i = i + 1;
        }
        assert(rs.take(rs.len() as int) =~= rs);
        n
    }

    /// The rooms with their wings and drawer counts, most drawers first; only those of
    /// `wing` when it is given.
    pub fn list_rooms(&self, wing: Option<&str>) -> (r: Vec<(String, String, usize)>)
        ensures
            room_count_views(r@) == room_triples(room_counts(self.table(), opt_view(wing))),
    {
        let rows = self.rows_in_place(wing, None);
        let nodes = group_rooms(&rows);
        let ghost b = |a: RoomNode, b: RoomNode| room_more_drawers(a@, b@);
        let sorted = stable_sort(nodes, room_node_more, Ghost(b));
        proof {
            lemma_sort_by_map(nodes@, |n: RoomNode| n@, |a: RoomNodeView, b: RoomNodeView| room_more_drawers(a, b), b);
        }
        let ghost sv = node_views(sorted@);
        let mut out: Vec<(String, String, usize)> = Vec::new();
        let mut i: usize = 0;
        while i < sorted.len()
            invariant
                i <= sorted@.len(),
                sv == node_views(sorted@),
                room_count_views(out@) == room_triples(sv).take(i as int),
            decreases sorted@.len() - i,
        {
            let ghost before = out@;
            out.push((sorted[i].wing.clone(), sorted[i].room.clone(), sorted[i].count));
            assert(room_count_views(out@) =~= room_triples(sv).take(i + 1)) by {
                assert(room_count_views(out@) =~= room_count_views(before).push(
                    (sorted@[i as int].wing@, sorted@[i as int].room@, sorted@[i as int].count as nat),
                ));
            }
            i = i + 1;
        }
        assert(room_triples(sv).take(sv.len() as int) =~= room_triples(sv));
        out
    }
}

} // verus!

verus! {

/// The rooms of wing `w` with their drawer counts, in the order of `nodes`.
pub open spec fn wing_rooms(nodes: Seq<RoomNodeView>, w: Seq<char>) -> Seq<(Seq<char>, nat)>
    decreases nodes.len(),
{
    if nodes.len() == 0 {
        Seq::empty()
    } else if nodes.last().wing == w {
        wing_rooms(nodes.drop_last(), w).push((nodes.last().room, nodes.last().count))
    } else {
        wing_rooms(nodes.drop_last(), w)
    }
}

/// Each wing of the palace graph with its rooms and their drawer counts, by wing and
/// then by room.
pub open spec fn taxonomy_of(rows: Seq<StoredDrawer>) -> Seq<(Seq<char>, Seq<(Seq<char>, nat)>)> {
    let nodes = room_nodes(rows);
    distinct_seq(node_wings(nodes)).map_values(|w: Seq<char>| (w, wing_rooms(nodes, w)))
}

pub open spec fn room_list_view(s: Seq<(String, usize)>) -> Seq<(Seq<char>, nat)> {
    s.map_values(|p: (String, usize)| (p.0@, p.1 as nat))
}

pub open spec fn taxonomy_view(s: Seq<(String, Vec<(String, usize)>)>) -> Seq<(Seq<char>, Seq<(Seq<char>, nat)>)> {
    s.map_values(|p: (String, Vec<(String, usize)>)| (p.0@, room_list_view(p.1@)))
}

fn rooms_of_wing(nodes: &Vec<RoomNode>, w: &str) -> (r: Vec<(String, usize)>)
    ensures
        room_list_view(r@) == wing_rooms(node_views(nodes@), w@),
{
    let ghost nv = node_views(nodes@);
    let mut out: Vec<(String, usize)> = Vec::new();
    let mut j: usize = 0;
    assert(nv.take(0) =~= Seq::<RoomNodeView>::empty());
    while j < nodes.len()
        invariant
            j <= nodes@.len(),
            nv == node_views(nodes@),
            room_list_view(out@) == wing_rooms(nv.take(j as int), w@),
        decreases nodes@.len() - j,
    {
        assert(nv.take(j + 1).drop_last() =~= nv.take(j as int));
        assert(nv.take(j + 1).last() == nodes@[j as int]@);
        if str_eq(nodes[j].wing.as_str(), w) {
            let ghost before = out@;
            out.push((nodes[j].room.clone(), nodes[j].count));
            assert(room_list_view(out@) =~= room_list_view(before).push(
                (nodes@[j as int].room@, nodes@[j as int].count as nat),
            ));
        }
        j = j + 1;
    }
    assert(nv.take(nodes@.len() as int) =~= nv);
    out
}

impl VectorStorage {
    /// Each wing with its rooms and their drawer counts, by wing and then by room.
    pub fn get_taxonomy(&self) -> (r: Vec<(String, Vec<(String, usize)>)>)
        ensures
            taxonomy_view(r@) == taxonomy_of(self.table()),
    {
        let nodes = group_rooms(&self.rows);
        let ghost nv = node_views(nodes@);
        let wings = dedupe_strings(wing_names(&nodes));
        let ghost ws = str_views(wings@);
        let mut out: Vec<(String, Vec<(String, usize)>)> = Vec::new();
        let mut k: usize = 0;
        while k < wings.len()
            invariant
                k <= wings@.len(),
                nv == node_views(nodes@),
                nv == room_nodes(self.table()),
                ws == str_views(wings@),
                ws == distinct_seq(node_wings(nv)),
                taxonomy_view(out@) == ws.take(k as int).map_values(
                    |w: Seq<char>| (w, wing_rooms(nv, w)),
                ),
            decreases wings@.len() - k,
        {
            let rooms = rooms_of_wing(&nodes, wings[k].as_str());
            let ghost before = out@;
            out.push((wings[k].clone(), rooms));
            assert(taxonomy_view(out@) =~= ws.take(k + 1).map_values(
                |w: Seq<char>| (w, wing_rooms(nv, w)),
            )) by {
                assert(taxonomy_view(out@) =~= taxonomy_view(before).push((ws[k as int], wing_rooms(nv, ws[k as int]))));
            }
            k = k + 1;
        }
        assert(ws.take(ws.len() as int) =~= ws);
        out
    }
}

} // verus!

verus! {

/// The rows whose drawer has id `id`, in order.
pub open spec fn rows_with_id(rows: Seq<StoredDrawer>, id: Seq<char>) -> Seq<StoredDrawer>
    decreases rows.len(),
{
    if rows.len() == 0 {
        Seq::empty()
    } else if rows.last().drawer.id@ == id {
        rows_with_id(rows.drop_last(), id).push(rows.last())
    } else {
        rows_with_id(rows.drop_last(), id)
    }
}

/// Deleting `id` removes every row with that id, keeps every other row, and removes as
/// many rows as held the id.
pub proof fn lemma_delete_removes_only_id(rows: Seq<StoredDrawer>, id: Seq<char>, other: Seq<char>)
    requires
        other != id,
    ensures
        rows_with_id(rows_without(rows, id), id) == Seq::<StoredDrawer>::empty(),
        rows_with_id(rows_without(rows, id), other) == rows_with_id(rows, other),
        rows_without(rows, id).len() + rows_with_id(rows, id).len() == rows.len(),
    decreases rows.len(),
{
    if rows.len() > 0 {
        lemma_delete_removes_only_id(rows.drop_last(), id, other);
        let w = rows_without(rows.drop_last(), id);
        assert(w.push(rows.last()).drop_last() =~= w);
        assert(w.push(rows.last()).last() == rows.last());
    } else {
        assert(rows_with_id(rows_without(rows, id), id) =~= Seq::<StoredDrawer>::empty());
    }
}

/// A drawer read back after it was added is the one added, with its vector: the table
/// holds exactly one row with its id; rows with other ids are as they were.
pub proof fn lemma_add_then_read(rows: Seq<StoredDrawer>, d: Drawer, vector: String, other: Seq<char>)
    requires
        other != d.id@,
    ensures
        rows_with_id(rows_without(rows, d.id@).push(StoredDrawer { drawer: d, vector }), d.id@)
            == seq![StoredDrawer { drawer: d, vector }],
        rows_with_id(rows_without(rows, d.id@).push(StoredDrawer { drawer: d, vector }), other)
            == rows_with_id(rows, other),
{
    lemma_delete_removes_only_id(rows, d.id@, other);
    let t = rows_without(rows, d.id@).push(StoredDrawer { drawer: d, vector });
    assert(t.drop_last() =~= rows_without(rows, d.id@));
    assert(Seq::<StoredDrawer>::empty().push(StoredDrawer { drawer: d, vector }) =~= seq![StoredDrawer { drawer: d, vector }]);
}

proof fn lemma_rows_in_place(rows: Seq<StoredDrawer>, wing: Option<Seq<char>>, room: Option<Seq<char>>)
    ensures
        forall|k: int| 0 <= k < rows_in(rows, wing, room).len() ==> in_place(#[trigger] rows_in(rows, wing, room)[k].drawer, wing, room),
        rows_in(rows, wing, room).len() <= rows.len(),
    decreases rows.len(),
{
    if rows.len() > 0 {
        lemma_rows_in_place(rows.drop_last(), wing, room);
        let sub = rows_in(rows.drop_last(), wing, room);
        if in_place(rows.last().drawer, wing, room) {
            assert forall|k: int| 0 <= k < sub.push(rows.last()).len() implies in_place(#[trigger] sub.push(rows.last())[k].drawer, wing, room) by {
                if k < sub.len() {
                    assert(sub.push(rows.last())[k] == sub[k]);
                }
            }
        }
    }
}

/// Recall returns at most `limit` drawers, all filed where it was asked, from the most
/// important down.
pub proof fn lemma_recall_ordered(rows: Seq<StoredDrawer>, wing: Option<Seq<char>>, room: Option<Seq<char>>, limit: nat)
    ensures
        recalled(rows, wing, room, limit).len() <= limit,
        forall|k: int| 0 <= k < recalled(rows, wing, room, limit).len() ==> in_place(#[trigger] recalled(rows, wing, room, limit)[k], wing, room),
        forall|i: int, j: int|
            0 <= i < j < recalled(rows, wing, room, limit).len() ==> importance_rank(#[trigger] recalled(rows, wing, room, limit)[i].importance)
                >= importance_rank(#[trigger] recalled(rows, wing, room, limit)[j].importance),
{
    broadcast use vstd::seq_lib::group_to_multiset_ensures;
    let b = |a: StoredDrawer, b: StoredDrawer| more_important(a, b);
    let c = rows_in(rows, wing, room);
    lemma_rows_in_place(rows, wing, room);
    crate::sorting::lemma_sort_by_sorted(c, b);
    crate::sorting::lemma_sort_by_len(c, b);
    let s = sort_by(c, b);
    let t = take_at_most(s, limit);
    let r = recalled(rows, wing, room, limit);
    assert forall|k: int| 0 <= k < r.len() implies in_place(#[trigger] r[k], wing, room) by {
        assert(r[k] == t[k].drawer);
        assert(t[k] == s[k]);
        assert(s.contains(s[k]));
        assert(s.to_multiset().count(s[k]) > 0);
        assert(c.to_multiset().count(s[k]) > 0);
        assert(c.contains(s[k]));
        let m = choose|m: int| 0 <= m < c.len() && c[m] == s[k];
        assert(in_place(c[m].drawer, wing, room));
    }
    assert forall|i: int, j: int| 0 <= i < j < r.len() implies importance_rank(#[trigger] r[i].importance) >= importance_rank(#[trigger] r[j].importance) by {
        assert(r[i] == s[i].drawer && r[j] == s[j].drawer);
        assert(!b(s[j], s[i]));
    }
}

/// Wings are listed from the most drawers down.
pub proof fn lemma_wings_by_count(rows: Seq<StoredDrawer>)
    ensures
        forall|i: int, j: int| 0 <= i < j < wing_counts(rows).len() ==> (#[trigger] wing_counts(rows)[i]).1 >= (#[trigger] wing_counts(rows)[j]).1,
{
    let inner = sort_by(
        distinct_seq(row_wings(rows)).map_values(|w: Seq<char>| (w, wing_count(rows, w))),
        |a: (Seq<char>, nat), b: (Seq<char>, nat)| wing_name_before(a, b),
    );
    let b = |a: (Seq<char>, nat), b: (Seq<char>, nat)| more_drawers(a, b);
    crate::sorting::lemma_sort_by_sorted(inner, b);
    let r = wing_counts(rows);
    assert forall|i: int, j: int| 0 <= i < j < r.len() implies (#[trigger] r[i]).1 >= (#[trigger] r[j]).1 by {
        assert(!b(r[j], r[i]));
    }
}

} // verus!

verus! {

/// Rooms are listed from the most drawers down.
pub proof fn lemma_rooms_by_count(rows: Seq<StoredDrawer>, wing: Option<Seq<char>>)
    ensures
        forall|i: int, j: int|
            0 <= i < j < room_counts(rows, wing).len() ==> (#[trigger] room_counts(rows, wing)[i]).count
                >= (#[trigger] room_counts(rows, wing)[j]).count,
{
    let b = |a: RoomNodeView, b: RoomNodeView| room_more_drawers(a, b);
    crate::sorting::lemma_sort_by_sorted(room_nodes(rows_in(rows, wing, None)), b);
    let r = room_counts(rows, wing);
    assert forall|i: int, j: int| 0 <= i < j < r.len() implies (#[trigger] r[i]).count >= (#[trigger] r[j]).count by {
        assert(!b(r[j], r[i]));
    }
}

} // verus!

verus! {

proof fn lemma_without_distinct(rows: Seq<StoredDrawer>, id: Seq<char>)
    requires
        distinct_ids(rows),
    ensures
        distinct_ids(rows_without(rows, id)),
        forall|k: int| 0 <= k < rows_without(rows, id).len() ==> (#[trigger] rows_without(rows, id)[k]).drawer.id@ != id,
        forall|k: int| 0 <= k < rows_without(rows, id).len() ==> exists|m: int| 0 <= m < rows.len() && rows[m] == #[trigger] rows_without(rows, id)[k],
    decreases rows.len(),
{
    if rows.len() > 0 {
        let init = rows.drop_last();
        assert forall|i: int, j: int| 0 <= i < j < init.len() implies (#[trigger] init[i]).drawer.id@ != (#[trigger] init[j]).drawer.id@ by {
            assert(init[i] == rows[i] && init[j] == rows[j]);
        }
        lemma_without_distinct(init, id);
        let w = rows_without(init, id);
        assert forall|k: int| 0 <= k < w.len() implies exists|m: int| 0 <= m < rows.len() && rows[m] == #[trigger] w[k] by {
            let m = choose|m: int| 0 <= m < init.len() && init[m] == w[k];
            assert(rows[m] == init[m]);
        }
        if rows.last().drawer.id@ != id {
            let r = w.push(rows.last());
            assert forall|k: int| 0 <= k < w.len() implies w[k].drawer.id@ != rows.last().drawer.id@ by {
                let m = choose|m: int| 0 <= m < init.len() && init[m] == w[k];
                assert(rows[m] == init[m]);
                assert(rows[rows.len() - 1] == rows.last());
            }
            assert forall|i: int, j: int| 0 <= i < j < r.len() implies (#[trigger] r[i]).drawer.id@ != (#[trigger] r[j]).drawer.id@ by {
                if j == w.len() {
                    assert(r[i] == w[i]);
                } else {
                    assert(r[i] == w[i] && r[j] == w[j]);
                }
            }
            assert forall|k: int| 0 <= k < r.len() implies exists|m: int| 0 <= m < rows.len() && rows[m] == #[trigger] r[k] by {
                if k < w.len() {
                    assert(r[k] == w[k]);
                } else {
                    assert(rows[rows.len() - 1] == r[k]);
                }
            }
        }
    }
}

proof fn lemma_with_id_count(rows: Seq<StoredDrawer>, id: Seq<char>)
    requires
        distinct_ids(rows),
    ensures
        rows_with_id(rows, id).len() == if has_id(rows, id) { 1nat } else { 0nat },
    decreases rows.len(),
{
    if rows.len() > 0 {
        let init = rows.drop_last();
        assert forall|i: int, j: int| 0 <= i < j < init.len() implies (#[trigger] init[i]).drawer.id@ != (#[trigger] init[j]).drawer.id@ by {
            assert(init[i] == rows[i] && init[j] == rows[j]);
        }
        lemma_with_id_count(init, id);
        if has_id(init, id) {
            let k = choose|k: int| 0 <= k < init.len() && (#[trigger] init[k]).drawer.id@ == id;
            assert(rows[k] == init[k]);
            assert(rows[rows.len() - 1] == rows.last());
        }
        if has_id(rows, id) {
            let k = choose|k: int| 0 <= k < rows.len() && (#[trigger] rows[k]).drawer.id@ == id;
            if k < rows.len() - 1 {
                assert(init[k] == rows[k]);
            }
        }
    }
}

proof fn lemma_count_after_remove(rows: Seq<StoredDrawer>, id: Seq<char>)
    requires
        distinct_ids(rows),
    ensures
        rows_without(rows, id).len() + if has_id(rows, id) { 1nat } else { 0nat } == rows.len(),
{
    let other = id.push('x');
    assert(other.len() != id.len());
    lemma_delete_removes_only_id(rows, id, other);
    lemma_with_id_count(rows, id);
}

} // verus!

verus! {

/// The sum of the counts of `s`.
pub open spec fn pair_total(s: Seq<(Seq<char>, nat)>) -> nat
    decreases s.len(),
{
    if s.len() == 0 {
        0
    } else {
        pair_total(s.drop_last()) + s.last().1
    }
}

/// The sum of the drawer counts of the wings `ws`.
pub open spec fn wings_total(rows: Seq<StoredDrawer>, ws: Seq<Seq<char>>) -> nat
    decreases ws.len(),
{
    if ws.len() == 0 {
        0
    } else {
        wings_total(rows, ws.drop_last()) + wing_count(rows, ws.last())
    }
}

proof fn lemma_pair_total_insert(s: Seq<(Seq<char>, nat)>, p: int, x: (Seq<char>, nat))
    requires
        0 <= p <= s.len(),
    ensures
        pair_total(s.insert(p, x)) == pair_total(s) + x.1,
    decreases s.len(),
{
    if p == s.len() {
        assert(s.insert(p, x).drop_last() =~= s);
    } else {
        assert(s.insert(p, x).drop_last() =~= s.drop_last().insert(p, x));
        lemma_pair_total_insert(s.drop_last(), p, x);
    }
}

proof fn lemma_pair_total_sorted(s: Seq<(Seq<char>, nat)>, b: spec_fn((Seq<char>, nat), (Seq<char>, nat)) -> bool)
    ensures
        pair_total(sort_by(s, b)) == pair_total(s),
    decreases s.len(),
{
    if s.len() > 0 {
        lemma_pair_total_sorted(s.drop_last(), b);
        let sorted = sort_by(s.drop_last(), b);
        crate::sorting::lemma_insert_pos_bounds(sorted, s.last(), b);
        lemma_pair_total_insert(sorted, crate::sorting::insert_pos(sorted, s.last(), b), s.last());
    }
}

proof fn lemma_pair_total_of_wings(rows: Seq<StoredDrawer>, ws: Seq<Seq<char>>)
    ensures
        pair_total(ws.map_values(|w: Seq<char>| (w, wing_count(rows, w)))) == wings_total(rows, ws),
    decreases ws.len(),
{
    if ws.len() > 0 {
        lemma_pair_total_of_wings(rows, ws.drop_last());
        assert(ws.map_values(|w: Seq<char>| (w, wing_count(rows, w))).drop_last() =~= ws.drop_last().map_values(
            |w: Seq<char>| (w, wing_count(rows, w)),
        ));
    }
}

/// Adding a row of wing `x` adds one to the total of the wings for each time `x` is
/// among them.
proof fn lemma_wings_total_step(rows: Seq<StoredDrawer>, ws: Seq<Seq<char>>)
    requires
        rows.len() > 0,
        ws.no_duplicates(),
    ensures
        wings_total(rows, ws) == wings_total(rows.drop_last(), ws) + if ws.contains(rows.last().drawer.wing@) {
            1nat
        } else {
            0nat
        },
    decreases ws.len(),
{
    if ws.len() > 0 {
        let x = rows.last().drawer.wing@;
        let init = ws.drop_last();
        assert(init.no_duplicates());
        lemma_wings_total_step(rows, init);
        if ws.last() == x {
            assert(!init.contains(x)) by {
                if init.contains(x) {
                    let k = choose|k: int| 0 <= k < init.len() && init[k] == x;
                    assert(ws[k] == ws[ws.len() - 1]);
                }
            }
            assert(ws.contains(x)) by {
                assert(ws[ws.len() - 1] == x);
            }
        } else {
            assert(ws.contains(x) == init.contains(x)) by {
                if ws.contains(x) {
                    let k = choose|k: int| 0 <= k < ws.len() && ws[k] == x;
                    assert(init[k] == x);
                }
                if init.contains(x) {
                    let k = choose|k: int| 0 <= k < init.len() && init[k] == x;
                    assert(ws[k] == x);
                }
            }
        }
    }
}

proof fn lemma_wing_count_absent(rows: Seq<StoredDrawer>, w: Seq<char>)
    requires
        !row_wings(rows).contains(w),
    ensures
        wing_count(rows, w) == 0,
    decreases rows.len(),
{
    if rows.len() > 0 {
        assert(row_wings(rows.drop_last()) =~= row_wings(rows).drop_last());
        assert(!row_wings(rows.drop_last()).contains(w)) by {
            if row_wings(rows.drop_last()).contains(w) {
                let k = choose|k: int| 0 <= k < row_wings(rows.drop_last()).len() && row_wings(rows.drop_last())[k] == w;
                assert(row_wings(rows)[k] == w);
            }
        }
        assert(row_wings(rows)[rows.len() - 1] == rows.last().drawer.wing@);
        lemma_wing_count_absent(rows.drop_last(), w);
    }
}

proof fn lemma_wing_count_present(rows: Seq<StoredDrawer>, w: Seq<char>)
    requires
        row_wings(rows).contains(w),
    ensures
        wing_count(rows, w) > 0,
    decreases rows.len(),
{
    let k = choose|k: int| 0 <= k < row_wings(rows).len() && row_wings(rows)[k] == w;
    if k < rows.len() - 1 {
        assert(row_wings(rows.drop_last()) =~= row_wings(rows).drop_last());
        assert(row_wings(rows.drop_last())[k] == w);
        lemma_wing_count_present(rows.drop_last(), w);
    }
}

/// The counts of the distinct wings of a table add up to its number of rows.
proof fn lemma_distinct_wings_total(rows: Seq<StoredDrawer>)
    ensures
        wings_total(rows, distinct_seq(row_wings(rows))) == rows.len(),
    decreases rows.len(),
{
    if rows.len() > 0 {
        let init = rows.drop_last();
        let x = rows.last().drawer.wing@;
        lemma_distinct_wings_total(init);
        assert(row_wings(rows).drop_last() =~= row_wings(init));
        assert(row_wings(rows).last() == x);
        let d = distinct_seq(row_wings(init));
        crate::text::lemma_distinct_seq(row_wings(init));
        lemma_wings_total_step(rows, d);
        if d.contains(x) {
            assert(distinct_seq(row_wings(rows)) == d);
        } else {
            assert(distinct_seq(row_wings(rows)) == d.push(x));
            assert(d.push(x).drop_last() =~= d);
            assert(!row_wings(init).contains(x)) by {
                if row_wings(init).contains(x) {
                    assert(row_wings(init).to_set().contains(x));
                    assert(d.to_set().contains(x));
                }
            }
            lemma_wing_count_absent(init, x);
        }
    }
}

/// `list_wings` lists each wing of the table once, with the number of its drawers (at
/// least one), from the most drawers down, and the counts add up to the number of
/// drawers.
pub proof fn lemma_wing_list_complete(rows: Seq<StoredDrawer>)
    ensures
        forall|i: int, j: int| 0 <= i < j < wing_counts(rows).len() ==> (#[trigger] wing_counts(rows)[i]).0 != (#[trigger] wing_counts(rows)[j]).0,
        forall|k: int| 0 <= k < wing_counts(rows).len() ==> {
            &&& (#[trigger] wing_counts(rows)[k]).1 == wing_count(rows, wing_counts(rows)[k].0)
            &&& wing_counts(rows)[k].1 > 0
            &&& row_wings(rows).contains(wing_counts(rows)[k].0)
        },
        forall|m: int| 0 <= m < rows.len() ==> exists|k: int| 0 <= k < wing_counts(rows).len() && (#[trigger] wing_counts(rows)[k]).0 == (#[trigger] rows[m]).drawer.wing@,
        forall|i: int, j: int| 0 <= i < j < wing_counts(rows).len() ==> (#[trigger] wing_counts(rows)[i]).1 >= (#[trigger] wing_counts(rows)[j]).1,
        pair_total(wing_counts(rows)) == rows.len(),
{
    broadcast use vstd::seq_lib::group_to_multiset_ensures;
    let f = |w: Seq<char>| (w, wing_count(rows, w));
    let d = distinct_seq(row_wings(rows));
    let p = d.map_values(f);
    let nb = |a: (Seq<char>, nat), b: (Seq<char>, nat)| wing_name_before(a, b);
    let cb = |a: (Seq<char>, nat), b: (Seq<char>, nat)| more_drawers(a, b);
    let s1 = sort_by(p, nb);
    let r = wing_counts(rows);
    assert(r == sort_by(s1, cb));
    crate::text::lemma_distinct_seq(row_wings(rows));
    lemma_wings_by_count(rows);
    // totals
    lemma_pair_total_of_wings(rows, d);
    lemma_distinct_wings_total(rows);
    lemma_pair_total_sorted(p, nb);
    lemma_pair_total_sorted(s1, cb);
    // membership
    assert forall|x: (Seq<char>, nat)| r.contains(x) <==> p.contains(x) by {
        crate::sorting::lemma_sort_by_contains(p, nb, x);
        crate::sorting::lemma_sort_by_contains(s1, cb, x);
    }
    assert forall|x: (Seq<char>, nat)| p.contains(x) implies x == f(x.0) && row_wings(rows).contains(x.0) by {
        {
            let k = choose|k: int| 0 <= k < p.len() && p[k] == x;
            assert(d.contains(d[k]));
            assert(d.to_set().contains(d[k]));
            assert(row_wings(rows).to_set().contains(d[k]));
        }
    }
    assert forall|k: int| 0 <= k < r.len() implies {
        &&& (#[trigger] r[k]).1 == wing_count(rows, r[k].0)
        &&& r[k].1 > 0
        &&& row_wings(rows).contains(r[k].0)
    } by {
        assert(r.contains(r[k]));
        lemma_wing_count_present(rows, r[k].0);
    }
    // every wing is listed
    assert forall|m: int| 0 <= m < rows.len() implies exists|k: int| 0 <= k < r.len() && (#[trigger] r[k]).0 == (#[trigger] rows[m]).drawer.wing@ by {
        let w = rows[m].drawer.wing@;
        assert(row_wings(rows)[m] == w);
        assert(row_wings(rows).to_set().contains(w));
        assert(d.to_set().contains(w));
        let j = choose|j: int| 0 <= j < d.len() && d[j] == w;
        assert(p[j] == f(w));
        assert(p.contains(f(w)));
        assert(r.contains(f(w)));
        let k = choose|k: int| 0 <= k < r.len() && r[k] == f(w);
    }
    // distinct names
    assert(p.no_duplicates()) by {
        assert forall|i: int, j: int| 0 <= i < p.len() && 0 <= j < p.len() && i != j implies p[i] != p[j] by {
            assert(d[i] != d[j]);
        }
    }
    p.lemma_multiset_has_no_duplicates();
    crate::sorting::lemma_sort_by_permutes(p, nb);
    crate::sorting::lemma_sort_by_permutes(s1, cb);
    r.lemma_multiset_has_no_duplicates_conv();
    assert forall|i: int, j: int| 0 <= i < j < r.len() implies (#[trigger] r[i]).0 != (#[trigger] r[j]).0 by {
        assert(r.contains(r[i]));
        assert(r.contains(r[j]));
        assert(r[i] != r[j]);
    }
}

} // verus!
