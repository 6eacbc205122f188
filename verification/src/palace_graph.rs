use vstd::prelude::*;
use crate::sorting::{sort_by, stable_sort, lemma_sort_by_map};
use crate::text::{seq_lt, str_eq, str_lt, concat, str_views, strings_contain, opt_view};
use crate::vector::{StoredDrawer, VectorStorage};

verus! {

/// A room of the palace: the drawers filed under one wing and room.
pub struct RoomNode {
    pub id: String,
    pub wing: String,
    pub room: String,
    pub count: usize,
}

/// What a room node holds, as mathematical values.
pub struct RoomNodeView {
    pub id: Seq<char>,
    pub wing: Seq<char>,
    pub room: Seq<char>,
    pub count: nat,
}

impl View for RoomNode {
    type V = RoomNodeView;

    open spec fn view(&self) -> RoomNodeView {
        RoomNodeView { id: self.id@, wing: self.wing@, room: self.room@, count: self.count as nat }
    }
}

impl Clone for RoomNode {
    fn clone(&self) -> (r: Self)
        ensures
            r == *self,
    {
        RoomNode {
            id: self.id.clone(),
            wing: self.wing.clone(),
            room: self.room.clone(),
            count: self.count,
        }
    }
}

pub open spec fn node_views(s: Seq<RoomNode>) -> Seq<RoomNodeView> {
    s.map_values(|n: RoomNode| n@)
}

/// The id of the room `room` of wing `wing`: `wing/room`.
pub open spec fn room_id(wing: Seq<char>, room: Seq<char>) -> Seq<char> {
    wing + seq!['/'] + room
}

/// How many rows are filed under `wing` and `room`.
pub open spec fn pair_count(rows: Seq<StoredDrawer>, wing: Seq<char>, room: Seq<char>) -> nat
    decreases rows.len(),
{
    if rows.len() == 0 {
        0
    } else {
        pair_count(rows.drop_last(), wing, room) + if rows.last().drawer.wing@ == wing
            && rows.last().drawer.room@ == room {
            1nat
        } else {
            0nat
        }
    }
}

/// The distinct (wing, room) pairs of `rows`, in the order of their first row.
pub open spec fn room_pairs(rows: Seq<StoredDrawer>) -> Seq<(Seq<char>, Seq<char>)>
    decreases rows.len(),
{
    if rows.len() == 0 {
        Seq::empty()
    } else {
        let p = room_pairs(rows.drop_last());
        let q = (rows.last().drawer.wing@, rows.last().drawer.room@);
        if p.contains(q) {
            p
        } else {
            p.push(q)
        }
    }
}

/// Order of nodes by wing, then by room.
pub open spec fn room_before(a: RoomNodeView, b: RoomNodeView) -> bool {
    seq_lt(a.wing, b.wing) || (a.wing == b.wing && seq_lt(a.room, b.room))
}

pub open spec fn pair_node(rows: Seq<StoredDrawer>, p: (Seq<char>, Seq<char>)) -> RoomNodeView {
    RoomNodeView { id: room_id(p.0, p.1), wing: p.0, room: p.1, count: pair_count(rows, p.0, p.1) }
}

/// One node per distinct (wing, room) pair, in the order of their first row.
pub open spec fn pair_nodes(rows: Seq<StoredDrawer>) -> Seq<RoomNodeView> {
    room_pairs(rows).map_values(|p: (Seq<char>, Seq<char>)| pair_node(rows, p))
}

proof fn lemma_pair_nodes(rows: Seq<StoredDrawer>)
    ensures
        pair_nodes(rows).len() == room_pairs(rows).len(),
        forall|k: int|
            0 <= k < room_pairs(rows).len() ==> #[trigger] pair_nodes(rows)[k] == pair_node(
                rows,
                room_pairs(rows)[k],
            ),
{
}

/// The palace graph of a drawers table: one node per (wing, room) that holds a drawer,
/// with the number of drawers there, ordered by wing and then by room.
pub open spec fn room_nodes(rows: Seq<StoredDrawer>) -> Seq<RoomNodeView> {
    sort_by(
        pair_nodes(rows),
        |a: RoomNodeView, b: RoomNodeView| room_before(a, b),
    )
}

proof fn lemma_room_pairs_distinct(rows: Seq<StoredDrawer>)
    ensures
        room_pairs(rows).no_duplicates(),
    decreases rows.len(),
{
    if rows.len() > 0 {
        lemma_room_pairs_distinct(rows.drop_last());
    }
}

proof fn lemma_pair_count_absent(rows: Seq<StoredDrawer>, q: (Seq<char>, Seq<char>))
    requires
        !room_pairs(rows).contains(q),
    ensures
        pair_count(rows, q.0, q.1) == 0,
    decreases rows.len(),
{
    if rows.len() > 0 {
        let p = room_pairs(rows.drop_last());
        if p.contains(q) {
            let j = choose|j: int| 0 <= j < p.len() && p[j] == q;
            assert(room_pairs(rows).contains(q)) by {
                if !p.contains((rows.last().drawer.wing@, rows.last().drawer.room@)) {
                    assert(room_pairs(rows)[j] == q);
                } else {
                    assert(room_pairs(rows)[j] == q);
                }
            }
        }
        lemma_pair_count_absent(rows.drop_last(), q);
        if (rows.last().drawer.wing@, rows.last().drawer.room@) == q {
            if p.contains(q) {
            } else {
                assert(room_pairs(rows).last() == q);
                assert(room_pairs(rows).contains(q));
            }
        }
    }
}

proof fn lemma_pair_count_bound(rows: Seq<StoredDrawer>, wing: Seq<char>, room: Seq<char>)
    ensures
        pair_count(rows, wing, room) <= rows.len(),
    decreases rows.len(),
{
    if rows.len() > 0 {
        lemma_pair_count_bound(rows.drop_last(), wing, room);
    }
}

fn room_node_before(a: &RoomNode, b: &RoomNode) -> (r: bool)
    ensures
        r == room_before(a@, b@),
{
    if str_lt(a.wing.as_str(), b.wing.as_str()) {
        true
    } else if str_eq(a.wing.as_str(), b.wing.as_str()) {
        str_lt(a.room.as_str(), b.room.as_str())
    } else {
        false
    }
}

/// The room id `wing/room`.
pub fn make_room_id(wing: &str, room: &str) -> (r: String)
    ensures
        r@ == room_id(wing@, room@),
{
    proof {
        reveal_strlit("/");
    }
    let w = concat(wing, "/");
    concat(w.as_str(), room)
}

/// The nodes of the palace graph, grouped from the rows of the drawers table.
#[verifier::loop_isolation(false)]
pub fn group_rooms(rows: &Vec<StoredDrawer>) -> (r: Vec<RoomNode>)
    ensures
        node_views(r@) == room_nodes(rows@),
{
    let mut groups: Vec<RoomNode> = Vec::new();
    let mut i: usize = 0;
    while i < rows.len()
        invariant
            i <= rows@.len(),
            node_views(groups@) == pair_nodes(rows@.take(i as int)),
        decreases rows@.len() - i,
    {
        let ghost prev = rows@.take(i as int);
        let ghost next = rows@.take(i + 1);
        assert(next.drop_last() =~= prev);
        let row = &rows[i];
        let ghost q = (row.drawer.wing@, row.drawer.room@);
        proof {
            lemma_pair_nodes(prev);
        }
        let mut k: usize = 0;
        let mut found = false;
        while k < groups.len()
            invariant
                k <= groups@.len(),
                node_views(groups@) == pair_nodes(prev),
                !found ==> forall|j: int| 0 <= j < k ==> room_pairs(prev)[j] != q,
                found ==> k < groups@.len() && room_pairs(prev)[k as int] == q,
            decreases groups@.len() - k + if found { 0int } else { 1int },
        {
            proof {
                lemma_pair_nodes(prev);
            }
            assert(groups@[k as int]@ == node_views(groups@)[k as int]);
            assert(node_views(groups@)[k as int] == pair_node(prev, room_pairs(prev)[k as int]));
            if str_eq(groups[k].wing.as_str(), row.drawer.wing.as_str()) && str_eq(
                groups[k].room.as_str(),
                row.drawer.room.as_str(),
            ) {
                found = true;
                assert(room_pairs(prev)[k as int] == q);
                break;
            }
            k = k + 1;
        }
        proof {
            lemma_pair_count_bound(prev, q.0, q.1);
            lemma_pair_nodes(prev);
            lemma_pair_nodes(next);
            lemma_room_pairs_distinct(prev);
            assert(next.last() == rows@[i as int]);
        }
        if found {
            assert(room_pairs(prev)[k as int] == q);
            assert(room_pairs(prev).contains(q));
            assert(groups@[k as int]@ == node_views(groups@)[k as int]);
            let old_node = &groups[k];
            assert(old_node@ == pair_node(prev, q));
            let updated = RoomNode {
                id: old_node.id.clone(),
                wing: old_node.wing.clone(),
                room: old_node.room.clone(),
                count: old_node.count + 1,
            };
            let ghost old_groups = groups@;
            groups.set(k, updated);
            proof {
                assert(room_pairs(next) == room_pairs(prev));
                assert forall|j: int| 0 <= j < groups@.len() implies node_views(groups@)[j]
                    == pair_node(next, room_pairs(next)[j]) by {
                    let pj = room_pairs(prev)[j];
                    assert(pair_count(next, pj.0, pj.1) == pair_count(prev, pj.0, pj.1) + if pj
                        == q {
                        1nat
                    } else {
                        0nat
                    });
                    assert(node_views(groups@)[j] == groups@[j]@);
                    if j != k {
                        assert(pj != q);
                        assert(groups@[j] == old_groups[j]);
                        assert(old_groups[j]@ == node_views(old_groups)[j]);
                        assert(pair_nodes(prev)[j] == pair_node(prev, pj));
                    }
                }
                lemma_pair_nodes(next);
                assert(node_views(groups@) =~= pair_nodes(next));
            }
        } else {
            assert(!room_pairs(prev).contains(q));
            let id = make_room_id(row.drawer.wing.as_str(), row.drawer.room.as_str());
            let node = RoomNode {
                id,
                wing: row.drawer.wing.clone(),
                room: row.drawer.room.clone(),
                count: 1,
            };
            let ghost old_groups = groups@;
            groups.push(node);
            proof {
                assert(room_pairs(next) == room_pairs(prev).push(q));
                assert forall|j: int| 0 <= j < groups@.len() implies node_views(groups@)[j]
                    == pair_node(next, room_pairs(next)[j]) by {
                    let pj = room_pairs(next)[j];
                    assert(pair_count(next, pj.0, pj.1) == pair_count(prev, pj.0, pj.1) + if pj
                        == q {
                        1nat
                    } else {
                        0nat
                    });
                    assert(node_views(groups@)[j] == groups@[j]@);
                    if j < groups@.len() - 1 {
                        assert(room_pairs(prev)[j] == pj);
                        assert(room_pairs(prev).contains(pj));
                        assert(pj != q);
                        assert(groups@[j] == old_groups[j]);
                        assert(old_groups[j]@ == node_views(old_groups)[j]);
                        assert(pair_nodes(prev)[j] == pair_node(prev, pj));
                    } else {
                        assert(pair_count(prev, q.0, q.1) == 0) by {
                            lemma_pair_count_absent(prev, q);
                        }
                    }
                }
                lemma_pair_nodes(next);
                assert(node_views(groups@) =~= pair_nodes(next));
            }
        }
        i = i + 1;
    }
    assert(rows@.take(rows@.len() as int) =~= rows@);
    let sorted = stable_sort(
        groups,
        room_node_before,
        Ghost(|a: RoomNode, b: RoomNode| room_before(a@, b@)),
    );
    proof {
        lemma_sort_by_map(
            groups@,
            |n: RoomNode| n@,
            |a: RoomNodeView, b: RoomNodeView| room_before(a, b),
            |a: RoomNode, b: RoomNode| room_before(a@, b@),
        );
    }
    sorted
}

} // verus!

verus! {

/// The node that a lookup by id finds: the last node with that id, as a map filled
/// in node order keeps it.
pub open spec fn lookup_node(nodes: Seq<RoomNodeView>, id: Seq<char>) -> Option<RoomNodeView>
    decreases nodes.len(),
{
    if nodes.len() == 0 {
        None
    } else if nodes.last().id == id {
        Some(nodes.last())
    } else {
        lookup_node(nodes.drop_last(), id)
    }
}

/// The first node whose room is `room`.
pub open spec fn first_in_room(nodes: Seq<RoomNodeView>, room: Seq<char>) -> Option<RoomNodeView>
    decreases nodes.len(),
{
    if nodes.len() == 0 {
        None
    } else if nodes[0].room == room {
        Some(nodes[0])
    } else {
        first_in_room(nodes.drop_first(), room)
    }
}

/// Where a traversal starts: a full `wing/room` id as it is given, or else the id of
/// the first node with that room, or else the name itself.
pub open spec fn start_node_id(nodes: Seq<RoomNodeView>, start: Seq<char>) -> Seq<char> {
    if start.contains('/') {
        start
    } else {
        match first_in_room(nodes, start) {
            Some(n) => n.id,
            None => start,
        }
    }
}

/// Queues every room of `wing` not yet visited, in node order, at `hops`.
pub open spec fn visit_wing(
    nodes: Seq<RoomNodeView>,
    wing: Seq<char>,
    hops: nat,
    visited: Seq<Seq<char>>,
    queue: Seq<(Seq<char>, nat)>,
) -> (Seq<Seq<char>>, Seq<(Seq<char>, nat)>)
    decreases nodes.len(),
{
    if nodes.len() == 0 {
        (visited, queue)
    } else {
        let (v, q) = visit_wing(nodes.drop_last(), wing, hops, visited, queue);
        let n = nodes.last();
        let id = room_id(wing, n.room);
        if n.wing == wing && !v.contains(id) {
            (v.push(id), q.push((id, hops)))
        } else {
            (v, q)
        }
    }
}

/// Breadth-first search: takes the front of the queue, reports its node when there is
/// one, and queues the rooms of the same wing while the hop limit allows.
pub open spec fn bfs(
    nodes: Seq<RoomNodeView>,
    max_hops: nat,
    visited: Seq<Seq<char>>,
    queue: Seq<(Seq<char>, nat)>,
    found: Seq<RoomNodeView>,
    fuel: nat,
) -> Seq<RoomNodeView>
    decreases fuel,
{
    if fuel == 0 || queue.len() == 0 {
        found
    } else {
        let id = queue[0].0;
        let h = queue[0].1;
        let rest = queue.drop_first();
        match lookup_node(nodes, id) {
            None => bfs(nodes, max_hops, visited, rest, found, (fuel - 1) as nat),
            Some(n) => if h < max_hops {
                let (v, q) = visit_wing(nodes, n.wing, h + 1, visited, rest);
                bfs(nodes, max_hops, v, q, found.push(n), (fuel - 1) as nat)
            } else {
                bfs(nodes, max_hops, visited, rest, found.push(n), (fuel - 1) as nat)
            },
        }
    }
}

/// The rooms reached from `start` within `max_hops` steps through shared wings, in
/// breadth-first order. Each id enters the queue once, so `nodes.len() + 1` steps
/// empty it.
pub open spec fn traverse(nodes: Seq<RoomNodeView>, start: Seq<char>, max_hops: nat) -> Seq<
    RoomNodeView,
> {
    let s = start_node_id(nodes, start);
    bfs(nodes, max_hops, seq![s], seq![(s, 0nat)], Seq::empty(), nodes.len() + 1)
}

/// The ids that a traversal can visit besides its start.
pub open spec fn node_room_ids(nodes: Seq<RoomNodeView>) -> Seq<Seq<char>> {
    nodes.map_values(|n: RoomNodeView| room_id(n.wing, n.room))
}

pub open spec fn queue_of(ids: Seq<Seq<char>>, hops: Seq<usize>) -> Seq<(Seq<char>, nat)> {
    Seq::new(ids.len(), |k: int| (ids[k], hops[k] as nat))
}

proof fn lemma_visited_bound(v: Seq<Seq<char>>, nodes: Seq<RoomNodeView>, s: Seq<char>)
    requires
        v.no_duplicates(),
        forall|k: int| 0 <= k < v.len() ==> v[k] == s || node_room_ids(nodes).contains(#[trigger] v[k]),
    ensures
        v.len() <= nodes.len() + 1,
{
    broadcast use vstd::seq_lib::group_seq_properties;
    broadcast use vstd::set::group_set_axioms;
    let ids = node_room_ids(nodes);
    let cand = ids.to_set().insert(s);
    ids.lemma_cardinality_of_set();
    assert(v.to_set().subset_of(cand)) by {
        assert forall|x: Seq<char>| v.to_set().contains(x) implies cand.contains(x) by {
            let k = choose|k: int| 0 <= k < v.len() && v[k] == x;
            assert(v[k] == s || ids.contains(v[k]));
        }
    }
    vstd::set_lib::lemma_len_subset(v.to_set(), cand);
    v.unique_seq_to_set();
}

/// The index of the node that a lookup by `id` finds.
fn find_node(nodes: &Vec<RoomNode>, id: &str) -> (r: Option<usize>)
    ensures
        match r {
            Some(k) => k < nodes@.len() && lookup_node(node_views(nodes@), id@) == Some(
                nodes@[k as int]@,
            ),
            None => lookup_node(node_views(nodes@), id@) is None,
        },
{
    let ghost nv = node_views(nodes@);
    let mut found: Option<usize> = None;
    let mut j: usize = 0;
    while j < nodes.len()
        invariant
            j <= nodes@.len(),
            nv == node_views(nodes@),
            match found {
                Some(k) => k < j && lookup_node(nv.take(j as int), id@) == Some(nodes@[k as int]@),
                None => lookup_node(nv.take(j as int), id@) is None,
            },
        decreases nodes@.len() - j,
    {
        assert(nv.take(j + 1).drop_last() =~= nv.take(j as int));
        assert(nv.take(j + 1).last() == nodes@[j as int]@);
        if str_eq(nodes[j].id.as_str(), id) {
            found = Some(j);
        }
        j = j + 1;
    }
    assert(nv.take(nodes@.len() as int) =~= nv);
    found
}

/// The node found first with room `room`.
fn find_first_in_room(nodes: &Vec<RoomNode>, room: &str) -> (r: Option<usize>)
    ensures
        match r {
            Some(k) => k < nodes@.len() && first_in_room(node_views(nodes@), room@) == Some(
                nodes@[k as int]@,
            ),
            None => first_in_room(node_views(nodes@), room@) is None,
        },
{
    let ghost nv = node_views(nodes@);
    let mut j: usize = 0;
    assert(nv.skip(0) =~= nv);
    while j < nodes.len()
        invariant
            j <= nodes@.len(),
            nv == node_views(nodes@),
            first_in_room(nv, room@) == first_in_room(nv.skip(j as int), room@),
        decreases nodes@.len() - j,
    {
        assert(nv.skip(j as int)[0] == nodes@[j as int]@);
        if str_eq(nodes[j].room.as_str(), room) {
            return Some(j);
        }
        assert(nv.skip(j as int).drop_first() =~= nv.skip(j + 1));
        j = j + 1;
    }
    None
}

fn has_slash(s: &str) -> (r: bool)
    ensures
        r == s@.contains('/'),
{
    let cs = crate::text::chars_of(s);
    let mut i: usize = 0;
    while i < cs.len()
        invariant
            cs@ == s@,
            i <= cs@.len(),
            forall|k: int| 0 <= k < i ==> cs@[k] != '/',
        decreases cs@.len() - i,
    {
        if cs[i] == '/' {
            return true;
        }
        i = i + 1;
    }
    false
}

/// Breadth-first traversal of the palace graph `nodes` from the room named `start_room`
/// (a `wing/room` id or a bare room name), up to `max_hops` steps through shared wings.
#[verifier::loop_isolation(false)]
pub fn traverse_nodes(nodes: &Vec<RoomNode>, start_room: &str, max_hops: usize) -> (r: Vec<
    RoomNode,
>)
    ensures
        node_views(r@) == traverse(node_views(nodes@), start_room@, max_hops as nat),
{
    let ghost nv = node_views(nodes@);
    let start_id: String = if has_slash(start_room) {
        start_room.to_owned()
    } else {
        match find_first_in_room(nodes, start_room) {
            Some(k) => nodes[k].id.clone(),
            None => start_room.to_owned(),
        }
    };
    let ghost s = start_node_id(nv, start_room@);
    assert(start_id@ == s);
    let ghost target = traverse(nv, start_room@, max_hops as nat);
    let mut visited: Vec<String> = Vec::new();
    let mut hops: Vec<usize> = Vec::new();
    visited.push(start_id);
    hops.push(0);
    let mut result: Vec<RoomNode> = Vec::new();
    let mut head: usize = 0;
    assert(str_views(visited@) =~= seq![s]);
    assert(queue_of(str_views(visited@), hops@).skip(0) =~= seq![(s, 0nat)]);
    assert(node_views(result@) =~= Seq::<RoomNodeView>::empty());
    while head < visited.len()
        invariant
            nv == node_views(nodes@),
            head <= visited@.len(),
            hops@.len() == visited@.len(),
            visited@.len() <= nodes@.len() + 1,
            str_views(visited@).no_duplicates(),
            forall|k: int|
                0 <= k < visited@.len() ==> visited@[k]@ == s || node_room_ids(nv).contains(
                    #[trigger] str_views(visited@)[k],
                ),
            forall|k: int| 0 <= k < hops@.len() ==> #[trigger] hops@[k] <= max_hops,
            target == bfs(
                nv,
                max_hops as nat,
                str_views(visited@),
                queue_of(str_views(visited@), hops@).skip(head as int),
                node_views(result@),
                (nodes@.len() + 1 - head) as nat,
            ),
        decreases nodes@.len() + 1 - head,
    {
        let ghost vq = str_views(visited@);
        let ghost qq = queue_of(vq, hops@).skip(head as int);
        assert(qq[0] == (visited@[head as int]@, hops@[head as int] as nat));
        assert(qq.drop_first() =~= queue_of(vq, hops@).skip(head + 1));
        let ghost fuel = (nodes@.len() + 1 - head) as nat;
        let ghost res0 = node_views(result@);
        assert(fuel > 0);
        let h = hops[head];
        let found = find_node(nodes, visited[head].as_str());
        match found {
            None => {},
            Some(k) => {
                let node = nodes[k].clone();
                if h < max_hops {
                    let ghost v0 = str_views(visited@);
                    let ghost q0 = queue_of(v0, hops@).skip(head + 1);
                    let mut j: usize = 0;
                    assert(nv.take(0) =~= Seq::<RoomNodeView>::empty());
                    while j < nodes.len()
                        invariant
                            j <= nodes@.len(),
                            head < visited@.len(),
                            hops@.len() == visited@.len(),
                            node == nodes@[k as int],
                            h < max_hops,
                            visit_wing(nv.take(j as int), node.wing@, (h + 1) as nat, v0, q0) == (
                                str_views(visited@),
                                queue_of(str_views(visited@), hops@).skip(head + 1),
                            ),
                            str_views(visited@).no_duplicates(),
                            forall|k: int|
                                0 <= k < visited@.len() ==> visited@[k]@ == s
                                    || node_room_ids(nv).contains(
                                    #[trigger] str_views(visited@)[k],
                                ),
                            forall|k: int| 0 <= k < hops@.len() ==> #[trigger] hops@[k] <= max_hops,
                        decreases nodes@.len() - j,
                    {
                        assert(nv.take(j + 1).drop_last() =~= nv.take(j as int));
                        assert(nv.take(j + 1).last() == nodes@[j as int]@);
                        if str_eq(nodes[j].wing.as_str(), node.wing.as_str()) {
                            let id = make_room_id(node.wing.as_str(), nodes[j].room.as_str());
                            if !strings_contain(&visited, id.as_str()) {
                                let ghost before_v = visited@;
                                let ghost before_h = hops@;
                                visited.push(id);
                                hops.push(h + 1);
                                proof {
                                    assert(str_views(visited@) =~= str_views(before_v).push(
                                        id@,
                                    ));
                                    assert(queue_of(str_views(visited@), hops@).skip(head + 1)
                                        =~= queue_of(str_views(before_v), before_h).skip(
                                        head + 1,
                                    ).push((id@, (h + 1) as nat)));
                                    assert(node_room_ids(nv)[j as int] == id@);
                                    assert forall|k: int|
                                        0 <= k < visited@.len() implies visited@[k]@ == s
                                            || node_room_ids(nv).contains(
                                            #[trigger] str_views(visited@)[k],
                                        ) by {
                                        if k < before_v.len() {
                                            assert(str_views(visited@)[k] == str_views(
                                                before_v,
                                            )[k]);
                                        }
                                    }
                                }
                            }
                        }
                        j = j + 1;
                    }
                    assert(nv.take(nodes@.len() as int) =~= nv);
                }
                let ghost before_r = result@;
                result.push(node);
                assert(node_views(result@) =~= node_views(before_r).push(node@));
            },
        }
        assert(target == bfs(
            nv,
            max_hops as nat,
            str_views(visited@),
            queue_of(str_views(visited@), hops@).skip(head + 1),
            node_views(result@),
            (fuel - 1) as nat,
        ));
        proof {
            lemma_visited_bound(str_views(visited@), nv, s);
        }
        head = head + 1;
    }
    result
}

} // verus!

verus! {

/// The wings of the nodes whose room is `room`, in node order.
pub open spec fn room_wings(nodes: Seq<RoomNodeView>, room: Seq<char>) -> Seq<Seq<char>>
    decreases nodes.len(),
{
    if nodes.len() == 0 {
        Seq::empty()
    } else if nodes.last().room == room {
        room_wings(nodes.drop_last(), room).push(nodes.last().wing)
    } else {
        room_wings(nodes.drop_last(), room)
    }
}

/// Whether node `n` is a tunnel that the query asks for: its room lies in two wings or
/// more, and, when wings are given, both of them hold the room, or the node lies in the
/// one given.
pub open spec fn is_requested_tunnel(
    nodes: Seq<RoomNodeView>,
    n: RoomNodeView,
    wing_a: Option<Seq<char>>,
    wing_b: Option<Seq<char>>,
) -> bool {
    let ws = room_wings(nodes, n.room);
    &&& ws.len() >= 2
    &&& match (wing_a, wing_b) {
        (Some(wa), Some(wb)) => ws.contains(wa) && ws.contains(wb),
        (Some(wa), None) => n.wing == wa,
        (None, Some(wb)) => n.wing == wb,
        (None, None) => true,
    }
}

/// The nodes of `all` that are requested tunnels of `nodes`, in order.
pub open spec fn tunnels_in(
    nodes: Seq<RoomNodeView>,
    all: Seq<RoomNodeView>,
    wing_a: Option<Seq<char>>,
    wing_b: Option<Seq<char>>,
) -> Seq<RoomNodeView>
    decreases all.len(),
{
    if all.len() == 0 {
        Seq::empty()
    } else {
        let t = tunnels_in(nodes, all.drop_last(), wing_a, wing_b);
        if is_requested_tunnel(nodes, all.last(), wing_a, wing_b) {
            t.push(all.last())
        } else {
            t
        }
    }
}

fn wings_of_room(nodes: &Vec<RoomNode>, room: &str) -> (r: Vec<String>)
    ensures
        str_views(r@) == room_wings(node_views(nodes@), room@),
{
    let ghost nv = node_views(nodes@);
    let mut out: Vec<String> = Vec::new();
    let mut j: usize = 0;
    assert(nv.take(0) =~= Seq::<RoomNodeView>::empty());
    while j < nodes.len()
        invariant
            j <= nodes@.len(),
            nv == node_views(nodes@),
            str_views(out@) == room_wings(nv.take(j as int), room@),
        decreases nodes@.len() - j,
    {
        assert(nv.take(j + 1).drop_last() =~= nv.take(j as int));
        assert(nv.take(j + 1).last() == nodes@[j as int]@);
        if str_eq(nodes[j].room.as_str(), room) {
            let ghost before = out@;
            out.push(nodes[j].wing.clone());
            assert(str_views(out@) =~= str_views(before).push(nodes@[j as int].wing@));
        }
        j = j + 1;
    }
    assert(nv.take(nodes@.len() as int) =~= nv);
    out
}

/// The rooms that lie in two wings or more, among `nodes`, as `find_tunnels` selects
/// them for the optional wings `wing_a` and `wing_b`.
pub fn tunnels_of(nodes: &Vec<RoomNode>, wing_a: Option<&str>, wing_b: Option<&str>) -> (r: Vec<
    RoomNode,
>)
    ensures
        node_views(r@) == tunnels_in(
            node_views(nodes@),
            node_views(nodes@),
            opt_view(wing_a),
            opt_view(wing_b),
        ),
{
    let ghost nv = node_views(nodes@);
    let mut out: Vec<RoomNode> = Vec::new();
    let mut i: usize = 0;
    assert(nv.take(0) =~= Seq::<RoomNodeView>::empty());
    while i < nodes.len()
        invariant
            i <= nodes@.len(),
            nv == node_views(nodes@),
            node_views(out@) == tunnels_in(nv, nv.take(i as int), opt_view(wing_a), opt_view(wing_b)),
        decreases nodes@.len() - i,
    {
        assert(nv.take(i + 1).drop_last() =~= nv.take(i as int));
        assert(nv.take(i + 1).last() == nodes@[i as int]@);
        let node = &nodes[i];
        let ws = wings_of_room(nodes, node.room.as_str());
        let keep = if ws.len() < 2 {
            false
        } else {
            match (wing_a, wing_b) {
                (Some(wa), Some(wb)) => strings_contain(&ws, wa) && strings_contain(&ws, wb),
                (Some(wa), None) => str_eq(node.wing.as_str(), wa),
                (None, Some(wb)) => str_eq(node.wing.as_str(), wb),
                (None, None) => true,
            }
        };
        assert(keep == is_requested_tunnel(nv, nodes@[i as int]@, opt_view(wing_a), opt_view(wing_b)));
        if keep {
            let ghost before = out@;
            out.push(node.clone());
            assert(node_views(out@) =~= node_views(before).push(nodes@[i as int]@));
        }
        i = i + 1;
    }
    assert(nv.take(nodes@.len() as int) =~= nv);
    out
}

} // verus!

verus! {

/// The sum of the drawer counts of `nodes`.
pub open spec fn total_count(nodes: Seq<RoomNodeView>) -> nat
    decreases nodes.len(),
{
    if nodes.len() == 0 {
        0
    } else {
        total_count(nodes.drop_last()) + nodes.last().count
    }
}

proof fn lemma_total_insert(s: Seq<RoomNodeView>, p: int, x: RoomNodeView)
    requires
        0 <= p <= s.len(),
    ensures
        total_count(s.insert(p, x)) == total_count(s) + x.count,
    decreases s.len(),
{
    if p == s.len() {
        assert(s.insert(p, x).drop_last() =~= s);
    } else {
        assert(s.insert(p, x).drop_last() =~= s.drop_last().insert(p, x));
        lemma_total_insert(s.drop_last(), p, x);
    }
}

proof fn lemma_total_update(s: Seq<RoomNodeView>, k: int, x: RoomNodeView)
    requires
        0 <= k < s.len(),
    ensures
        total_count(s.update(k, x)) + s[k].count == total_count(s) + x.count,
    decreases s.len(),
{
    if k == s.len() - 1 {
        assert(s.update(k, x).drop_last() =~= s.drop_last());
    } else {
        assert(s.update(k, x).drop_last() =~= s.drop_last().update(k, x));
        lemma_total_update(s.drop_last(), k, x);
    }
}

proof fn lemma_total_sorted(s: Seq<RoomNodeView>, b: spec_fn(RoomNodeView, RoomNodeView) -> bool)
    ensures
        total_count(sort_by(s, b)) == total_count(s),
    decreases s.len(),
{
    if s.len() > 0 {
        lemma_total_sorted(s.drop_last(), b);
        let sorted = sort_by(s.drop_last(), b);
        crate::sorting::lemma_insert_pos_bounds(sorted, s.last(), b);
        lemma_total_insert(sorted, crate::sorting::insert_pos(sorted, s.last(), b), s.last());
    }
}

proof fn lemma_total_pair_nodes(rows: Seq<StoredDrawer>)
    ensures
        total_count(pair_nodes(rows)) == rows.len(),
    decreases rows.len(),
{
    if rows.len() == 0 {
        assert(pair_nodes(rows) =~= Seq::<RoomNodeView>::empty());
    } else {
        let prev = rows.drop_last();
        lemma_total_pair_nodes(prev);
        lemma_pair_nodes(prev);
        lemma_pair_nodes(rows);
        lemma_room_pairs_distinct(prev);
        let q = (rows.last().drawer.wing@, rows.last().drawer.room@);
        let ps = room_pairs(prev);
        if ps.contains(q) {
            let k = choose|k: int| 0 <= k < ps.len() && ps[k] == q;
            let y = pair_node(rows, q);
            assert forall|j: int| 0 <= j < ps.len() && j != k implies pair_count(rows, ps[j].0, ps[j].1)
                == pair_count(prev, ps[j].0, ps[j].1) by {
                assert(ps[j] != ps[k]);
            }
            assert(pair_nodes(rows) =~= pair_nodes(prev).update(k, y));
            lemma_total_update(pair_nodes(prev), k, y);
        } else {
            assert forall|j: int| 0 <= j < ps.len() implies pair_count(rows, ps[j].0, ps[j].1)
                == pair_count(prev, ps[j].0, ps[j].1) by {
                assert(ps.contains(ps[j]));
            }
            lemma_pair_count_absent(prev, q);
            assert(pair_nodes(rows).drop_last() =~= pair_nodes(prev));
        }
    }
}

/// Every drawer of the table is counted in exactly one node of its palace graph: the
/// node counts add up to the number of drawers.
pub proof fn lemma_room_counts_cover_table(rows: Seq<StoredDrawer>)
    ensures
        total_count(room_nodes(rows)) == rows.len(),
{
    lemma_total_pair_nodes(rows);
    lemma_total_sorted(pair_nodes(rows), |a: RoomNodeView, b: RoomNodeView| room_before(a, b));
}

} // verus!

verus! {

pub open spec fn node_wings(nodes: Seq<RoomNodeView>) -> Seq<Seq<char>> {
    nodes.map_values(|n: RoomNodeView| n.wing)
}

pub open spec fn node_rooms(nodes: Seq<RoomNodeView>) -> Seq<Seq<char>> {
    nodes.map_values(|n: RoomNodeView| n.room)
}

/// The number of rooms that lie in two wings or more.
pub open spec fn tunnel_room_count(nodes: Seq<RoomNodeView>) -> nat {
    node_rooms(nodes).to_set().filter(|r: Seq<char>| room_wings(nodes, r).len() >= 2).len()
}

/// Counts that describe the shape of a palace graph.
pub struct PalaceStats {
    pub wings: usize,
    pub rooms: usize,
    pub nodes: usize,
    pub total_drawers: usize,
    pub tunnels: usize,
}

pub(crate) fn wing_names(nodes: &Vec<RoomNode>) -> (r: Vec<String>)
    ensures
        str_views(r@) == node_wings(node_views(nodes@)),
{
    let mut out: Vec<String> = Vec::new();
    let mut i: usize = 0;
    while i < nodes.len()
        invariant
            i <= nodes@.len(),
            str_views(out@) == node_wings(node_views(nodes@)).take(i as int),
        decreases nodes@.len() - i,
    {
        let ghost before = out@;
        out.push(nodes[i].wing.clone());
        assert(str_views(out@) =~= node_wings(node_views(nodes@)).take(i + 1)) by {
            assert(str_views(out@) =~= str_views(before).push(nodes@[i as int].wing@));
        }
        i = i + 1;
    }
    assert(node_wings(node_views(nodes@)).take(nodes@.len() as int) =~= node_wings(
        node_views(nodes@),
    ));
    out
}

fn room_names(nodes: &Vec<RoomNode>) -> (r: Vec<String>)
    ensures
        str_views(r@) == node_rooms(node_views(nodes@)),
{
    let mut out: Vec<String> = Vec::new();
    let mut i: usize = 0;
    while i < nodes.len()
        invariant
            i <= nodes@.len(),
            str_views(out@) == node_rooms(node_views(nodes@)).take(i as int),
        decreases nodes@.len() - i,
    {
        let ghost before = out@;
        out.push(nodes[i].room.clone());
        assert(str_views(out@) =~= node_rooms(node_views(nodes@)).take(i + 1)) by {
            assert(str_views(out@) =~= str_views(before).push(nodes@[i as int].room@));
        }
        i = i + 1;
    }
    assert(node_rooms(node_views(nodes@)).take(nodes@.len() as int) =~= node_rooms(
        node_views(nodes@),
    ));
    out
}

/// The counts of wings, rooms, nodes and tunnels of the palace graph `nodes`, with
/// `total_drawers` given.
pub fn graph_counts(nodes: &Vec<RoomNode>, total_drawers: usize) -> (r: PalaceStats)
    ensures
        r.wings == node_wings(node_views(nodes@)).to_set().len(),
        r.rooms == node_rooms(node_views(nodes@)).to_set().len(),
        r.nodes == nodes@.len(),
        r.total_drawers == total_drawers,
        r.tunnels == tunnel_room_count(node_views(nodes@)),
{
    let ghost nv = node_views(nodes@);
    let wings = crate::text::dedupe_strings(wing_names(nodes));
    let rooms = crate::text::dedupe_strings(room_names(nodes));
    proof {
        crate::text::lemma_distinct_seq(node_wings(nv));
        crate::text::lemma_distinct_seq(node_rooms(nv));
    }
    let ghost p = |r: Seq<char>| room_wings(nv, r).len() >= 2;
    let ghost rs = str_views(rooms@);
    let mut tunnels: usize = 0;
    let mut i: usize = 0;
    assert(rs.take(0) =~= Seq::<Seq<char>>::empty());
    while i < rooms.len()
        invariant
            i <= rooms@.len(),
            rs == str_views(rooms@),
            nv == node_views(nodes@),
            p == (|r: Seq<char>| room_wings(nv, r).len() >= 2),
            tunnels == crate::text::count_where(rs.take(i as int), p),
            tunnels <= i,
        decreases rooms@.len() - i,
    {
        assert(rs.take(i + 1).drop_last() =~= rs.take(i as int));
        assert(rs.take(i + 1).last() == rooms@[i as int]@);
        let ws = wings_of_room(nodes, rooms[i].as_str());
        assert(str_views(ws@).len() == ws@.len());
        assert(p(rooms@[i as int]@) == (ws@.len() >= 2));
        if ws.len() >= 2 {
            tunnels = tunnels + 1;
        }
        i = i + 1;
    }
    proof {
        assert(rs.take(rooms@.len() as int) =~= rs);
        crate::text::lemma_count_where_set(rs, p);
    }
    PalaceStats {
        wings: wings.len(),
        rooms: rooms.len(),
        nodes: nodes.len(),
        total_drawers,
        tunnels,
    }
}

/// The palace graph: rooms are its nodes, and rooms that share a wing are linked.
pub struct PalaceGraph {
    pub db_path: String,
}

impl PalaceGraph {
    /// The nodes of the palace graph of `storage`: one per (wing, room) that holds a
    /// drawer, with the number of drawers there, ordered by wing and then by room.
    pub fn build_graph(&self, storage: &VectorStorage) -> (r: Vec<RoomNode>)
        ensures
            node_views(r@) == room_nodes(storage.table()),
    {
        group_rooms(storage.rows())
    }

    /// The rooms reached from `start_room` within `max_hops` steps through shared
    /// wings, in breadth-first order.
    pub fn traverse_graph(&self, storage: &VectorStorage, start_room: &str, max_hops: usize) -> (r:
        Vec<RoomNode>)
        ensures
            node_views(r@) == traverse(room_nodes(storage.table()), start_room@, max_hops as nat),
    {
        let all_nodes = self.build_graph(storage);
        traverse_nodes(&all_nodes, start_room, max_hops)
    }

    /// The rooms that lie in two wings or more; with `wing_a` and `wing_b`, those
    /// shared by both; with one of them, the nodes of that wing.
    pub fn find_tunnels(&self, storage: &VectorStorage, wing_a: Option<&str>, wing_b: Option<&str>) -> (r:
        Vec<RoomNode>)
        ensures
            node_views(r@) == tunnels_in(
                room_nodes(storage.table()),
                room_nodes(storage.table()),
                opt_view(wing_a),
                opt_view(wing_b),
            ),
    {
        let all_nodes = self.build_graph(storage);
        tunnels_of(&all_nodes, wing_a, wing_b)
    }

    /// The counts of wings, rooms, nodes, drawers and tunnels of the palace graph.
    pub fn stats(&self, storage: &VectorStorage) -> (r: PalaceStats)
        ensures
            r.wings == node_wings(room_nodes(storage.table())).to_set().len(),
            r.rooms == node_rooms(room_nodes(storage.table())).to_set().len(),
            r.nodes == room_nodes(storage.table()).len(),
            r.total_drawers == total_count(room_nodes(storage.table())),
            r.tunnels == tunnel_room_count(room_nodes(storage.table())),
    {
        let nodes = self.build_graph(storage);
        proof {
            lemma_room_counts_cover_table(storage.table());
        }
        graph_counts(&nodes, storage.rows().len())
    }
}

} // verus!

verus! {

/// The ids of the rooms of `wing`, in node order.
pub open spec fn wing_room_ids(ns: Seq<RoomNodeView>, wing: Seq<char>) -> Seq<Seq<char>>
    decreases ns.len(),
{
    if ns.len() == 0 {
        Seq::empty()
    } else if ns.last().wing == wing {
        wing_room_ids(ns.drop_last(), wing).push(room_id(wing, ns.last().room))
    } else {
        wing_room_ids(ns.drop_last(), wing)
    }
}

/// One step of the palace graph: from the node that `from` names to any room of the
/// same wing.
pub open spec fn linked(nodes: Seq<RoomNodeView>, from: Seq<char>, to: Seq<char>) -> bool {
    match lookup_node(nodes, from) {
        Some(n) => wing_room_ids(nodes, n.wing).contains(to),
        None => false,
    }
}

/// `id` is reached from `start` in at most `h` steps.
pub open spec fn within_hops(nodes: Seq<RoomNodeView>, start: Seq<char>, id: Seq<char>, h: nat) -> bool
    decreases h,
{
    id == start || (h > 0 && exists|prev: Seq<char>|
        #[trigger] linked(nodes, prev, id) && within_hops(nodes, start, prev, (h - 1) as nat))
}

proof fn lemma_within_mono(nodes: Seq<RoomNodeView>, start: Seq<char>, id: Seq<char>, h: nat, h2: nat)
    requires
        within_hops(nodes, start, id, h),
        h <= h2,
    ensures
        within_hops(nodes, start, id, h2),
    decreases h,
{
    if id != start {
        let prev = choose|prev: Seq<char>|
            #[trigger] linked(nodes, prev, id) && within_hops(nodes, start, prev, (h - 1) as nat);
        lemma_within_mono(nodes, start, prev, (h - 1) as nat, (h2 - 1) as nat);
    }
}

proof fn lemma_lookup_node(nodes: Seq<RoomNodeView>, id: Seq<char>)
    ensures
        lookup_node(nodes, id) matches Some(n) ==> n.id == id && nodes.contains(n),
    decreases nodes.len(),
{
    if nodes.len() > 0 && nodes.last().id != id {
        lemma_lookup_node(nodes.drop_last(), id);
        if let Some(n) = lookup_node(nodes.drop_last(), id) {
            let k = choose|k: int| 0 <= k < nodes.len() - 1 && nodes.drop_last()[k] == n;
            assert(nodes[k] == n);
        }
    } else if nodes.len() > 0 {
        assert(nodes[nodes.len() - 1] == nodes.last());
    }
}

proof fn lemma_visit_wing(
    ns: Seq<RoomNodeView>,
    wing: Seq<char>,
    hops: nat,
    v: Seq<Seq<char>>,
    q: Seq<(Seq<char>, nat)>,
)
    ensures
        ({
            let (v2, q2) = visit_wing(ns, wing, hops, v, q);
            &&& v2.len() >= v.len()
            &&& v2.take(v.len() as int) == v
            &&& q2.len() == q.len() + (v2.len() - v.len())
            &&& q2.take(q.len() as int) == q
            &&& forall|k: int|
                v.len() <= k < v2.len() ==> q2[q.len() + (k - v.len())] == (v2[k], hops)
            &&& forall|k: int|
                v.len() <= k < v2.len() ==> wing_room_ids(ns, wing).contains(#[trigger] v2[k])
            &&& v.no_duplicates() ==> v2.no_duplicates()
        }),
    decreases ns.len(),
{
    if ns.len() == 0 {
        assert(v.take(v.len() as int) =~= v);
        assert(q.take(q.len() as int) =~= q);
    } else {
        lemma_visit_wing(ns.drop_last(), wing, hops, v, q);
        let (v1, q1) = visit_wing(ns.drop_last(), wing, hops, v, q);
        let n = ns.last();
        let id = room_id(wing, n.room);
        assert forall|k: int| v.len() <= k < v1.len() implies wing_room_ids(ns, wing).contains(#[trigger] v1[k]) by {
            assert(wing_room_ids(ns.drop_last(), wing).contains(v1[k]));
            if n.wing == wing {
                assert(wing_room_ids(ns, wing) == wing_room_ids(ns.drop_last(), wing).push(id));
                let t = choose|t: int| 0 <= t < wing_room_ids(ns.drop_last(), wing).len() && wing_room_ids(ns.drop_last(), wing)[t] == v1[k];
                assert(wing_room_ids(ns, wing)[t] == v1[k]);
            }
        }
        if n.wing == wing && !v1.contains(id) {
            let v2 = v1.push(id);
            let q2 = q1.push((id, hops));
            assert(visit_wing(ns, wing, hops, v, q) == (v2, q2));
            assert(v2.take(v.len() as int) =~= v1.take(v.len() as int));
            assert(q2.take(q.len() as int) =~= q1.take(q.len() as int));
            assert(ns[ns.len() - 1] == n);
            assert forall|k: int| v.len() <= k < v2.len() implies wing_room_ids(ns, wing).contains(#[trigger] v2[k]) by {
                assert(wing_room_ids(ns, wing) == wing_room_ids(ns.drop_last(), wing).push(id));
                if k == v2.len() - 1 {
                    assert(wing_room_ids(ns, wing).last() == v2[k]);
                } else {
                    assert(v2[k] == v1[k]);
                }
            }
            assert forall|k: int| v.len() <= k < v2.len() implies q2[q.len() + (k - v.len())] == (
                v2[k],
                hops,
            ) by {
                if k < v2.len() - 1 {
                    assert(q2[q.len() + (k - v.len())] == q1[q.len() + (k - v.len())]);
                }
            }
            if v.no_duplicates() {
                assert(v2.no_duplicates()) by {
                    assert forall|a: int, b: int| 0 <= a < v2.len() && 0 <= b < v2.len() && a != b implies v2[a] != v2[b] by {
                        if a == v2.len() - 1 {
                            assert(v1.contains(v2[b]) ==> v2[a] != v2[b]);
                            assert(v1[b] == v2[b]);
                        } else if b == v2.len() - 1 {
                            assert(v1[a] == v2[a]);
                        }
                    }
                }
            }
        } else {
            assert(visit_wing(ns, wing, hops, v, q) == (v1, q1));
        }
    }
}

/// What holds of every state of a traversal from `s`: the queue holds the last visited
/// ids, each reached within its hop count, and each node found so far was reached within
/// the limit, under an id visited before the queue, and ids found are distinct.
pub open spec fn bfs_inv(
    nodes: Seq<RoomNodeView>,
    max_hops: nat,
    s: Seq<char>,
    v: Seq<Seq<char>>,
    q: Seq<(Seq<char>, nat)>,
    found: Seq<RoomNodeView>,
) -> bool {
    &&& v.no_duplicates()
    &&& q.len() <= v.len()
    &&& forall|k: int| #![trigger q[k]] 0 <= k < q.len() ==> q[k].0 == v[v.len() - q.len() + k]
    &&& forall|k: int|
        #![trigger q[k]]
        0 <= k < q.len() ==> q[k].1 <= max_hops && within_hops(nodes, s, q[k].0, q[k].1)
    &&& forall|k: int|
        #![trigger found[k]]
        0 <= k < found.len() ==> within_hops(nodes, s, found[k].id, max_hops)
            && lookup_node(nodes, found[k].id) == Some(found[k])
    &&& forall|k: int|
        #![trigger found[k]]
        0 <= k < found.len() ==> exists|m: int|
            0 <= m < v.len() - q.len() && v[m] == #[trigger] found[k].id
    &&& forall|a: int, b: int| 0 <= a < b < found.len() ==> found[a].id != found[b].id
}

#[verifier::spinoff_prover]
#[verifier::rlimit(40)]
proof fn lemma_bfs_inv(
    nodes: Seq<RoomNodeView>,
    max_hops: nat,
    s: Seq<char>,
    v: Seq<Seq<char>>,
    q: Seq<(Seq<char>, nat)>,
    found: Seq<RoomNodeView>,
    fuel: nat,
)
    requires
        bfs_inv(nodes, max_hops, s, v, q, found),
    ensures
        ({
            let r = bfs(nodes, max_hops, v, q, found, fuel);
            &&& forall|k: int|
                0 <= k < r.len() ==> within_hops(nodes, s, #[trigger] r[k].id, max_hops)
                    && lookup_node(nodes, r[k].id) == Some(r[k])
            &&& forall|a: int, b: int| 0 <= a < b < r.len() ==> r[a].id != r[b].id
        }),
    decreases fuel,
{
    if fuel == 0 || q.len() == 0 {
    } else {
        let id = q[0].0;
        let h = q[0].1;
        let rest = q.drop_first();
        let t = v.len() - q.len();
        assert(id == v[t]);
        assert(within_hops(nodes, s, q[0].0, q[0].1));
        lemma_lookup_node(nodes, id);
        match lookup_node(nodes, id) {
            None => {
                assert forall|k: int| #![trigger found[k]] 0 <= k < found.len() implies exists|m: int|
                    0 <= m < v.len() - rest.len() && v[m] == #[trigger] found[k].id by {
                    let m = choose|m: int| 0 <= m < v.len() - q.len() && v[m] == #[trigger] found[k].id;
                }
                assert forall|k: int| #![trigger rest[k]] 0 <= k < rest.len() implies rest[k].0 == v[v.len() - rest.len() + k] by {
                    assert(rest[k] == q[k + 1]);
                }
                assert forall|k: int| #![trigger rest[k]] 0 <= k < rest.len() implies rest[k].1 <= max_hops && within_hops(nodes, s, rest[k].0, rest[k].1) by {
                    assert(rest[k] == q[k + 1]);
                    assert(within_hops(nodes, s, q[k + 1].0, q[k + 1].1));
                }
                lemma_bfs_inv(nodes, max_hops, s, v, rest, found, (fuel - 1) as nat);
            },
            Some(n) => {
                let found2 = found.push(n);
                lemma_within_mono(nodes, s, id, h, max_hops);
                assert forall|a: int, b: int| 0 <= a < b < found2.len() implies found2[a].id != found2[b].id by {
                    if b == found2.len() - 1 {
                        let m = choose|m: int| 0 <= m < v.len() - q.len() && v[m] == #[trigger] found[a].id;
                        assert(v[m] != v[t]);
                    }
                }
                assert forall|k: int| #![trigger found2[k]] 0 <= k < found2.len() implies within_hops(nodes, s, found2[k].id, max_hops)
                    && lookup_node(nodes, found2[k].id) == Some(found2[k]) by {
                    if k < found.len() {
                        assert(found2[k] == found[k]);
                    }
                }
                if h < max_hops {
                    lemma_visit_wing(nodes, n.wing, h + 1, v, rest);
                    let (v2, q2) = visit_wing(nodes, n.wing, h + 1, v, rest);
                    assert(v2.len() - q2.len() == t + 1);
                    assert forall|k: int| #![trigger q2[k]] 0 <= k < q2.len() implies q2[k].0 == v2[v2.len() - q2.len() + k] by {
                        if k < rest.len() {
                            assert(q2[k] == q2.take(rest.len() as int)[k]);
                            assert(rest[k] == q[k + 1]);
                            assert(v2[v2.len() - q2.len() + k] == v2.take(v.len() as int)[v2.len() - q2.len() + k]);
                        } else {
                            let kk = v.len() + (k - rest.len());
                            assert(q2[rest.len() + (kk - v.len())] == (v2[kk], (h + 1) as nat));
                        }
                    }
                    assert forall|k: int| #![trigger q2[k]] 0 <= k < q2.len() implies q2[k].1 <= max_hops && within_hops(nodes, s, q2[k].0, q2[k].1) by {
                        if k < rest.len() {
                            assert(q2[k] == q2.take(rest.len() as int)[k]);
                            assert(rest[k] == q[k + 1]);
                            assert(within_hops(nodes, s, q[k + 1].0, q[k + 1].1));
                        } else {
                            let kk = v.len() + (k - rest.len());
                            assert(q2[rest.len() + (kk - v.len())] == (v2[kk], (h + 1) as nat));
                            assert(wing_room_ids(nodes, n.wing).contains(v2[kk]));
                            assert(linked(nodes, id, v2[kk]));
                            assert(within_hops(nodes, s, v2[kk], (h + 1) as nat));
                        }
                    }
                    assert forall|k: int| #![trigger found2[k]] 0 <= k < found2.len() implies exists|m: int|
                        0 <= m < v2.len() - q2.len() && v2[m] == #[trigger] found2[k].id by {
                        if k < found.len() {
                            let m = choose|m: int| 0 <= m < v.len() - q.len() && v[m] == #[trigger] found[k].id;
                            assert(v2[m] == v2.take(v.len() as int)[m]);
                            assert(found2[k] == found[k]);
                        } else {
                            assert(v2[t] == v2.take(v.len() as int)[t]);
                        }
                    }
                    assert(bfs_inv(nodes, max_hops, s, v2, q2, found2));
                    lemma_bfs_inv(nodes, max_hops, s, v2, q2, found2, (fuel - 1) as nat);
                } else {
                    assert forall|k: int| #![trigger rest[k]] 0 <= k < rest.len() implies rest[k].0 == v[v.len() - rest.len() + k] by {
                        assert(rest[k] == q[k + 1]);
                    }
                    assert forall|k: int| #![trigger rest[k]] 0 <= k < rest.len() implies rest[k].1 <= max_hops && within_hops(nodes, s, rest[k].0, rest[k].1) by {
                        assert(rest[k] == q[k + 1]);
                        assert(within_hops(nodes, s, q[k + 1].0, q[k + 1].1));
                    }
                    assert forall|k: int| #![trigger found2[k]] 0 <= k < found2.len() implies exists|m: int|
                        0 <= m < v.len() - rest.len() && v[m] == #[trigger] found2[k].id by {
                        if k < found.len() {
                            let m = choose|m: int| 0 <= m < v.len() - q.len() && v[m] == #[trigger] found[k].id;
                            assert(found2[k] == found[k]);
                        }
                    }
                    lemma_bfs_inv(nodes, max_hops, s, v, rest, found2, (fuel - 1) as nat);
                }
            },
        }
    }
}

/// A traversal reports only rooms reached from its start within `max_hops` steps
/// through shared wings, each one the node that its id names, and no room twice.
pub proof fn lemma_traverse_sound(nodes: Seq<RoomNodeView>, start: Seq<char>, max_hops: nat)
    ensures
        ({
            let r = traverse(nodes, start, max_hops);
            let s = start_node_id(nodes, start);
            &&& forall|k: int|
                0 <= k < r.len() ==> within_hops(nodes, s, #[trigger] r[k].id, max_hops)
                    && lookup_node(nodes, r[k].id) == Some(r[k])
            &&& forall|a: int, b: int| 0 <= a < b < r.len() ==> r[a].id != r[b].id
        }),
{
    let s = start_node_id(nodes, start);
    let q = seq![(s, 0nat)];
    assert(q[0].0 == s);
    assert(within_hops(nodes, s, s, 0));
    assert(bfs_inv(nodes, max_hops, s, seq![s], q, Seq::empty()));
    lemma_bfs_inv(nodes, max_hops, s, seq![s], q, Seq::empty(), nodes.len() + 1);
}

/// A traversal starts with the start room when the graph holds it.
pub proof fn lemma_traverse_starts_at_start(nodes: Seq<RoomNodeView>, start: Seq<char>, max_hops: nat)
    requires
        lookup_node(nodes, start_node_id(nodes, start)) is Some,
    ensures
        traverse(nodes, start, max_hops).len() >= 1,
        traverse(nodes, start, max_hops)[0] == lookup_node(nodes, start_node_id(nodes, start))->0,
{
    let s = start_node_id(nodes, start);
    let n = lookup_node(nodes, s)->0;
    let q = seq![(s, 0nat)];
    lemma_bfs_prefix(nodes, max_hops, seq![s], q, Seq::empty(), nodes.len() + 1);
    let e = Seq::<RoomNodeView>::empty();
    assert(e.push(n) =~= seq![n]);
    let r = traverse(nodes, start, max_hops);
    if 0 < max_hops {
        let (v2, q2) = visit_wing(nodes, n.wing, 1, seq![s], q.drop_first());
        assert(r == bfs(nodes, max_hops, v2, q2, e.push(n), nodes.len() as nat));
        lemma_bfs_prefix(nodes, max_hops, v2, q2, e.push(n), nodes.len() as nat);
    } else {
        assert(r == bfs(nodes, max_hops, seq![s], q.drop_first(), e.push(n), nodes.len() as nat));
        lemma_bfs_prefix(nodes, max_hops, seq![s], q.drop_first(), e.push(n), nodes.len() as nat);
    }
    assert(r[0] == r.take(1)[0]);
}

proof fn lemma_bfs_prefix(
    nodes: Seq<RoomNodeView>,
    max_hops: nat,
    v: Seq<Seq<char>>,
    q: Seq<(Seq<char>, nat)>,
    found: Seq<RoomNodeView>,
    fuel: nat,
)
    ensures
        bfs(nodes, max_hops, v, q, found, fuel).len() >= found.len(),
        bfs(nodes, max_hops, v, q, found, fuel).take(found.len() as int) == found,
    decreases fuel,
{
    if fuel == 0 || q.len() == 0 {
        assert(found.take(found.len() as int) =~= found);
    } else {
        let id = q[0].0;
        let h = q[0].1;
        let rest = q.drop_first();
        match lookup_node(nodes, id) {
            None => lemma_bfs_prefix(nodes, max_hops, v, rest, found, (fuel - 1) as nat),
            Some(n) => {
                let f2 = found.push(n);
                if h < max_hops {
                    let (v2, q2) = visit_wing(nodes, n.wing, h + 1, v, rest);
                    lemma_bfs_prefix(nodes, max_hops, v2, q2, f2, (fuel - 1) as nat);
                } else {
                    lemma_bfs_prefix(nodes, max_hops, v, rest, f2, (fuel - 1) as nat);
                }
                let r = bfs(nodes, max_hops, v, q, found, fuel);
                assert(r.take(found.len() as int) =~= r.take(f2.len() as int).take(found.len() as int));
                assert(f2.take(found.len() as int) =~= found);
            },
        }
    }
}

} // verus!

verus! {

/// Whether no two nodes share both wing and room.
pub open spec fn distinct_places(nodes: Seq<RoomNodeView>) -> bool {
    forall|i: int, j: int|
        0 <= i < j < nodes.len() ==> (#[trigger] nodes[i]).wing != (#[trigger] nodes[j]).wing
            || nodes[i].room != nodes[j].room
}

proof fn lemma_room_nodes_distinct(rows: Seq<StoredDrawer>)
    ensures
        distinct_places(room_nodes(rows)),
{
    broadcast use vstd::seq_lib::group_to_multiset_ensures;
    let ps = pair_nodes(rows);
    let before = |a: RoomNodeView, b: RoomNodeView| room_before(a, b);
    let ns = sort_by(ps, before);
    lemma_pair_nodes(rows);
    lemma_room_pairs_distinct(rows);
    assert(ps.no_duplicates()) by {
        assert forall|i: int, j: int| 0 <= i < ps.len() && 0 <= j < ps.len() && i != j implies ps[i] != ps[j] by {
            assert(room_pairs(rows)[i] != room_pairs(rows)[j]);
        }
    }
    ps.lemma_multiset_has_no_duplicates();
    crate::sorting::lemma_sort_by_permutes(ps, before);
    ns.lemma_multiset_has_no_duplicates_conv();
    assert forall|i: int, j: int| 0 <= i < j < ns.len() implies (#[trigger] ns[i]).wing != (#[trigger] ns[j]).wing
        || ns[i].room != ns[j].room by {
        assert(ns.to_multiset().count(ns[i]) > 0);
        assert(ns.to_multiset().count(ns[j]) > 0);
        assert(ps.contains(ns[i]));
        assert(ps.contains(ns[j]));
        let a = choose|a: int| 0 <= a < ps.len() && ps[a] == ns[i];
        let b = choose|b: int| 0 <= b < ps.len() && ps[b] == ns[j];
        assert(ps[a] == pair_node(rows, room_pairs(rows)[a]));
        assert(ps[b] == pair_node(rows, room_pairs(rows)[b]));
        assert(ns[i] != ns[j]);
    }
}

/// Whether some node lies in room `room` of wing `wing`.
pub open spec fn has_place(nodes: Seq<RoomNodeView>, wing: Seq<char>, room: Seq<char>) -> bool {
    exists|i: int| 0 <= i < nodes.len() && (#[trigger] nodes[i]).room == room && nodes[i].wing == wing
}

proof fn lemma_room_wings_places(nodes: Seq<RoomNodeView>, room: Seq<char>)
    requires
        distinct_places(nodes),
    ensures
        room_wings(nodes, room).no_duplicates(),
        forall|k: int| 0 <= k < room_wings(nodes, room).len() ==> has_place(nodes, #[trigger] room_wings(nodes, room)[k], room),
    decreases nodes.len(),
{
    if nodes.len() > 0 {
        let init = nodes.drop_last();
        assert forall|i: int, j: int| 0 <= i < j < init.len() implies (#[trigger] init[i]).wing
            != (#[trigger] init[j]).wing || init[i].room != init[j].room by {
            assert(init[i] == nodes[i] && init[j] == nodes[j]);
        }
        lemma_room_wings_places(init, room);
        let w = room_wings(init, room);
        assert forall|k: int| 0 <= k < w.len() implies has_place(nodes, #[trigger] w[k], room) by {
            assert(has_place(init, w[k], room));
            let i = choose|i: int| 0 <= i < init.len() && (#[trigger] init[i]).room == room && init[i].wing == w[k];
            assert(nodes[i] == init[i]);
        }
        if nodes.last().room == room {
            let ws = w.push(nodes.last().wing);
            assert forall|k: int| 0 <= k < w.len() implies w[k] != nodes.last().wing by {
                assert(has_place(init, w[k], room));
                let i = choose|i: int| 0 <= i < init.len() && (#[trigger] init[i]).room == room && init[i].wing == w[k];
                assert(nodes[i] == init[i]);
                assert(nodes[nodes.len() - 1] == nodes.last());
            }
            assert forall|k: int| 0 <= k < ws.len() implies has_place(nodes, #[trigger] ws[k], room) by {
                if k < w.len() {
                    assert(ws[k] == w[k]);
                } else {
                    assert(nodes[nodes.len() - 1] == nodes.last());
                }
            }
            assert(room_wings(nodes, room) == ws);
        } else {
            assert(room_wings(nodes, room) == w);
        }
    }
}

proof fn lemma_tunnels_requested(
    nodes: Seq<RoomNodeView>,
    all: Seq<RoomNodeView>,
    wing_a: Option<Seq<char>>,
    wing_b: Option<Seq<char>>,
    t: RoomNodeView,
)
    requires
        tunnels_in(nodes, all, wing_a, wing_b).contains(t),
    ensures
        all.contains(t),
        is_requested_tunnel(nodes, t, wing_a, wing_b),
    decreases all.len(),
{
    let prev = tunnels_in(nodes, all.drop_last(), wing_a, wing_b);
    if prev.contains(t) {
        lemma_tunnels_requested(nodes, all.drop_last(), wing_a, wing_b, t);
        let k = choose|k: int| 0 <= k < all.drop_last().len() && all.drop_last()[k] == t;
        assert(all[k] == t);
    } else {
        assert(all[all.len() - 1] == all.last());
    }
}

/// A tunnel joins two different wings: every room that `find_tunnels` reports is filed
/// under at least two distinct wings of the palace graph.
pub proof fn lemma_tunnels_span_two_wings(
    rows: Seq<StoredDrawer>,
    wing_a: Option<Seq<char>>,
    wing_b: Option<Seq<char>>,
    t: RoomNodeView,
)
    requires
        tunnels_in(room_nodes(rows), room_nodes(rows), wing_a, wing_b).contains(t),
    ensures
        exists|i: int, j: int|
            0 <= i < room_nodes(rows).len() && 0 <= j < room_nodes(rows).len()
                && (#[trigger] room_nodes(rows)[i]).room == t.room
                && (#[trigger] room_nodes(rows)[j]).room == t.room
                && room_nodes(rows)[i].wing != room_nodes(rows)[j].wing,
{
    let nodes = room_nodes(rows);
    lemma_tunnels_requested(nodes, nodes, wing_a, wing_b, t);
    lemma_room_nodes_distinct(rows);
    lemma_room_wings_places(nodes, t.room);
    let ws = room_wings(nodes, t.room);
    assert(ws[0] != ws[1]);
    assert(has_place(nodes, ws[0], t.room));
    assert(has_place(nodes, ws[1], t.room));
    let i = choose|i: int| 0 <= i < nodes.len() && (#[trigger] nodes[i]).room == t.room && nodes[i].wing == ws[0];
    let j = choose|j: int| 0 <= j < nodes.len() && (#[trigger] nodes[j]).room == t.room && nodes[j].wing == ws[1];
    assert(nodes[i].room == t.room && nodes[j].room == t.room && nodes[i].wing != nodes[j].wing);
}

} // verus!

verus! {

/// The nodes of the palace graph come ordered by wing, then by room.
pub proof fn lemma_room_nodes_ordered(rows: Seq<StoredDrawer>)
    ensures
        crate::sorting::is_sorted_by(room_nodes(rows), |a: RoomNodeView, b: RoomNodeView| room_before(a, b)),
{
    let before = |a: RoomNodeView, b: RoomNodeView| room_before(a, b);
    assert forall|x: RoomNodeView| !#[trigger] before(x, x) by {
        crate::text::lemma_seq_lt_irreflexive(x.wing);
        crate::text::lemma_seq_lt_irreflexive(x.room);
    }
    assert forall|x: RoomNodeView, y: RoomNodeView, z: RoomNodeView| #[trigger] before(x, y) && #[trigger] before(y, z) implies before(x, z) by {
        crate::text::lemma_seq_lt_transitive(x.wing, y.wing, z.wing);
        crate::text::lemma_seq_lt_transitive(x.room, y.room, z.room);
        crate::text::lemma_seq_lt_asymmetric(x.wing, y.wing);
        crate::text::lemma_seq_lt_irreflexive(x.wing);
    }
    crate::sorting::lemma_sort_by_sorted(pair_nodes(rows), before);
}

} // verus!

verus! {

/// Whether each node's id is `wing/room` of its own wing and room, and no two nodes share
/// an id (so no wing or room name makes two rooms' ids meet).
pub open spec fn unambiguous_ids(nodes: Seq<RoomNodeView>) -> bool {
    &&& forall|k: int| 0 <= k < nodes.len() ==> (#[trigger] nodes[k]).id == room_id(nodes[k].wing, nodes[k].room)
    &&& forall|i: int, j: int| 0 <= i < j < nodes.len() ==> (#[trigger] nodes[i]).id != (#[trigger] nodes[j]).id
}

/// The nodes of wing `wing` other than the one with id `id`, in node order.
pub open spec fn wing_mates(nodes: Seq<RoomNodeView>, wing: Seq<char>, id: Seq<char>) -> Seq<RoomNodeView>
    decreases nodes.len(),
{
    if nodes.len() == 0 {
        Seq::empty()
    } else {
        let t = wing_mates(nodes.drop_last(), wing, id);
        if nodes.last().wing == wing && nodes.last().id != id {
            t.push(nodes.last())
        } else {
            t
        }
    }
}

pub open spec fn node_ids(ns: Seq<RoomNodeView>) -> Seq<Seq<char>> {
    ns.map_values(|x: RoomNodeView| x.id)
}

pub open spec fn queued_at(ns: Seq<RoomNodeView>, h: nat) -> Seq<(Seq<char>, nat)> {
    ns.map_values(|x: RoomNodeView| (x.id, h))
}

proof fn lemma_unambiguous_prefix(nodes: Seq<RoomNodeView>)
    requires
        unambiguous_ids(nodes),
        nodes.len() > 0,
    ensures
        unambiguous_ids(nodes.drop_last()),
{
    let init = nodes.drop_last();
    assert forall|k: int| 0 <= k < init.len() implies (#[trigger] init[k]).id == room_id(init[k].wing, init[k].room) by {
        assert(init[k] == nodes[k]);
    }
    assert forall|i: int, j: int| 0 <= i < j < init.len() implies (#[trigger] init[i]).id != (#[trigger] init[j]).id by {
        assert(init[i] == nodes[i] && init[j] == nodes[j]);
    }
}

proof fn lemma_wing_mates_members(nodes: Seq<RoomNodeView>, wing: Seq<char>, id: Seq<char>)
    ensures
        wing_mates(nodes, wing, id).len() <= nodes.len(),
        forall|k: int| 0 <= k < wing_mates(nodes, wing, id).len() ==> {
            &&& nodes.contains(#[trigger] wing_mates(nodes, wing, id)[k])
            &&& wing_mates(nodes, wing, id)[k].wing == wing
            &&& wing_mates(nodes, wing, id)[k].id != id
        },
        forall|k: int| 0 <= k < nodes.len() && (#[trigger] nodes[k]).wing == wing && nodes[k].id != id
            ==> wing_mates(nodes, wing, id).contains(nodes[k]),
    decreases nodes.len(),
{
    if nodes.len() > 0 {
        let init = nodes.drop_last();
        lemma_wing_mates_members(init, wing, id);
        let t = wing_mates(init, wing, id);
        let w = wing_mates(nodes, wing, id);
        assert forall|k: int| 0 <= k < w.len() implies {
            &&& nodes.contains(#[trigger] w[k])
            &&& w[k].wing == wing
            &&& w[k].id != id
        } by {
            if k < t.len() {
                assert(w[k] == t[k]);
                let m = choose|m: int| 0 <= m < init.len() && init[m] == t[k];
                assert(nodes[m] == init[m]);
            } else {
                assert(nodes[nodes.len() - 1] == w[k]);
            }
        }
        assert forall|k: int| 0 <= k < nodes.len() && (#[trigger] nodes[k]).wing == wing && nodes[k].id != id
            implies w.contains(nodes[k]) by {
            if k < nodes.len() - 1 {
                assert(init[k] == nodes[k]);
                let m = choose|m: int| 0 <= m < t.len() && t[m] == init[k];
                assert(w[m] == t[m]);
            } else {
                assert(w[w.len() - 1] == nodes[k]);
            }
        }
    }
}

proof fn lemma_lookup_unique(nodes: Seq<RoomNodeView>, x: RoomNodeView)
    requires
        unambiguous_ids(nodes),
        nodes.contains(x),
    ensures
        lookup_node(nodes, x.id) == Some(x),
    decreases nodes.len(),
{
    let m = choose|m: int| 0 <= m < nodes.len() && nodes[m] == x;
    if m == nodes.len() - 1 {
        assert(nodes.last() == x);
    } else {
        assert(nodes[m].id != nodes[nodes.len() - 1].id);
        lemma_unambiguous_prefix(nodes);
        assert(nodes.drop_last()[m] == x);
        lemma_lookup_unique(nodes.drop_last(), x);
    }
}

/// Visiting a wing whose rooms are all visited changes nothing.
proof fn lemma_visit_wing_none(
    ns: Seq<RoomNodeView>,
    wing: Seq<char>,
    hops: nat,
    v: Seq<Seq<char>>,
    q: Seq<(Seq<char>, nat)>,
)
    requires
        forall|k: int| 0 <= k < ns.len() && (#[trigger] ns[k]).wing == wing ==> v.contains(room_id(wing, ns[k].room)),
    ensures
        visit_wing(ns, wing, hops, v, q) == (v, q),
    decreases ns.len(),
{
    if ns.len() > 0 {
        let init = ns.drop_last();
        assert forall|k: int| 0 <= k < init.len() && (#[trigger] init[k]).wing == wing implies v.contains(room_id(wing, init[k].room)) by {
            assert(init[k] == ns[k]);
        }
        lemma_visit_wing_none(init, wing, hops, v, q);
        assert(ns[ns.len() - 1] == ns.last());
    }
}

/// Visiting the wing of the start node `s` from the first step queues its wing mates,
/// in node order.
proof fn lemma_visit_wing_mates(ns: Seq<RoomNodeView>, wing: Seq<char>, hops: nat, s: Seq<char>)
    requires
        unambiguous_ids(ns),
    ensures
        visit_wing(ns, wing, hops, seq![s], Seq::empty()) == (
            seq![s] + node_ids(wing_mates(ns, wing, s)),
            queued_at(wing_mates(ns, wing, s), hops),
        ),
    decreases ns.len(),
{
    if ns.len() == 0 {
        assert(seq![s] + node_ids(Seq::<RoomNodeView>::empty()) =~= seq![s]);
        assert(queued_at(Seq::<RoomNodeView>::empty(), hops) =~= Seq::<(Seq<char>, nat)>::empty());
    } else {
        let init = ns.drop_last();
        lemma_unambiguous_prefix(ns);
        lemma_visit_wing_mates(init, wing, hops, s);
        lemma_wing_mates_members(init, wing, s);
        let t = wing_mates(init, wing, s);
        let x = ns.last();
        assert(ns[ns.len() - 1] == x);
        let v1 = seq![s] + node_ids(t);
        let id = room_id(wing, x.room);
        if x.wing == wing {
            assert(id == x.id);
            if x.id == s {
                assert(v1[0] == s);
                assert(v1.contains(id));
            } else {
                assert(!v1.contains(id)) by {
                    if v1.contains(id) {
                        let k = choose|k: int| 0 <= k < v1.len() && v1[k] == id;
                        if k > 0 {
                            assert(v1[k] == t[k - 1].id);
                            assert(ns.drop_last().contains(t[k - 1]));
                            let m = choose|m: int| 0 <= m < init.len() && init[m] == t[k - 1];
                            assert(ns[m] == init[m]);
                            assert(ns[m].id != ns[ns.len() - 1].id);
                        }
                    }
                }
                assert(seq![s] + node_ids(t.push(x)) =~= v1.push(id));
                assert(queued_at(t.push(x), hops) =~= queued_at(t, hops).push((id, hops)));
            }
        }
    }
}

proof fn lemma_bfs_drain(
    nodes: Seq<RoomNodeView>,
    max_hops: nat,
    v: Seq<Seq<char>>,
    wing: Seq<char>,
    w: Seq<RoomNodeView>,
    hops: nat,
    found: Seq<RoomNodeView>,
    fuel: nat,
)
    requires
        unambiguous_ids(nodes),
        fuel >= w.len(),
        forall|k: int| 0 <= k < w.len() ==> nodes.contains(#[trigger] w[k]) && w[k].wing == wing,
        forall|k: int| 0 <= k < nodes.len() && (#[trigger] nodes[k]).wing == wing ==> v.contains(room_id(wing, nodes[k].room)),
    ensures
        bfs(nodes, max_hops, v, queued_at(w, hops), found, fuel) == found + w,
    decreases w.len(),
{
    if w.len() == 0 {
        assert(queued_at(w, hops).len() == 0);
        assert(found + w =~= found);
    } else {
        let q = queued_at(w, hops);
        assert(q[0] == (w[0].id, hops));
        assert(q.drop_first() =~= queued_at(w.drop_first(), hops));
        lemma_lookup_unique(nodes, w[0]);
        if hops < max_hops {
            lemma_visit_wing_none(nodes, wing, hops + 1, v, q.drop_first());
        }
        let rest = w.drop_first();
        assert forall|k: int| 0 <= k < rest.len() implies nodes.contains(#[trigger] rest[k]) && rest[k].wing == wing by {
            assert(rest[k] == w[k + 1]);
        }
        lemma_bfs_drain(nodes, max_hops, v, wing, rest, hops, found.push(w[0]), (fuel - 1) as nat);
        assert(found.push(w[0]) + rest =~= found + w);
    }
}

/// A traversal reports the start room, then, when it may take a step, every other room
/// of the start room's wing, in node order, and nothing more: rooms are linked through
/// their wing only. In the palace graph, whose nodes are ordered by wing and then by
/// room, that is room order. This holds where room ids are unambiguous.
pub proof fn lemma_traverse_covers_wing(nodes: Seq<RoomNodeView>, start: Seq<char>, max_hops: nat)
    requires
        unambiguous_ids(nodes),
        lookup_node(nodes, start_node_id(nodes, start)) is Some,
    ensures
        ({
            let n = lookup_node(nodes, start_node_id(nodes, start))->0;
            traverse(nodes, start, max_hops) == if max_hops >= 1 {
                seq![n] + wing_mates(nodes, n.wing, n.id)
            } else {
                seq![n]
            }
        }),
{
    let s = start_node_id(nodes, start);
    let n = lookup_node(nodes, s)->0;
    lemma_lookup_node(nodes, s);
    let fuel = nodes.len() + 1;
    let q0 = seq![(s, 0nat)];
    assert(q0[0] == (s, 0nat));
    assert(q0.drop_first() =~= Seq::<(Seq<char>, nat)>::empty());
    let e = Seq::<RoomNodeView>::empty();
    assert(e.push(n) =~= seq![n]);
    if max_hops >= 1 {
        lemma_visit_wing_mates(nodes, n.wing, 1, s);
        lemma_wing_mates_members(nodes, n.wing, s);
        let w = wing_mates(nodes, n.wing, s);
        let v2 = seq![s] + node_ids(w);
        assert forall|k: int| 0 <= k < nodes.len() && (#[trigger] nodes[k]).wing == n.wing implies v2.contains(room_id(n.wing, nodes[k].room)) by {
            assert(nodes[k].id == room_id(nodes[k].wing, nodes[k].room));
            if nodes[k].id == s {
                assert(v2[0] == s);
            } else {
                assert(w.contains(nodes[k]));
                let m = choose|m: int| 0 <= m < w.len() && w[m] == nodes[k];
                assert(v2[m + 1] == w[m].id);
            }
        }
        assert(bfs(nodes, max_hops, seq![s], q0, e, fuel) == bfs(nodes, max_hops, v2, queued_at(w, 1), seq![n], (fuel - 1) as nat));
        lemma_bfs_drain(nodes, max_hops, v2, n.wing, w, 1, seq![n], (fuel - 1) as nat);
    } else {
        assert(bfs(nodes, max_hops, seq![s], q0, e, fuel) == bfs(nodes, max_hops, seq![s], Seq::<(Seq<char>, nat)>::empty(), seq![n], (fuel - 1) as nat));
    }
}

} // verus!
