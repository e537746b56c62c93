//! Walks through a topology and the search for a shortest one.

use vstd::prelude::*;

use crate::topology::{names, same_text, ConnectionType, DoorView, Topology, TopologyView};

verus! {

/// A walk extended by one adjacent room is a walk.
proof fn lemma_walk_push(g: TopologyView, p: Seq<Seq<char>>, a: Seq<char>, u: Seq<char>, x: Seq<char>)
    requires
        g.walk_between(p, a, u),
        g.adjacent(u, x),
    ensures
        g.walk_between(p.push(x), a, x),
{
    let q = p.push(x);
    assert forall|i: int| 0 <= i < q.len() - 1 implies #[trigger] g.step(q, i) by {
        if i < p.len() - 1 {
            assert(g.step(p, i));
            assert(q[i] == p[i] && q[i + 1] == p[i + 1]);
        } else {
            assert(q[i] == u && q[i + 1] == x);
        }
    }
}

/// A non-empty prefix of a walk is a walk.
proof fn lemma_walk_prefix(g: TopologyView, p: Seq<Seq<char>>, a: Seq<char>, b: Seq<char>, k: int)
    requires
        g.walk_between(p, a, b),
        1 <= k <= p.len(),
    ensures
        g.walk_between(p.take(k), a, p[k - 1]),
{
    let q = p.take(k);
    assert forall|i: int| 0 <= i < q.len() - 1 implies #[trigger] g.step(q, i) by {
        assert(g.step(p, i));
    }
}

/// Reaching a room within `n` steps and then one more step reaches its
/// neighbour within `n + 1` steps.
proof fn lemma_within_step(g: TopologyView, a: Seq<char>, u: Seq<char>, x: Seq<char>, n: int)
    requires
        g.reachable_within(a, u, n),
        g.adjacent(u, x),
    ensures
        g.reachable_within(a, x, n + 1),
{
    let p = choose|p: Seq<Seq<char>>| #[trigger] g.walk_between(p, a, u) && p.len() <= n + 1;
    lemma_walk_push(g, p, a, u, x);
    assert(g.walk_between(p.push(x), a, x));
}

/// The neighbour list of a room names exactly the rooms adjacent to it.
pub proof fn lemma_neighbor_names(g: TopologyView, a: Seq<char>, b: Seq<char>)
    ensures
        g.neighbor_names(a).contains(b) <==> g.adjacent(a, b),
    decreases g.doors.len(),
{
    let f = |d: DoorView| TopologyView::other_side(d, a);
    if g.doors.len() == 0 {
        assert(g.neighbor_names(a) =~= Seq::<Seq<char>>::empty());
    } else {
        let h = TopologyView { rooms: g.rooms, doors: g.doors.drop_last() };
        lemma_neighbor_names(h, a, b);
        let last = g.doors.last();
        assert(g.neighbor_names(a) == match f(last) {
            Some(s) => h.neighbor_names(a) + seq![s],
            None => h.neighbor_names(a),
        });
        if g.adjacent(a, b) {
            let i = choose|i: int|
                0 <= i < g.doors.len() && TopologyView::other_side(#[trigger] g.doors[i], a)
                    == Some(b);
            if i < g.doors.len() - 1 {
                assert(h.doors[i] == g.doors[i]);
                assert(h.adjacent(a, b));
                assert(h.neighbor_names(a).contains(b));
                let k = choose|k: int|
                    0 <= k < h.neighbor_names(a).len() && h.neighbor_names(a)[k] == b;
                assert(g.neighbor_names(a)[k] == b);
            } else {
                assert(g.neighbor_names(a).last() == b);
            }
        }
        if g.neighbor_names(a).contains(b) {
            let k = choose|k: int|
                0 <= k < g.neighbor_names(a).len() && g.neighbor_names(a)[k] == b;
            if k < h.neighbor_names(a).len() {
                assert(h.neighbor_names(a)[k] == b);
                assert(h.neighbor_names(a).contains(b));
                let i = choose|i: int|
                    0 <= i < h.doors.len() && TopologyView::other_side(#[trigger] h.doors[i], a)
                        == Some(b);
                assert(g.doors[i] == h.doors[i]);
            } else {
                assert(TopologyView::other_side(g.doors[g.doors.len() - 1], a) == Some(b));
            }
        }
    }
}

/// A door or a warp makes each of its rooms adjacent to the other; a one-way
/// passage makes its destination adjacent to its source.
pub proof fn lemma_connection_adjacency(g: TopologyView, i: int)
    requires
        0 <= i < g.doors.len(),
    ensures
        g.adjacent(g.doors[i].from, g.doors[i].to),
        g.doors[i].connection_type != ConnectionType::OneWay ==> g.adjacent(
            g.doors[i].to,
            g.doors[i].from,
        ),
{
    let d = g.doors[i];
    assert(TopologyView::other_side(g.doors[i], d.from) == Some(d.to));
    if d.connection_type != ConnectionType::OneWay {
        if d.from == d.to {
            assert(TopologyView::other_side(g.doors[i], d.to) == Some(d.from));
        } else {
            assert(TopologyView::other_side(g.doors[i], d.to) == Some(d.from));
        }
    }
}

/// When every room reached within `n` steps (`n > 0`) is already reached
/// within `n - 1`, nothing is reached in more than `n` steps that is not
/// reached within `n`.
proof fn lemma_within_closed(g: TopologyView, a: Seq<char>, x: Seq<char>, n: int, m: int)
    requires
        n > 0,
        forall|y: Seq<char>| #[trigger]
            g.reachable_within(a, y, n) ==> g.reachable_within(a, y, n - 1),
        g.reachable_within(a, x, m),
    ensures
        g.reachable_within(a, x, n),
    decreases m,
{
    let p = choose|p: Seq<Seq<char>>| #[trigger] g.walk_between(p, a, x) && p.len() <= m + 1;
    if p.len() <= n + 1 {
    } else {
        let k = p.len() - 1;
        let u = p[k - 1];
        lemma_walk_prefix(g, p, a, x, k);
        assert(g.walk_between(p.take(k), a, u));
        assert(g.reachable_within(a, u, m - 1));
        lemma_within_closed(g, a, u, n, m - 1);
        assert(g.reachable_within(a, u, n - 1));
        assert(g.step(p, k - 1));
        lemma_within_step(g, a, u, x, n - 1);
    }
}

/// A sequence without duplicates whose items all occur in `t` is no longer than `t`.
proof fn lemma_distinct_within<A>(s: Seq<A>, t: Seq<A>)
    requires
        s.no_duplicates(),
        forall|i: int| 0 <= i < s.len() ==> t.contains(#[trigger] s[i]),
    ensures
        s.len() <= t.len(),
{
    s.unique_seq_to_set();
    t.lemma_cardinality_of_set();
    assert(s.to_set().subset_of(t.to_set())) by {
        assert forall|x: A| s.to_set().contains(x) implies t.to_set().contains(x) by {
            let i = choose|i: int| 0 <= i < s.len() && s[i] == x;
            assert(t.contains(s[i]));
        }
    }
    vstd::set_lib::lemma_len_subset(s.to_set(), t.to_set());
}

/// Whether `names` holds `n`.
fn contains_name(v: &Vec<String>, n: &str) -> (r: bool)
    ensures
        r == names(v@).contains(n@),
{
    let mut i: usize = 0;
    while i < v.len()
        invariant
            i <= v@.len(),
            forall|j: int| 0 <= j < i ==> v@[j]@ != n@,
        decreases v@.len() - i,
    {
        if same_text(&v[i], n) {
            assert(names(v@)[i as int] == n@);
            return true;
        }
        i = i + 1;
    }
    assert(!names(v@).contains(n@)) by {
        if names(v@).contains(n@) {
            let k = choose|k: int| 0 <= k < names(v@).len() && names(v@)[k] == n@;
            assert(v@[k]@ == n@);
        }
    }
    false
}

/// A copy of a path.
fn copy_path(p: &Vec<String>) -> (r: Vec<String>)
    ensures
        r@ == p@,
{
    let mut r: Vec<String> = Vec::new();
    let mut i: usize = 0;
    while i < p.len()
        invariant
            i <= p@.len(),
            r@ == p@.take(i as int),
        decreases p@.len() - i,
    {
        r.push(p[i].clone());
        assert(r@ =~= p@.take(i + 1));
        i = i + 1;
    }
    assert(p@.take(i as int) =~= p@);
    r
}

/// An adjacent room is a room of a well-formed topology.
proof fn lemma_adjacent_is_room(g: TopologyView, u: Seq<char>, x: Seq<char>)
    requires
        g.well_formed(),
        g.adjacent(u, x),
    ensures
        g.rooms.contains(x),
{
    let di = choose|di: int|
        0 <= di < g.doors.len() && TopologyView::other_side(#[trigger] g.doors[di], u) == Some(x);
    assert(g.rooms.contains(g.doors[di].from));
}

/// The last room of a path.
spec fn path_end(p: Vec<String>) -> Seq<char> {
    names(p@).last()
}

/// Every path of `ps` is a walk from `a` with `n` steps.
spec fn paths_from(g: TopologyView, a: Seq<char>, n: int, ps: Seq<Vec<String>>) -> bool {
    forall|k: int|
        #![trigger ps[k]]
        0 <= k < ps.len() ==> g.walk_between(names(ps[k]@), a, path_end(ps[k])) && ps[k]@.len()
            == n + 1
}

/// Some path of `ps` ends at `x`.
spec fn ends_in(ps: Seq<Vec<String>>, x: Seq<char>) -> bool {
    exists|k: int| #![trigger ps[k]] 0 <= k < ps.len() && path_end(ps[k]) == x
}

/// The visited rooms are distinct, and each is a room of the topology or the start.
spec fn visited_sane(g: TopologyView, a: Seq<char>, vis: Seq<Seq<char>>) -> bool {
    &&& vis.no_duplicates()
    &&& forall|k: int| 0 <= k < vis.len() ==> g.rooms.push(a).contains(#[trigger] vis[k])
}

/// The search state at the start of level `level`: the frontier holds walks
/// of `level` steps reaching every room first reached in exactly `level`
/// steps, the visited rooms are those reached within `level` steps, and the
/// target is not among them.
spec fn level_ok(
    g: TopologyView,
    a: Seq<char>,
    t: Seq<char>,
    level: int,
    frontier: Seq<Vec<String>>,
    vis: Seq<Seq<char>>,
) -> bool {
    &&& level >= 0
    &&& paths_from(g, a, level, frontier)
    &&& forall|x: Seq<char>| #[trigger] g.reachable_within(a, x, level) ==> vis.contains(x)
    &&& forall|k: int| 0 <= k < vis.len() ==> g.reachable_within(a, #[trigger] vis[k], level)
    &&& !vis.contains(t)
    &&& forall|x: Seq<char>| #[trigger]
        g.reachable_within(a, x, level) && !(level > 0 && g.reachable_within(a, x, level - 1))
            ==> ends_in(frontier, x)
    &&& visited_sane(g, a, vis)
}

/// The state while level `level` is expanded: `next` holds walks of
/// `level + 1` steps, every room visited since `old_vis` ends one of them, and
/// the target has not been visited.
spec fn expansion_ok(
    g: TopologyView,
    a: Seq<char>,
    t: Seq<char>,
    level: int,
    old_vis: Seq<Seq<char>>,
    vis: Seq<Seq<char>>,
    next: Seq<Vec<String>>,
) -> bool {
    &&& paths_from(g, a, level + 1, next)
    &&& forall|k: int|
        0 <= k < vis.len() ==> old_vis.contains(#[trigger] vis[k]) || ends_in(next, vis[k])
    &&& forall|x: Seq<char>| old_vis.contains(x) ==> #[trigger] vis.contains(x)
    &&& vis.len() == old_vis.len() + next.len()
    &&& !vis.contains(t)
    &&& visited_sane(g, a, vis)
}

/// Visiting a new room `n` by the walk `np` keeps the expansion state.
proof fn lemma_visit(
    g: TopologyView,
    a: Seq<char>,
    t: Seq<char>,
    level: int,
    old_vis: Seq<Seq<char>>,
    vis: Seq<Seq<char>>,
    next: Seq<Vec<String>>,
    np: Vec<String>,
    n: Seq<char>,
)
    requires
        expansion_ok(g, a, t, level, old_vis, vis, next),
        !vis.contains(n),
        n != t,
        g.rooms.contains(n),
        g.walk_between(names(np@), a, n),
        np@.len() == level + 2,
        path_end(np) == n,
    ensures
        expansion_ok(g, a, t, level, old_vis, vis.push(n), next.push(np)),
        forall|x: Seq<char>| vis.contains(x) ==> #[trigger] vis.push(n).contains(x),
        vis.push(n).contains(n),
{
    let v2 = vis.push(n);
    let n2 = next.push(np);
    assert forall|k: int| #![trigger n2[k]] 0 <= k < n2.len() implies g.walk_between(
        names(n2[k]@),
        a,
        path_end(n2[k]),
    ) && n2[k]@.len() == level + 2 by {
        if k < next.len() {
            assert(n2[k] == next[k]);
        }
    }
    assert forall|k: int| 0 <= k < v2.len() implies old_vis.contains(#[trigger] v2[k]) || ends_in(
        n2,
        v2[k],
    ) by {
        if k < vis.len() {
            assert(v2[k] == vis[k]);
            if !old_vis.contains(vis[k]) {
                let j = choose|j: int| #![trigger next[j]] 0 <= j < next.len() && path_end(next[j]) == vis[k];
                assert(n2[j] == next[j]);
            }
        } else {
            assert(n2[next.len() as int] == np);
        }
    }
    assert forall|x: Seq<char>| vis.contains(x) implies #[trigger] v2.contains(x) by {
        let k = choose|k: int| 0 <= k < vis.len() && vis[k] == x;
        assert(v2[k] == x);
    }
    assert(v2[vis.len() as int] == n);
    assert(!v2.contains(t)) by {
        if v2.contains(t) {
            let k = choose|k: int| 0 <= k < v2.len() && v2[k] == t;
            if k < vis.len() {
                assert(vis[k] == t);
            }
        }
    }
    assert forall|x: int, y: int| 0 <= x < v2.len() && 0 <= y < v2.len() && x != y implies v2[x]
        != v2[y] by {
        if x == vis.len() {
            assert(v2[y] == vis[y]);
        } else if y == vis.len() {
            assert(v2[x] == vis[x]);
        } else {
            assert(v2[x] == vis[x]);
            assert(v2[y] == vis[y]);
        }
    }
    assert forall|k: int| 0 <= k < v2.len() implies g.rooms.push(a).contains(#[trigger] v2[k]) by {
        if k < vis.len() {
            assert(v2[k] == vis[k]);
        } else {
            let ri = choose|ri: int| 0 <= ri < g.rooms.len() && g.rooms[ri] == n;
            assert(g.rooms.push(a)[ri] == n);
        }
    }
}

/// When every path of a level has been expanded, the state of the next level holds.
proof fn lemma_next_level(
    g: TopologyView,
    a: Seq<char>,
    t: Seq<char>,
    level: int,
    frontier: Seq<Vec<String>>,
    old_vis: Seq<Seq<char>>,
    vis: Seq<Seq<char>>,
    next: Seq<Vec<String>>,
)
    requires
        level_ok(g, a, t, level, frontier, old_vis),
        expansion_ok(g, a, t, level, old_vis, vis, next),
        forall|fi: int, y: Seq<char>|
            0 <= fi < frontier.len() && #[trigger] g.adjacent(path_end(frontier[fi]), y)
                ==> vis.contains(y),
    ensures
        level_ok(g, a, t, level + 1, next, vis),
{
    assert forall|x: Seq<char>| #[trigger] g.reachable_within(a, x, level + 1) implies vis.contains(
        x,
    ) by {
        let p = choose|p: Seq<Seq<char>>| #[trigger] g.walk_between(p, a, x) && p.len() <= level + 2;
        if p.len() <= level + 1 {
            assert(g.reachable_within(a, x, level));
            assert(old_vis.contains(x));
        } else {
            let u = p[level];
            lemma_walk_prefix(g, p, a, x, level + 1);
            assert(g.walk_between(p.take(level + 1), a, u));
            assert(g.reachable_within(a, u, level));
            assert(g.step(p, level));
            if level > 0 && g.reachable_within(a, u, level - 1) {
                lemma_within_step(g, a, u, x, level - 1);
                assert(old_vis.contains(x));
            } else {
                assert(ends_in(frontier, u));
                let fi = choose|fi: int|
                    #![trigger frontier[fi]]
                    0 <= fi < frontier.len() && path_end(frontier[fi]) == u;
                assert(g.adjacent(path_end(frontier[fi]), x));
            }
        }
    }
    assert forall|k: int| 0 <= k < vis.len() implies g.reachable_within(a, #[trigger] vis[k], level + 1) by {
        if old_vis.contains(vis[k]) {
            let m = choose|m: int| 0 <= m < old_vis.len() && old_vis[m] == vis[k];
            assert(g.reachable_within(a, old_vis[m], level));
            let p = choose|p: Seq<Seq<char>>|
                #[trigger] g.walk_between(p, a, old_vis[m]) && p.len() <= level + 1;
            assert(g.walk_between(p, a, vis[k]));
        } else {
            let j = choose|j: int| #![trigger next[j]] 0 <= j < next.len() && path_end(next[j]) == vis[k];
            assert(g.walk_between(names(next[j]@), a, vis[k]));
        }
    }
    assert forall|x: Seq<char>| #[trigger]
        g.reachable_within(a, x, level + 1) && !(level + 1 > 0 && g.reachable_within(
            a,
            x,
            level,
        )) implies ends_in(next, x) by {
        assert(vis.contains(x));
        let k = choose|k: int| 0 <= k < vis.len() && vis[k] == x;
        if old_vis.contains(x) {
            let m = choose|m: int| 0 <= m < old_vis.len() && old_vis[m] == x;
            assert(g.reachable_within(a, old_vis[m], level));
        }
    }
}

impl Topology {
    /// Expand one path of the current level: every new room next to its end is
    /// visited and gets a path one step longer; the search stops at the target.
    fn expand_path(
        &self,
        path: &Vec<String>,
        to_s: &String,
        visited: &mut Vec<String>,
        next: &mut Vec<Vec<String>>,
        Ghost(a): Ghost<Seq<char>>,
        Ghost(level): Ghost<int>,
        Ghost(old_vis): Ghost<Seq<Seq<char>>>,
    ) -> (found: Option<Vec<String>>)
        requires
            self.wf(),
            level >= 0,
            a != to_s@,
            path@.len() == level + 1,
            self@.walk_between(names(path@), a, path_end(*path)),
            expansion_ok(self@, a, to_s@, level, old_vis, names(old(visited)@), old(next)@),
        ensures
            match found {
                Some(res) => self@.walk_between(names(res@), a, to_s@) && res@.len() == level + 2,
                None => {
                    &&& expansion_ok(
                        self@,
                        a,
                        to_s@,
                        level,
                        old_vis,
                        names(final(visited)@),
                        final(next)@,
                    )
                    &&& forall|x: Seq<char>|
                        names(old(visited)@).contains(x) ==> #[trigger] names(
                            final(visited)@,
                        ).contains(x)
                    &&& forall|y: Seq<char>|
                        self@.adjacent(path_end(*path), y) ==> #[trigger] names(
                            final(visited)@,
                        ).contains(y)
                },
            },
    {
        let ghost g = self@;
        let ghost t = to_s@;
        proof {
            self.lemma_view_well_formed();
        }
        let cur: &str = path[path.len() - 1].as_str();
        let ghost cur_v = path_end(*path);
        let nbrs = self.neighbors(cur);
        let ghost vis0 = names(visited@);
        let mut j: usize = 0;
        while j < nbrs.len()
            invariant
                self.wf(),
                g == self@,
                g.well_formed(),
                t == to_s@,
                a != t,
                level >= 0,
                path@.len() == level + 1,
                g.walk_between(names(path@), a, cur_v),
                cur_v == path_end(*path),
                nbrs@.map_values(|s: &str| s@) == g.neighbor_names(cur_v),
                j <= nbrs@.len(),
                vis0 == names(old(visited)@),
                expansion_ok(g, a, t, level, old_vis, names(visited@), next@),
                forall|x: Seq<char>| vis0.contains(x) ==> #[trigger] names(visited@).contains(x),
                forall|jj: int| 0 <= jj < j ==> names(visited@).contains(#[trigger] nbrs@[jj]@),
            decreases nbrs@.len() - j,
        {
            let n: &str = nbrs[j];
            proof {
                assert(nbrs@.map_values(|s: &str| s@)[j as int] == n@);
                lemma_neighbor_names(g, cur_v, n@);
                lemma_walk_push(g, names(path@), a, cur_v, n@);
            }
            let mut np = copy_path(path);
            np.push(n.to_owned());
            proof {
                assert(names(np@) =~= names(path@).push(n@));
            }
            if same_text(to_s, n) {
                return Some(np);
            }
            if !contains_name(&*visited, n) {
                let ghost vis_before = names(visited@);
                let ghost next_before = next@;
                visited.push(n.to_owned());
                next.push(np);
                proof {
                    lemma_adjacent_is_room(g, cur_v, n@);
                    lemma_visit(g, a, t, level, old_vis, vis_before, next_before, np, n@);
                    assert(names(visited@) =~= vis_before.push(n@));
                    assert(next@ =~= next_before.push(np));
                    assert forall|jj: int| 0 <= jj < j + 1 implies names(visited@).contains(
                        #[trigger] nbrs@[jj]@,
                    ) by {
                        if jj < j {
                            assert(vis_before.contains(nbrs@[jj]@));
                        }
                    }
                }
            }
            j = j + 1;
        }
        proof {
            assert forall|y: Seq<char>| g.adjacent(cur_v, y) implies #[trigger] names(
                visited@,
            ).contains(y) by {
                lemma_neighbor_names(g, cur_v, y);
                let k = choose|k: int|
                    0 <= k < g.neighbor_names(cur_v).len() && g.neighbor_names(cur_v)[k] == y;
                assert(nbrs@.map_values(|s: &str| s@)[k] == y);
                assert(names(visited@).contains(nbrs@[k]@));
            }
        }
        None
    }

    /// Find a shortest path between two rooms: a walk from `from` to `to`
    /// along the connections, with no walk between them that has fewer rooms.
    /// `None` when `to` cannot be reached from `from`.
    pub fn shortest_path(&self, from: &str, to: &str) -> (r: Option<Vec<String>>)
        requires
            self.wf(),
        ensures
            match r {
                Some(p) => {
                    &&& self@.walk_between(names(p@), from@, to@)
                    &&& forall|q: Seq<Seq<char>>| #[trigger]
                        self@.walk_between(q, from@, to@) ==> names(p@).len() <= q.len()
                },
                None => !self@.reachable(from@, to@),
            },
    {
        let ghost g = self@;
        let ghost a = from@;
        let ghost t = to@;
        let from_s = from.to_owned();
        let to_s = to.to_owned();
        if same_text(&from_s, to) {
            let mut p: Vec<String> = Vec::new();
            p.push(from_s);
            proof {
                assert(names(p@) =~= seq![a]);
                assert(g.walk_between(names(p@), a, t));
            }
            return Some(p);
        }
        let mut visited: Vec<String> = Vec::new();
        visited.push(from.to_owned());
        let mut start: Vec<String> = Vec::new();
        start.push(from.to_owned());
        let mut frontier: Vec<Vec<String>> = Vec::new();
        frontier.push(start);
        let ghost mut level: int = 0;
        proof {
            let vis = names(visited@);
            assert(vis =~= seq![a]);
            assert(names(frontier@[0]@) =~= seq![a]);
            assert(g.walk_between(names(frontier@[0]@), a, a));
            assert forall|x: Seq<char>| #[trigger] g.reachable_within(a, x, 0) implies vis.contains(
                x,
            ) by {
                let p = choose|p: Seq<Seq<char>>| #[trigger] g.walk_between(p, a, x) && p.len() <= 1;
                assert(vis[0] == x);
            }
            assert(g.walk_between(seq![a], a, a));
            assert(g.reachable_within(a, vis[0], 0));
            assert(g.rooms.push(a)[g.rooms.len() as int] == a);
            assert forall|x: Seq<char>| #[trigger]
                g.reachable_within(a, x, 0) && !(0 > 0 && g.reachable_within(a, x, 0 - 1))
                    implies ends_in(frontier@, x) by {
                let p = choose|p: Seq<Seq<char>>| #[trigger] g.walk_between(p, a, x) && p.len() <= 1;
                assert(path_end(frontier@[0]) == x);
            }
            assert(level_ok(g, a, t, 0, frontier@, vis));
        }
        while frontier.len() > 0
            invariant
                self.wf(),
                g == self@,
                a == from@,
                t == to@,
                to_s@ == t,
                a != t,
                level_ok(g, a, t, level, frontier@, names(visited@)),
                level == 0 ==> frontier@.len() > 0,
                visited@.len() <= g.rooms.len() + 1,
            decreases g.rooms.len() + 1 - visited@.len() + (if frontier@.len() > 0 {
                1int
            } else {
                0int
            }),
        {
            let ghost old_vis = names(visited@);
            let mut next: Vec<Vec<String>> = Vec::new();
            let mut i: usize = 0;
            proof {
                assert(names(visited@) == old_vis);
                assert(expansion_ok(g, a, t, level, old_vis, names(visited@), next@));
            }
            while i < frontier.len()
                invariant
                    self.wf(),
                    g == self@,
                    a == from@,
                    t == to@,
                    to_s@ == t,
                    a != t,
                    level_ok(g, a, t, level, frontier@, old_vis),
                    i <= frontier@.len(),
                    expansion_ok(g, a, t, level, old_vis, names(visited@), next@),
                    forall|fi: int, y: Seq<char>|
                        0 <= fi < i && #[trigger] g.adjacent(path_end(frontier@[fi]), y)
                            ==> names(visited@).contains(y),
                decreases frontier@.len() - i,
            {
                let ghost vis_i = names(visited@);
                let found = self.expand_path(
                    &frontier[i],
                    &to_s,
                    &mut visited,
                    &mut next,
                    Ghost(a),
                    Ghost(level),
                    Ghost(old_vis),
                );
                if let Some(res) = found {
                    proof {
                        assert forall|q: Seq<Seq<char>>| #[trigger]
                            g.walk_between(q, a, t) implies names(res@).len() <= q.len() by {
                            if q.len() < level + 2 {
                                assert(g.reachable_within(a, t, level));
                                assert(old_vis.contains(t));
                                assert(vis_i.contains(t));
                            }
                        }
                    }
                    return Some(res);
                }
                proof {
                    assert forall|fi: int, y: Seq<char>|
                        0 <= fi < i + 1 && #[trigger] g.adjacent(path_end(frontier@[fi]), y)
                            implies names(visited@).contains(y) by {
                        if fi < i {
                            assert(vis_i.contains(y));
                        }
                    }
                }
                i = i + 1;
            }
            proof {
                lemma_next_level(g, a, t, level, frontier@, old_vis, names(visited@), next@);
                lemma_distinct_within(names(visited@), g.rooms.push(a));
            }
            frontier = next;
            proof {
                level = level + 1;
            }
        }
        proof {
            assert forall|y: Seq<char>| #[trigger] g.reachable_within(a, y, level) implies g.reachable_within(
                a,
                y,
                level - 1,
            ) by {
                if !g.reachable_within(a, y, level - 1) {
                    assert(ends_in(frontier@, y));
                }
            }
            if g.reachable(a, t) {
                let q = choose|q: Seq<Seq<char>>| #[trigger] g.walk_between(q, a, t);
                assert(g.reachable_within(a, t, q.len() - 1));
                lemma_within_closed(g, a, t, level, q.len() - 1);
            }
        }
        None
    }
}

} // verus!
