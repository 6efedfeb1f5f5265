//! The path search engine: a breadth-first search over the object-type
//! graph, whose edges are fields with an object-kinded, named deepest type.

use vstd::prelude::*;
use vstd::seq_lib::*;
use vstd::set_lib::*;
use crate::schema::{Field, TypeMap, find_last, lemma_find_last};
use crate::text::{str_contains, str_eq};

verus! {

/// One hop of a path: a type, and the field on it that was followed
/// (`None` only for the degenerate single-entry self path).
pub struct TypeField {
    pub ty_name: String,
    pub field_name: Option<String>,
}

impl TypeField {
    pub fn new(ty_name: &str, field_name: Option<String>) -> (r: TypeField)
        ensures
            r.ty_name@ == ty_name@,
            r.field_name == field_name,
    {
        TypeField { ty_name: ty_name.to_owned(), field_name }
    }

    /// An independent copy, equal to `self`.
    pub fn duplicate(&self) -> (r: TypeField)
        ensures
            r == *self,
    {
        TypeField {
            ty_name: self.ty_name.clone(),
            field_name: match &self.field_name {
                Some(s) => Some(s.clone()),
                None => None,
            },
        }
    }
}

/// Copies a path entry by entry.
fn clone_path(p: &Vec<TypeField>) -> (r: Vec<TypeField>)
    ensures
        r@ == p@,
{
    let mut r: Vec<TypeField> = Vec::new();
    let mut i: usize = 0;
    while i < p.len()
        invariant
            i <= p@.len(),
            r@ == p@.subrange(0, i as int),
        decreases p@.len() - i,
    {
        r.push(p[i].duplicate());
        proof {
            assert(r@ =~= p@.subrange(0, i + 1));
        }
        i += 1;
    }
    proof {
        assert(p@.subrange(0, p@.len() as int) =~= p@);
    }
    r
}

/// Following `f` leads to the object type named `b`: the field's deepest
/// type is object-kinded and carries the name `b`.
pub open spec fn field_links(f: Field, b: Seq<char>) -> bool {
    f.field_type.deepest().spec_is_object() && f.field_type.deepest().name is Some
        && f.field_type.deepest().name.unwrap()@ == b
}

/// The type named `a` (as the map resolves it) has a field named `fname`
/// leading to the object type named `b`.
#[verifier::opaque]
pub open spec fn edge(tm: TypeMap, a: Seq<char>, fname: Seq<char>, b: Seq<char>) -> bool {
    tm.contains_name(a) && match tm.spec_get(a).fields {
        Some(fs) => exists|k: int|
            0 <= k < fs@.len() && (#[trigger] fs@[k]).name@ == fname && field_links(fs@[k], b),
        None => false,
    }
}

/// The type name hop `i` of `p` leads to: the next entry's type, or `end`
/// for the last hop.
pub open spec fn path_next(p: Seq<TypeField>, i: int, end: Seq<char>) -> Seq<char> {
    if i + 1 < p.len() {
        p[i + 1].ty_name@
    } else {
        end
    }
}

/// `p` is a chain of field hops from `start` to `end` in the graph of `tm`:
/// each entry names a type and a field on it, each hop's field leads to the
/// next entry's type (the last to `end`), and `end` is present in the map.
#[verifier::opaque]
pub open spec fn valid_path(tm: TypeMap, start: Seq<char>, end: Seq<char>, p: Seq<TypeField>) -> bool {
    &&& p.len() > 0
    &&& p[0].ty_name@ == start
    &&& tm.contains_name(end)
    &&& forall|i: int| 0 <= i < p.len() ==> (#[trigger] p[i]).field_name is Some
    &&& forall|i: int|
        0 <= i < p.len() ==> edge(tm, (#[trigger] p[i]).ty_name@, p[i].field_name.unwrap()@, path_next(p, i, end))
}

/// Some chain of field hops connects `start` to `end`.
pub open spec fn has_path(tm: TypeMap, start: Seq<char>, end: Seq<char>) -> bool {
    exists|p: Seq<TypeField>| valid_path(tm, start, end, p)
}

/// What the search stores for a discovered type name `v`: the hop chain
/// from `start` to `v`, empty exactly for `start` itself.
spec fn stored_ok(tm: TypeMap, start: Seq<char>, v: Seq<char>, p: Seq<TypeField>) -> bool {
    if v == start {
        p.len() == 0
    } else {
        valid_path(tm, start, v, p)
    }
}

/// `n` is the view of an element of `vs`.
spec fn name_in(vs: Seq<String>, n: Seq<char>) -> bool {
    exists|i: int| 0 <= i < vs.len() && (#[trigger] vs[i])@ == n
}

/// Some queue entry is named `n` and stores a chain of at most `bound` hops.
spec fn qdisc(q: Seq<Discovered>, n: Seq<char>, bound: int) -> bool {
    exists|i: int|
        0 <= i < q.len() && (#[trigger] q[i]).name@ == n && q[i].path@.len() <= bound
}

/// The type name reached after `m` hops of `p`: an entry's type, or `end`
/// after the last hop.
spec fn node_at(p: Seq<TypeField>, m: int, end: Seq<char>) -> Seq<char> {
    if m < p.len() {
        p[m].ty_name@
    } else {
        end
    }
}

/// Within the first `m` hops, `p` passes through a type that is still
/// unprocessed (at or after `head`) and was discovered within as many hops
/// as `p` took to reach it.
spec fn qcut(q: Seq<Discovered>, head: int, p: Seq<TypeField>, end: Seq<char>, m: int) -> bool {
    exists|m2: int, i: int|
        #![trigger node_at(p, m2, end), q[i]]
        0 <= m2 <= m && head <= i < q.len() && q[i].name@ == node_at(p, m2, end)
            && q[i].path@.len() <= m2
}

/// Every edge out of a processed entry leads to a discovery at most one
/// hop farther.
spec fn dist_closed(tm: TypeMap, q: Seq<Discovered>, head: int) -> bool {
    forall|j: int, fname: Seq<char>, b: Seq<char>|
        0 <= j < head && #[trigger] edge(tm, q[j].name@, fname, b) && tm.contains_name(b)
            ==> qdisc(q, b, q[j].path@.len() as int + 1)
}

/// Stored chain lengths never exceed `d + 1`.
spec fn frontier_bound(q: Seq<Discovered>, d: int) -> bool {
    forall|i: int| 0 <= i < q.len() ==> (#[trigger] q[i]).path@.len() <= d + 1
}

/// Stored chain lengths are nondecreasing along the queue.
spec fn sorted_q(q: Seq<Discovered>) -> bool {
    forall|i: int, j: int|
        0 <= i <= j < q.len() ==> (#[trigger] q[i]).path@.len() <= (#[trigger] q[j]).path@.len()
}

/// Any valid chain either passes through a type still waiting in the queue,
/// discovered at least as early as the chain reaches it, or its endpoint is
/// already discovered within the chain's length.
proof fn lemma_min_dist(
    tm: TypeMap,
    start: Seq<char>,
    end: Seq<char>,
    p: Seq<TypeField>,
    q: Seq<Discovered>,
    head: int,
    m: int,
)
    requires
        valid_path(tm, start, end, p),
        0 <= m <= p.len(),
        0 <= head <= q.len(),
        q.len() >= 1,
        q[0].name@ == start,
        q[0].path@.len() == 0,
        dist_closed(tm, q, head),
    ensures
        qcut(q, head, p, end, m) || qdisc(q, node_at(p, m, end), m),
    decreases m,
{
    reveal(valid_path);
    reveal(edge);
    if m == 0 {
        assert(node_at(p, 0, end) == start);
        assert(q[0].name@ == node_at(p, 0, end) && q[0].path@.len() <= 0);
        assert(qdisc(q, node_at(p, 0, end), 0));
    } else {
        lemma_min_dist(tm, start, end, p, q, head, m - 1);
        assert(edge(tm, p[m - 1].ty_name@, p[m - 1].field_name.unwrap()@, path_next(p, m - 1, end)));
        assert(path_next(p, m - 1, end) == node_at(p, m, end));
        assert(tm.contains_name(node_at(p, m, end))) by {
            if m < p.len() {
                assert(edge(tm, p[m].ty_name@, p[m].field_name.unwrap()@, path_next(p, m, end)));
            }
        }
        if qcut(q, head, p, end, m - 1) {
            let (m2, i) = choose|m2: int, i: int|
                #![trigger node_at(p, m2, end), q[i]]
                0 <= m2 <= m - 1 && head <= i < q.len() && q[i].name@ == node_at(p, m2, end)
                    && q[i].path@.len() <= m2;
            assert(0 <= m2 <= m && head <= i < q.len() && q[i].name@ == node_at(p, m2, end)
                && q[i].path@.len() <= m2);
            assert(qcut(q, head, p, end, m));
        } else {
            assert(qdisc(q, node_at(p, m - 1, end), m - 1));
            let i = choose|i: int|
                0 <= i < q.len() && (#[trigger] q[i]).name@ == node_at(p, m - 1, end)
                    && q[i].path@.len() <= m - 1;
            if i >= head {
                assert(q[i].name@ == node_at(p, m - 1, end) && q[i].path@.len() <= m - 1);
                assert(qcut(q, head, p, end, m));
            } else {
                assert(node_at(p, m - 1, end) == p[m - 1].ty_name@);
                assert(edge(tm, q[i].name@, p[m - 1].field_name.unwrap()@, node_at(p, m, end)));
                assert(qdisc(q, node_at(p, m, end), q[i].path@.len() as int + 1));
                let i2 = choose|i2: int|
                    0 <= i2 < q.len() && (#[trigger] q[i2]).name@ == node_at(p, m, end)
                        && q[i2].path@.len() <= q[i].path@.len() + 1;
                assert(q[i2].path@.len() <= m);
                assert(qdisc(q, node_at(p, m, end), m));
            }
        }
    }
}

/// Processing one entry whose discoveries all store one hop more keeps the
/// queue sorted, the frontier tight, and the distance closure.
proof fn lemma_dist_transfer(
    tm: TypeMap,
    head: int,
    d: int,
    q0: Seq<Discovered>,
    q1: Seq<Discovered>,
    cur: Seq<char>,
)
    requires
        0 <= head < q0.len(),
        q0[head].path@.len() == d,
        q0[head].name@ == cur,
        sorted_q(q0),
        frontier_bound(q0, d),
        dist_closed(tm, q0, head),
        forall|i: int| 0 <= i < q0.len() ==> q1[i] == q0[i],
        q1.len() >= q0.len(),
        forall|i: int| q0.len() <= i < q1.len() ==> (#[trigger] q1[i]).path@.len() == d + 1,
        forall|fname: Seq<char>, b: Seq<char>|
            #[trigger] edge(tm, cur, fname, b) && tm.contains_name(b) ==> qdisc(q1, b, d + 1),
    ensures
        sorted_q(q1),
        dist_closed(tm, q1, head + 1),
        head + 1 < q1.len() ==> frontier_bound(q1, q1[head + 1].path@.len() as int),
{
    assert forall|i: int, j: int|
        0 <= i <= j < q1.len() implies (#[trigger] q1[i]).path@.len() <= (
    #[trigger] q1[j]).path@.len() by {
        if j < q0.len() {
            assert(q1[i] == q0[i] && q1[j] == q0[j]);
        } else if i < q0.len() {
            assert(q1[i] == q0[i]);
            assert(q0[i].path@.len() <= d + 1);
        }
    }
    assert forall|j: int, fname: Seq<char>, b: Seq<char>|
        0 <= j < head + 1 && #[trigger] edge(tm, q1[j].name@, fname, b) && tm.contains_name(b)
            implies qdisc(q1, b, q1[j].path@.len() as int + 1) by {
        assert(q1[j] == q0[j]);
        if j < head {
            assert(edge(tm, q0[j].name@, fname, b));
            assert(qdisc(q0, b, q0[j].path@.len() as int + 1));
            let i = choose|i: int|
                0 <= i < q0.len() && (#[trigger] q0[i]).name@ == b && q0[i].path@.len()
                    <= q0[j].path@.len() + 1;
            assert(q1[i] == q0[i]);
            assert(qdisc(q1, b, q1[j].path@.len() as int + 1));
        } else {
            assert(q0[j].name@ == cur);
            assert(edge(tm, cur, fname, b));
        }
    }
    if head + 1 < q1.len() {
        let d2 = q1[head + 1].path@.len() as int;
        assert forall|i: int| 0 <= i < q1.len() implies (#[trigger] q1[i]).path@.len() <= d2
            + 1 by {
            if head + 1 < q0.len() {
                assert(q1[head + 1] == q0[head + 1]);
                assert(d <= d2);
                if i < q0.len() {
                    assert(q1[i] == q0[i]);
                    assert(q0[i].path@.len() <= d + 1);
                }
            } else {
                assert(d2 == d + 1);
                if i < q0.len() {
                    assert(q1[i] == q0[i]);
                    assert(q0[i].path@.len() <= d + 1);
                }
            }
        }
    }
}

/// Extending a stored chain by one edge yields a valid chain.
proof fn lemma_extend_path(
    tm: TypeMap,
    start: Seq<char>,
    mid: Seq<char>,
    b: Seq<char>,
    p: Seq<TypeField>,
    tf: TypeField,
)
    requires
        stored_ok(tm, start, mid, p),
        tf.ty_name@ == mid,
        tf.field_name is Some,
        edge(tm, mid, tf.field_name.unwrap()@, b),
        tm.contains_name(b),
    ensures
        valid_path(tm, start, b, p.push(tf)),
{
    reveal(valid_path);
    reveal(edge);
    let q = p.push(tf);
    assert(q[0].ty_name@ == start);
    assert forall|i: int| 0 <= i < q.len() implies (#[trigger] q[i]).field_name is Some by {
        if i < p.len() {
            assert(q[i] == p[i]);
        }
    }
    assert forall|i: int|
        0 <= i < q.len() implies edge(
        tm,
        (#[trigger] q[i]).ty_name@,
        q[i].field_name.unwrap()@,
        path_next(q, i, b),
    ) by {
        if i < p.len() {
            assert(q[i] == p[i]);
            assert(edge(tm, p[i].ty_name@, p[i].field_name.unwrap()@, path_next(p, i, mid)));
            if i + 1 < p.len() {
                assert(path_next(q, i, b) == path_next(p, i, mid));
            } else {
                assert(path_next(q, i, b) == tf.ty_name@);
                assert(path_next(p, i, mid) == mid);
            }
        } else {
            assert(q[i] == tf);
            assert(path_next(q, i, b) == b);
        }
    }
}

/// A set of names that contains `start` and is closed under in-map edges
/// contains the endpoint of every valid chain out of `start`.
proof fn lemma_path_stays_inside(
    tm: TypeMap,
    start: Seq<char>,
    end: Seq<char>,
    p: Seq<TypeField>,
    vs: Seq<String>,
)
    requires
        valid_path(tm, start, end, p),
        name_in(vs, start),
        forall|a: Seq<char>, f: Seq<char>, b: Seq<char>|
            name_in(vs, a) && #[trigger] edge(tm, a, f, b) && tm.contains_name(b) ==> name_in(
                vs,
                b,
            ),
    ensures
        name_in(vs, end),
    decreases p.len(),
{
    reveal(valid_path);
    reveal(edge);
    if p.len() == 1 {
        assert(edge(tm, p[0].ty_name@, p[0].field_name.unwrap()@, path_next(p, 0, end)));
        assert(path_next(p, 0, end) == end);
    } else {
        let p2 = p.drop_last();
        let mid = p.last().ty_name@;
        assert(edge(
            tm,
            p[p.len() - 1].ty_name@,
            p[p.len() - 1].field_name.unwrap()@,
            path_next(p, p.len() - 1, end),
        ));
        assert(tm.contains_name(mid));
        assert forall|i: int| 0 <= i < p2.len() implies (#[trigger] p2[i]).field_name is Some by {
            assert(p2[i] == p[i]);
        }
        assert forall|i: int|
            0 <= i < p2.len() implies edge(
            tm,
            (#[trigger] p2[i]).ty_name@,
            p2[i].field_name.unwrap()@,
            path_next(p2, i, mid),
        ) by {
            assert(p2[i] == p[i]);
            assert(edge(tm, p[i].ty_name@, p[i].field_name.unwrap()@, path_next(p, i, end)));
            if i + 1 < p2.len() {
                assert(path_next(p2, i, mid) == p2[i + 1].ty_name@);
                assert(p2[i + 1] == p[i + 1]);
            } else {
                assert(path_next(p2, i, mid) == mid);
                assert(path_next(p, i, end) == p[i + 1].ty_name@);
            }
        }
        assert(valid_path(tm, start, mid, p2));
        lemma_path_stays_inside(tm, start, mid, p2, vs);
        assert(path_next(p, p.len() - 1, end) == end);
    }
}

/// Pairwise distinct names that all occur in `ts` are at most as many as
/// the types themselves.
proof fn lemma_distinct_names_bound(ts: Seq<crate::schema::Type>, vs: Seq<String>)
    requires
        forall|i: int, j: int| 0 <= i < j < vs.len() ==> (#[trigger] vs[i])@ != (#[trigger] vs[j])@,
        forall|i: int|
            0 <= i < vs.len() ==> exists|t: int|
                0 <= t < ts.len() && (#[trigger] ts[t]).name@ == (#[trigger] vs[i])@,
    ensures
        vs.len() <= ts.len(),
{
    let idxs = Seq::new(vs.len(), |i: int| find_last(ts, vs[i]@));
    assert forall|i: int| 0 <= i < idxs.len() implies 0 <= #[trigger] idxs[i] < ts.len() && ts[idxs[i]].name@
        == vs[i]@ by {
        lemma_find_last(ts, vs[i]@);
    }
    assert(idxs.no_duplicates()) by {
        assert forall|i: int, j: int|
            0 <= i < idxs.len() && 0 <= j < idxs.len() && i != j implies idxs[i] != idxs[j] by {
            assert(ts[idxs[i]].name@ == vs[i]@);
            assert(ts[idxs[j]].name@ == vs[j]@);
            assert(vs[i]@ != vs[j]@);
        }
    }
    idxs.unique_seq_to_set();
    assert(idxs.to_set().subset_of(set_int_range(0, ts.len() as int))) by {
        assert forall|x: int| idxs.to_set().contains(x) implies set_int_range(
            0,
            ts.len() as int,
        ).contains(x) by {
            let i = choose|i: int| 0 <= i < idxs.len() && idxs[i] == x;
        }
    }
    lemma_int_range(0, ts.len() as int);
    lemma_len_subset(idxs.to_set(), set_int_range(0, ts.len() as int));
}

/// Is `s` among the strings of `vs`?
fn contains_string(vs: &Vec<String>, s: &str) -> (r: bool)
    ensures
        r == name_in(vs@, s@),
{
    let mut i: usize = 0;
    while i < vs.len()
        invariant
            i <= vs@.len(),
            forall|j: int| 0 <= j < i ==> (#[trigger] vs@[j])@ != s@,
        decreases vs@.len() - i,
    {
        if str_eq(vs[i].as_str(), s) {
            return true;
        }
        i += 1;
    }
    false
}

/// A discovered type name together with the hop chain that first reached it.
struct Discovered {
    name: String,
    path: Vec<TypeField>,
}

/// The working state of the search: names and chains are paired, names are
/// pairwise distinct, every discovered name is in the map, the first entry
/// is the start type, and every stored chain is a chain from the start.
spec fn bfs_inv(tm: TypeMap, start: Seq<char>, visited: Seq<String>, queue: Seq<Discovered>) -> bool {
    &&& visited.len() == queue.len()
    &&& queue.len() >= 1
    &&& queue[0].name@ == start
    &&& forall|i: int| 0 <= i < queue.len() ==> (#[trigger] visited[i])@ == queue[i].name@
    &&& forall|i: int, j: int|
        0 <= i < j < visited.len() ==> (#[trigger] visited[i])@ != (#[trigger] visited[j])@
    &&& forall|i: int| 0 <= i < queue.len() ==> tm.contains_name((#[trigger] queue[i]).name@)
    &&& forall|i: int|
        0 <= i < queue.len() ==> stored_ok(tm, start, (#[trigger] queue[i]).name@, queue[i].path@)
}

/// Expands one discovered type: every object-valued field target that is in
/// the map and not yet discovered is discovered, with its chain extended by
/// the corresponding hop.
#[verifier::rlimit(100)]
fn expand(
    type_map: &TypeMap,
    cur_name: &String,
    cur_path: &Vec<TypeField>,
    visited: &mut Vec<String>,
    queue: &mut Vec<Discovered>,
    Ghost(start): Ghost<Seq<char>>,
)
    requires
        bfs_inv(*type_map, start, old(visited)@, old(queue)@),
        type_map.contains_name(cur_name@),
        stored_ok(*type_map, start, cur_name@, cur_path@),
        frontier_bound(old(queue)@, cur_path@.len() as int),
    ensures
        bfs_inv(*type_map, start, final(visited)@, final(queue)@),
        final(visited)@.len() - old(visited)@.len() == final(queue)@.len() - old(queue)@.len(),
        final(visited)@.len() >= old(visited)@.len(),
        final(visited)@.len() <= type_map.types@.len(),
        forall|i: int| 0 <= i < old(queue)@.len() ==> final(queue)@[i] == old(queue)@[i],
        forall|b: Seq<char>| #[trigger] name_in(old(visited)@, b) ==> name_in(final(visited)@, b),
        forall|fname: Seq<char>, b: Seq<char>|
            #[trigger] edge(*type_map, cur_name@, fname, b) && type_map.contains_name(b)
                ==> name_in(final(visited)@, b),
        forall|i: int|
            old(queue)@.len() <= i < final(queue)@.len() ==> (#[trigger] final(queue)@[i]).path@.len()
                == cur_path@.len() as int + 1,
        forall|fname: Seq<char>, b: Seq<char>|
            #[trigger] edge(*type_map, cur_name@, fname, b) && type_map.contains_name(b)
                ==> qdisc(final(queue)@, b, cur_path@.len() as int + 1),
{
    let cur_type = type_map.get(cur_name.as_str()).unwrap();
    if cur_type.fields.is_none() {
        proof {
            lemma_distinct_names_bound(type_map.types@, visited@);
            assert forall|fname: Seq<char>, b: Seq<char>|
                #[trigger] edge(*type_map, cur_name@, fname, b) && type_map.contains_name(b)
                    implies name_in(visited@, b) && qdisc(queue@, b, cur_path@.len() as int + 1) by {
                reveal(edge);
            }
        }
        return ;
    }
    let fs = cur_type.fields.as_ref().unwrap();
    let mut k: usize = 0;
    while k < fs.len()
        invariant
            bfs_inv(*type_map, start, visited@, queue@),
            *cur_type == type_map.spec_get(cur_name@),
            cur_type.fields is Some,
            fs@ == cur_type.fields.unwrap()@,
            k <= fs@.len(),
            type_map.contains_name(cur_name@),
            stored_ok(*type_map, start, cur_name@, cur_path@),
            visited@.len() - old(visited)@.len() == queue@.len() - old(queue)@.len(),
            visited@.len() >= old(visited)@.len(),
            forall|i: int| 0 <= i < old(queue)@.len() ==> queue@[i] == old(queue)@[i],
            forall|i: int| 0 <= i < old(visited)@.len() ==> visited@[i] == old(visited)@[i],
            forall|k2: int, b: Seq<char>|
                0 <= k2 < k && #[trigger] field_links(fs@[k2], b) && type_map.contains_name(b)
                    ==> name_in(visited@, b),
            frontier_bound(queue@, cur_path@.len() as int),
            forall|i: int|
                old(queue)@.len() <= i < queue@.len() ==> (#[trigger] queue@[i]).path@.len()
                    == cur_path@.len() as int + 1,
            forall|k2: int, b: Seq<char>|
                0 <= k2 < k && #[trigger] field_links(fs@[k2], b) && type_map.contains_name(b)
                    ==> qdisc(queue@, b, cur_path@.len() as int + 1),
        decreases fs@.len() - k,
    {
        let ghost vpre = visited@;
        let ghost qpre = queue@;
        let deep = fs[k].field_type.get_deepest();
        if deep.is_object() {
            if deep.name.is_some() {
                let tname = deep.name.as_ref().unwrap();
                let already = contains_string(&visited, tname.as_str());
                if already {
                    proof {
                        let i = choose|i: int|
                            0 <= i < visited@.len() && (#[trigger] visited@[i])@ == tname@;
                        assert(queue@[i].name@ == tname@);
                        assert(queue@[i].path@.len() <= cur_path@.len() as int + 1);
                        assert(qdisc(queue@, tname@, cur_path@.len() as int + 1));
                    }
                }
                if !already {
                    if type_map.get(tname.as_str()).is_some() {
                        proof {
                            assert(visited@[0]@ == start);
                            assert(tname@ != start);
                            assert(edge(*type_map, cur_name@, fs@[k as int].name@, tname@)) by {
                                reveal(edge);
                            }
                            lemma_extend_path(
                                *type_map,
                                start,
                                cur_name@,
                                tname@,
                                cur_path@,
                                TypeField {
                                    ty_name: *cur_name,
                                    field_name: Some(fs@[k as int].name),
                                },
                            );
                        }
                        visited.push(tname.clone());
                        let mut p2 = clone_path(cur_path);
                        p2.push(
                            TypeField {
                                ty_name: cur_name.clone(),
                                field_name: Some(fs[k].name.clone()),
                            },
                        );
                        queue.push(Discovered { name: tname.clone(), path: p2 });
                        proof {
                            assert(queue@[queue@.len() - 1].path@.len() == cur_path@.len() as int + 1);
                            assert forall|k2: int, b: Seq<char>|
                                0 <= k2 < k + 1 && #[trigger] field_links(fs@[k2], b)
                                    && type_map.contains_name(b) implies name_in(visited@, b)
                                && qdisc(queue@, b, cur_path@.len() as int + 1) by {
                                if k2 < k {
                                    assert(name_in(vpre, b));
                                    let i = choose|i: int|
                                        0 <= i < vpre.len() && (#[trigger] vpre[i])@ == b;
                                    assert(visited@[i] == vpre[i]);
                                    assert(visited@[i]@ == b);
                                    assert(qdisc(qpre, b, cur_path@.len() as int + 1));
                                    let i2 = choose|i2: int|
                                        0 <= i2 < qpre.len() && (#[trigger] qpre[i2]).name@ == b
                                            && qpre[i2].path@.len() <= cur_path@.len() as int + 1;
                                    assert(queue@[i2] == qpre[i2]);
                                } else {
                                    assert(b == deep.name.unwrap()@);
                                    assert(visited@[visited@.len() - 1]@ == tname@);
                                    assert(queue@[queue@.len() - 1].name@ == tname@);
                                }
                            }
                        }
                    }
                }
            }
        }
        k += 1;
    }
    proof {
        lemma_distinct_names_bound(type_map.types@, visited@);
        assert forall|fname: Seq<char>, b: Seq<char>|
            #[trigger] edge(*type_map, cur_name@, fname, b) && type_map.contains_name(b)
                implies name_in(visited@, b) && qdisc(queue@, b, cur_path@.len() as int + 1) by {
            reveal(edge);
            let k2 = choose|k2: int|
                0 <= k2 < fs@.len() && (#[trigger] fs@[k2]).name@ == fname && field_links(
                    fs@[k2],
                    b,
                );
            assert(field_links(fs@[k2], b));
        }
    }
}

/// Processing one more queue entry keeps the processed part free of the
/// end type and closed under in-map edges.
proof fn lemma_step_transfer(
    tm: TypeMap,
    endn: Seq<char>,
    head: int,
    v0: Seq<String>,
    q0: Seq<Discovered>,
    v1: Seq<String>,
    q1: Seq<Discovered>,
    cur: Seq<char>,
)
    requires
        0 <= head < q0.len(),
        q0[head].name@ == cur,
        cur != endn,
        forall|i: int| 0 <= i < q0.len() ==> q1[i] == q0[i],
        q1.len() >= q0.len(),
        forall|b: Seq<char>| #[trigger] name_in(v0, b) ==> name_in(v1, b),
        forall|fname: Seq<char>, b: Seq<char>|
            #[trigger] edge(tm, cur, fname, b) && tm.contains_name(b) ==> name_in(v1, b),
        forall|j: int| 0 <= j < head ==> (#[trigger] q0[j]).name@ != endn,
        forall|j: int, fname: Seq<char>, b: Seq<char>|
            0 <= j < head && #[trigger] edge(tm, q0[j].name@, fname, b) && tm.contains_name(b)
                ==> name_in(v0, b),
    ensures
        forall|j: int| 0 <= j < head + 1 ==> (#[trigger] q1[j]).name@ != endn,
        forall|j: int, fname: Seq<char>, b: Seq<char>|
            0 <= j < head + 1 && #[trigger] edge(tm, q1[j].name@, fname, b) && tm.contains_name(b)
                ==> name_in(v1, b),
{
    assert forall|j: int| 0 <= j < head + 1 implies (#[trigger] q1[j]).name@ != endn by {
        assert(q1[j] == q0[j]);
    }
    assert forall|j: int, fname: Seq<char>, b: Seq<char>|
        0 <= j < head + 1 && #[trigger] edge(tm, q1[j].name@, fname, b) && tm.contains_name(b)
            implies name_in(v1, b) by {
        assert(q1[j] == q0[j]);
        if j < head {
            assert(edge(tm, q0[j].name@, fname, b));
            assert(name_in(v0, b));
        } else {
            assert(q0[j].name@ == cur);
            assert(edge(tm, cur, fname, b));
        }
    }
}

/// Breadth-first search for a chain of object-valued fields from
/// `start_type` to `end_type`.
///
/// When the two names are equal the result is the single synthetic entry
/// `[start_type]` with no field, whatever the map holds.  Otherwise the
/// result is a valid chain when one exists and empty exactly when none
/// does.  Each type is expanded at most once, so the search terminates on
/// cyclic schemas.
#[verifier::rlimit(100)]
pub fn search(start_type: &str, end_type: &str, type_map: &TypeMap) -> (r: Vec<TypeField>)
    ensures
        start_type@ == end_type@ ==> r@.len() == 1 && r@[0].ty_name@ == start_type@
            && r@[0].field_name is None,
        start_type@ != end_type@ && r@.len() > 0 ==> valid_path(
            *type_map,
            start_type@,
            end_type@,
            r@,
        ),
        start_type@ != end_type@ && r@.len() == 0 ==> !has_path(*type_map, start_type@, end_type@),
        start_type@ != end_type@ && r@.len() > 0 ==> forall|p: Seq<TypeField>|
            #[trigger] valid_path(*type_map, start_type@, end_type@, p) ==> r@.len() <= p.len(),
{
    if str_eq(start_type, end_type) {
        let mut r: Vec<TypeField> = Vec::new();
        r.push(TypeField::new(start_type, None));
        return r;
    }
    if type_map.get(start_type).is_none() {
        proof {
            if has_path(*type_map, start_type@, end_type@) {
                reveal(valid_path);
                reveal(edge);
                let p = choose|p: Seq<TypeField>| valid_path(*type_map, start_type@, end_type@, p);
                assert(edge(
                    *type_map,
                    p[0].ty_name@,
                    p[0].field_name.unwrap()@,
                    path_next(p, 0, end_type@),
                ));
            }
        }
        return Vec::new();
    }
    let mut visited: Vec<String> = Vec::new();
    let mut queue: Vec<Discovered> = Vec::new();
    visited.push(start_type.to_owned());
    queue.push(Discovered { name: start_type.to_owned(), path: Vec::new() });
    let mut head: usize = 0;
    proof {
        lemma_distinct_names_bound(type_map.types@, visited@);
    }
    while head < queue.len()
        invariant
            bfs_inv(*type_map, start_type@, visited@, queue@),
            type_map.contains_name(start_type@),
            start_type@ != end_type@,
            head <= queue@.len(),
            visited@.len() <= type_map.types@.len(),
            forall|j: int| 0 <= j < head ==> (#[trigger] queue@[j]).name@ != end_type@,
            forall|j: int, fname: Seq<char>, b: Seq<char>|
                0 <= j < head && #[trigger] edge(*type_map, queue@[j].name@, fname, b)
                    && type_map.contains_name(b) ==> name_in(visited@, b),
            sorted_q(queue@),
            dist_closed(*type_map, queue@, head as int),
            head < queue@.len() ==> frontier_bound(
                queue@,
                queue@[head as int].path@.len() as int,
            ),
        decreases
            type_map.types@.len() - visited@.len(),
            queue@.len() - head,
    {
        let cur_name = queue[head].name.clone();
        let cur_path = clone_path(&queue[head].path);
        proof {
            assert(stored_ok(
                *type_map,
                start_type@,
                queue@[head as int].name@,
                queue@[head as int].path@,
            ));
        }
        if str_eq(cur_name.as_str(), end_type) {
            proof {
                assert(cur_path@.len() > 0) by {
                    reveal(valid_path);
                }
                assert(queue@[0].path@.len() == 0);
                assert forall|p: Seq<TypeField>|
                    #[trigger] valid_path(*type_map, start_type@, end_type@, p)
                        implies cur_path@.len() <= p.len() by {
                    lemma_min_dist(
                        *type_map,
                        start_type@,
                        end_type@,
                        p,
                        queue@,
                        head as int,
                        p.len() as int,
                    );
                    assert(node_at(p, p.len() as int, end_type@) == end_type@);
                    if qcut(queue@, head as int, p, end_type@, p.len() as int) {
                        let (m2, i) = choose|m2: int, i: int|
                            #![trigger node_at(p, m2, end_type@), queue@[i]]
                            0 <= m2 <= p.len() && head <= i < queue@.len() && queue@[i].name@
                                == node_at(p, m2, end_type@) && queue@[i].path@.len() <= m2;
                        assert(queue@[head as int].path@.len() <= queue@[i].path@.len());
                    } else {
                        let i = choose|i: int|
                            0 <= i < queue@.len() && (#[trigger] queue@[i]).name@ == end_type@
                                && queue@[i].path@.len() <= p.len();
                        assert(visited@[i]@ == end_type@);
                        assert(visited@[head as int]@ == end_type@);
                        assert(i == head as int);
                    }
                }
            }
            return cur_path;
        }
        let ghost v0 = visited@;
        let ghost q0 = queue@;
        expand(
            type_map,
            &cur_name,
            &cur_path,
            &mut visited,
            &mut queue,
            Ghost(start_type@),
        );
        proof {
            lemma_step_transfer(
                *type_map,
                end_type@,
                head as int,
                v0,
                q0,
                visited@,
                queue@,
                cur_name@,
            );
            lemma_dist_transfer(
                *type_map,
                head as int,
                cur_path@.len() as int,
                q0,
                queue@,
                cur_name@,
            );
        }
        head += 1;
    }
    proof {
        assert(name_in(visited@, start_type@)) by {
            assert(visited@[0]@ == queue@[0].name@);
        }
        if has_path(*type_map, start_type@, end_type@) {
            let p = choose|p: Seq<TypeField>| valid_path(*type_map, start_type@, end_type@, p);
            assert forall|a: Seq<char>, f: Seq<char>, b: Seq<char>|
                name_in(visited@, a) && #[trigger] edge(*type_map, a, f, b)
                    && type_map.contains_name(b) implies name_in(visited@, b) by {
                let i = choose|i: int| 0 <= i < visited@.len() && (#[trigger] visited@[i])@ == a;
                assert(queue@[i].name@ == a);
                assert(edge(*type_map, queue@[i].name@, f, b));
            }
            lemma_path_stays_inside(*type_map, start_type@, end_type@, p, visited@);
            let i = choose|i: int| 0 <= i < visited@.len() && (#[trigger] visited@[i])@ == end_type@;
            assert(queue@[i].name@ == end_type@);
            assert(false);
        }
    }
    Vec::new()
}


/// The fields of the type `root` resolves to; empty when the type is
/// absent or has none.
pub open spec fn root_fields(tm: TypeMap, root: Seq<char>) -> Seq<Field> {
    match tm.spec_get(root).fields {
        Some(fs) => fs@,
        None => Seq::empty(),
    }
}

/// Searching from `f`'s deepest type name can produce a chain to `endn`:
/// the names are equal (the degenerate self path) or a chain exists.
pub open spec fn field_reaches(tm: TypeMap, f: Field, endn: Seq<char>) -> bool {
    f.spec_type_name() == endn || has_path(tm, f.spec_type_name(), endn)
}

/// Some field declared on `root` reaches `endn`.
pub open spec fn root_reaches(tm: TypeMap, root: Seq<char>, endn: Seq<char>) -> bool {
    tm.contains_name(root) && exists|k: int|
        0 <= k < root_fields(tm, root).len() && field_reaches(
            tm,
            #[trigger] root_fields(tm, root)[k],
            endn,
        )
}

/// The fields among the first `n` of `fs` that reach `endn`, in
/// declaration order.
pub open spec fn reaching_fields(tm: TypeMap, fs: Seq<Field>, endn: Seq<char>, n: int) -> Seq<
    Field,
>
    decreases n,
{
    if n <= 0 {
        Seq::empty()
    } else if field_reaches(tm, fs[n - 1], endn) {
        reaching_fields(tm, fs, endn, n - 1).push(fs[n - 1])
    } else {
        reaching_fields(tm, fs, endn, n - 1)
    }
}

/// The fields of `root` that reach `endn`, in declaration order; empty when
/// `root` is absent from the map.
pub open spec fn expected_fields(tm: TypeMap, root: Seq<char>, endn: Seq<char>) -> Seq<Field> {
    if tm.contains_name(root) {
        reaching_fields(tm, root_fields(tm, root), endn, root_fields(tm, root).len() as int)
    } else {
        Seq::empty()
    }
}

/// A field among the first `n` reaches `endn` exactly when the reaching
/// subsequence is non-empty.
proof fn lemma_reaching_nonempty(tm: TypeMap, fs: Seq<Field>, endn: Seq<char>, n: int)
    ensures
        (exists|k: int| 0 <= k < n && field_reaches(tm, #[trigger] fs[k], endn))
            <==> reaching_fields(tm, fs, endn, n).len() > 0,
    decreases n,
{
    if n <= 0 {
    } else {
        lemma_reaching_nonempty(tm, fs, endn, n - 1);
        if !field_reaches(tm, fs[n - 1], endn) {
            if exists|k: int| 0 <= k < n && field_reaches(tm, #[trigger] fs[k], endn) {
                let k = choose|k: int| 0 <= k < n && field_reaches(tm, #[trigger] fs[k], endn);
                assert(k < n - 1);
            }
        }
    }
}

/// One result of a root search, exactly: the synthetic hop names the root
/// and the reaching field `f`, and the rest is the shortest chain from
/// `f`'s deepest type to `endn`.
pub open spec fn result_entry_ok(
    tm: TypeMap,
    root: Seq<char>,
    endn: Seq<char>,
    f: Field,
    p: Seq<TypeField>,
) -> bool {
    &&& p.len() >= 2
    &&& p[0].ty_name@ == root
    &&& p[0].field_name is Some
    &&& p[0].field_name.unwrap()@ == f.name@
    &&& tail_ok(tm, f.spec_type_name(), endn, p.subrange(1, p.len() as int))
}

/// The part of a rooted result after the initiating hop: the degenerate
/// self entry when the root field lands on `endn` itself, otherwise a
/// valid chain that no valid chain undercuts in length.
pub open spec fn tail_ok(tm: TypeMap, t: Seq<char>, endn: Seq<char>, tail: Seq<TypeField>) -> bool {
    if t == endn {
        tail.len() == 1 && tail[0].ty_name@ == t && tail[0].field_name is None
    } else {
        valid_path(tm, t, endn, tail) && (forall|q: Seq<TypeField>|
            #[trigger] valid_path(tm, t, endn, q) ==> tail.len() <= q.len())
    }
}

/// A full result of a root search: the synthetic first hop names `root`
/// and one of its fields, and the rest is a chain from that field's
/// deepest type to `endn`.
pub open spec fn rooted_path(tm: TypeMap, root: Seq<char>, endn: Seq<char>, p: Seq<TypeField>) -> bool {
    &&& p.len() >= 2
    &&& tm.contains_name(root)
    &&& p[0].ty_name@ == root
    &&& p[0].field_name is Some
    &&& exists|k: int|
        0 <= k < root_fields(tm, root).len() && (#[trigger] root_fields(tm, root)[k]).name@ == p[0].field_name.unwrap()@
            && root_fields(tm, root)[k].resolvable() && tail_ok(
            tm,
            root_fields(tm, root)[k].spec_type_name(),
            endn,
            p.subrange(1, p.len() as int),
        )
}

/// Runs the search once per field declared on `start_type`, in declaration
/// order: each chain found to `end_type`'s type is returned with the
/// initiating `(start_type, field)` hop prefixed.  The output holds exactly
/// one entry per reaching field, in declaration order, each a shortest
/// chain behind its initiating hop.
#[verifier::rlimit(100)]
pub fn run_search(start_type: &str, end_type: &TypeField, type_map: &TypeMap) -> (r: Vec<
    Vec<TypeField>,
>)
    requires
        type_map.resolvable(start_type@),
    ensures
        forall|i: int|
            0 <= i < r@.len() ==> rooted_path(
                *type_map,
                start_type@,
                end_type.ty_name@,
                (#[trigger] r@[i])@,
            ),
        r@.len() > 0 <==> root_reaches(*type_map, start_type@, end_type.ty_name@),
        r@.len() == expected_fields(*type_map, start_type@, end_type.ty_name@).len(),
        forall|i: int|
            0 <= i < r@.len() ==> result_entry_ok(
                *type_map,
                start_type@,
                end_type.ty_name@,
                expected_fields(*type_map, start_type@, end_type.ty_name@)[i],
                (#[trigger] r@[i])@,
            ),
{
    let ghost endn = end_type.ty_name@;
    let ot = type_map.get(start_type);
    if ot.is_none() {
        return Vec::new();
    }
    let t = ot.unwrap();
    if t.fields.is_none() {
        proof {
            assert(root_fields(*type_map, start_type@) =~= Seq::<Field>::empty());
        }
        return Vec::new();
    }
    let fs = t.fields.as_ref().unwrap();
    proof {
        assert(root_fields(*type_map, start_type@) == fs@);
    }
    let mut result: Vec<Vec<TypeField>> = Vec::new();
    let mut k: usize = 0;
    while k < fs.len()
        invariant
            type_map.resolvable(start_type@),
            type_map.contains_name(start_type@),
            *t == type_map.spec_get(start_type@),
            t.fields is Some,
            fs@ == t.fields.unwrap()@,
            root_fields(*type_map, start_type@) == fs@,
            endn == end_type.ty_name@,
            k <= fs@.len(),
            forall|i: int|
                0 <= i < result@.len() ==> rooted_path(
                    *type_map,
                    start_type@,
                    endn,
                    (#[trigger] result@[i])@,
                ),
            result@.len() > 0 ==> root_reaches(*type_map, start_type@, endn),
            result@.len() == reaching_fields(*type_map, fs@, endn, k as int).len(),
            forall|i: int|
                0 <= i < result@.len() ==> result_entry_ok(
                    *type_map,
                    start_type@,
                    endn,
                    reaching_fields(*type_map, fs@, endn, k as int)[i],
                    (#[trigger] result@[i])@,
                ),
        decreases fs@.len() - k,
    {
        proof {
            assert(fs@[k as int].resolvable());
        }
        let tn = fs[k].get_type_name();
        let mut path = search(tn.as_str(), end_type.ty_name.as_str(), type_map);
        if path.len() > 0 {
            let ghost p0 = path@;
            path.insert(0, TypeField::new(start_type, Some(fs[k].name.clone())));
            let ghost p1 = path@;
            let ghost res0 = result@;
            result.push(path);
            proof {
                assert(p1.subrange(1, p1.len() as int) =~= p0);
                if tn@ == endn {
                    assert(tail_ok(*type_map, fs@[k as int].spec_type_name(), endn, p0));
                } else {
                    assert(has_path(*type_map, tn@, endn)) by {
                        assert(valid_path(*type_map, tn@, endn, p0));
                    }
                    assert(tail_ok(*type_map, fs@[k as int].spec_type_name(), endn, p0));
                }
                assert(field_reaches(*type_map, fs@[k as int], endn));
                assert(rooted_path(*type_map, start_type@, endn, p1));
                assert(root_reaches(*type_map, start_type@, endn));
                assert(reaching_fields(*type_map, fs@, endn, k + 1) == reaching_fields(
                    *type_map,
                    fs@,
                    endn,
                    k as int,
                ).push(fs@[k as int]));
                assert(result_entry_ok(*type_map, start_type@, endn, fs@[k as int], p1));
                assert forall|i: int|
                    0 <= i < result@.len() implies result_entry_ok(
                    *type_map,
                    start_type@,
                    endn,
                    reaching_fields(*type_map, fs@, endn, k + 1)[i],
                    (#[trigger] result@[i])@,
                ) by {
                    if i < res0.len() {
                        assert(result@[i] == res0[i]);
                        assert(reaching_fields(*type_map, fs@, endn, k + 1)[i]
                            == reaching_fields(*type_map, fs@, endn, k as int)[i]);
                    } else {
                        assert(result@[i]@ == p1);
                    }
                }
            }
        } else {
            proof {
                assert(tn@ != endn);
                assert(!has_path(*type_map, tn@, endn));
                assert(!field_reaches(*type_map, fs@[k as int], endn));
                assert(reaching_fields(*type_map, fs@, endn, k + 1) == reaching_fields(
                    *type_map,
                    fs@,
                    endn,
                    k as int,
                ));
            }
        }
        k += 1;
    }
    proof {
        assert(expected_fields(*type_map, start_type@, endn) == reaching_fields(
            *type_map,
            fs@,
            endn,
            fs@.len() as int,
        ));
        lemma_reaching_nonempty(*type_map, fs@, endn, fs@.len() as int);
    }
    result
}

/// A path found for a search target: the target itself, and the chain of
/// hops from a root operation type to it.
pub struct PathResult {
    pub target: TypeField,
    pub path: Vec<TypeField>,
}

/// A rooted chain to `endn` from either root operation type.
pub open spec fn from_some_root(tm: TypeMap, endn: Seq<char>, p: Seq<TypeField>) -> bool {
    rooted_path(tm, "Query"@, endn, p) || rooted_path(tm, "Mutation"@, endn, p)
}

/// Some root operation type reaches `endn`.
pub open spec fn some_root_reaches(tm: TypeMap, endn: Seq<char>) -> bool {
    root_reaches(tm, "Query"@, endn) || root_reaches(tm, "Mutation"@, endn)
}

/// What one target contributes, exactly: one record per reaching Query
/// field, in declaration order, then one per reaching Mutation field, each
/// bearing the target and a shortest chain behind the initiating hop.
pub open spec fn appended_block_ok(
    tm: TypeMap,
    target: TypeField,
    out0: Seq<PathResult>,
    out1: Seq<PathResult>,
) -> bool {
    &&& out1.len() == out0.len() + expected_fields(tm, "Query"@, target.ty_name@).len()
        + expected_fields(tm, "Mutation"@, target.ty_name@).len()
    &&& forall|i: int|
        0 <= i < expected_fields(tm, "Query"@, target.ty_name@).len() ==> (#[trigger] out1[out0.len()
            + i]).target == target && result_entry_ok(
            tm,
            "Query"@,
            target.ty_name@,
            expected_fields(tm, "Query"@, target.ty_name@)[i],
            out1[out0.len() + i].path@,
        )
    &&& forall|i: int|
        0 <= i < expected_fields(tm, "Mutation"@, target.ty_name@).len() ==> (#[trigger] out1[out0.len()
            + expected_fields(tm, "Query"@, target.ty_name@).len() + i]).target == target
            && result_entry_ok(
            tm,
            "Mutation"@,
            target.ty_name@,
            expected_fields(tm, "Mutation"@, target.ty_name@)[i],
            out1[out0.len() + expected_fields(tm, "Query"@, target.ty_name@).len() + i].path@,
        )
}

/// Runs the root search from "Query" and then from "Mutation" and appends
/// each found chain to `out` under `target`.
#[verifier::rlimit(100)]
fn run_roots(out: &mut Vec<PathResult>, target: &TypeField, type_map: &TypeMap)
    requires
        type_map.resolvable("Query"@),
        type_map.resolvable("Mutation"@),
    ensures
        final(out)@.len() >= old(out)@.len(),
        forall|i: int| 0 <= i < old(out)@.len() ==> final(out)@[i] == old(out)@[i],
        forall|i: int|
            old(out)@.len() <= i < final(out)@.len() ==> (#[trigger] final(out)@[i]).target
                == *target && from_some_root(*type_map, target.ty_name@, final(out)@[i].path@),
        final(out)@.len() > old(out)@.len() <==> some_root_reaches(*type_map, target.ty_name@),
        appended_block_ok(*type_map, *target, old(out)@, final(out)@),
{
    let ghost tn = target.ty_name@;
    let ghost qexp = expected_fields(*type_map, "Query"@, tn);
    let ghost mexp = expected_fields(*type_map, "Mutation"@, tn);
    let mut qres = run_search("Query", target, type_map);
    let ghost qorig = qres@;
    let ghost had_q = qres@.len() > 0;
    while qres.len() > 0
        invariant
            qorig.len() == qexp.len(),
            qexp == expected_fields(*type_map, "Query"@, tn),
            tn == target.ty_name@,
            qres@.len() <= qorig.len(),
            qres@ == qorig.subrange(qorig.len() - qres@.len(), qorig.len() as int),
            out@.len() == old(out)@.len() + qorig.len() - qres@.len(),
            forall|i: int|
                0 <= i < qorig.len() ==> result_entry_ok(
                    *type_map,
                    "Query"@,
                    tn,
                    qexp[i],
                    (#[trigger] qorig[i])@,
                ),
            forall|i: int|
                0 <= i < qorig.len() ==> rooted_path(*type_map, "Query"@, tn, (#[trigger] qorig[i])@),
            had_q ==> out@.len() > old(out)@.len() || qres@.len() > 0,
            !had_q ==> out@.len() == old(out)@.len() && qres@.len() == 0,
            forall|i: int| 0 <= i < old(out)@.len() ==> out@[i] == old(out)@[i],
            forall|i: int|
                old(out)@.len() <= i < out@.len() ==> (#[trigger] out@[i]).target == *target
                    && out@[i].path@ == qorig[i - old(out)@.len()]@,
        decreases qres@.len(),
    {
        let ghost done: int = qorig.len() - qres@.len();
        let ghost qpre = qres@;
        let p = qres.remove(0);
        proof {
            assert(qpre == qorig.subrange(done, qorig.len() as int));
            assert(qorig.subrange(done, qorig.len() as int)[0] == qorig[done + 0]);
            assert(p == qpre[0]);
            assert(p == qorig[done]);
            assert(qres@ == qpre.remove(0));
            qpre.remove_ensures(0);
            assert forall|x: int|
                0 <= x < qres@.len() implies qres@[x] == qorig.subrange(
                done + 1,
                qorig.len() as int,
            )[x] by {
                assert(qpre.remove(0)[x] == qpre[x + 1]);
                assert(qorig.subrange(done, qorig.len() as int)[x + 1] == qorig[done + x + 1]);
                assert(qorig.subrange(done + 1, qorig.len() as int)[x] == qorig[done + 1 + x]);
            }
            assert(qres@ =~= qorig.subrange(done + 1, qorig.len() as int));
        }
        out.push(PathResult { target: target.duplicate(), path: p });
    }
    let mut mres = run_search("Mutation", target, type_map);
    let ghost morig = mres@;
    let ghost had_m = mres@.len() > 0;
    let ghost mid_len = out@.len();
    while mres.len() > 0
        invariant
            morig.len() == mexp.len(),
            mexp == expected_fields(*type_map, "Mutation"@, tn),
            qexp == expected_fields(*type_map, "Query"@, tn),
            tn == target.ty_name@,
            mid_len == old(out)@.len() + qexp.len(),
            mres@.len() <= morig.len(),
            mres@ == morig.subrange(morig.len() - mres@.len(), morig.len() as int),
            out@.len() == mid_len + morig.len() - mres@.len(),
            forall|i: int|
                0 <= i < morig.len() ==> result_entry_ok(
                    *type_map,
                    "Mutation"@,
                    tn,
                    mexp[i],
                    (#[trigger] morig[i])@,
                ),
            forall|i: int|
                0 <= i < morig.len() ==> rooted_path(*type_map, "Mutation"@, tn, (#[trigger] morig[i])@),
            had_m ==> out@.len() > mid_len || mres@.len() > 0,
            !had_m ==> out@.len() == mid_len && mres@.len() == 0,
            had_q ==> mid_len > old(out)@.len(),
            !had_q ==> mid_len == old(out)@.len(),
            forall|i: int| 0 <= i < old(out)@.len() ==> out@[i] == old(out)@[i],
            forall|i: int|
                old(out)@.len() <= i < mid_len ==> (#[trigger] out@[i]).target == *target
                    && out@[i].path@ == qorig[i - old(out)@.len()]@,
            forall|i: int|
                mid_len <= i < out@.len() ==> (#[trigger] out@[i]).target == *target
                    && out@[i].path@ == morig[i - mid_len]@,
        decreases mres@.len(),
    {
        let ghost done: int = morig.len() - mres@.len();
        let ghost mpre = mres@;
        let p = mres.remove(0);
        proof {
            assert(mpre == morig.subrange(done, morig.len() as int));
            assert(morig.subrange(done, morig.len() as int)[0] == morig[done + 0]);
            assert(p == mpre[0]);
            assert(p == morig[done]);
            assert(mres@ == mpre.remove(0));
            mpre.remove_ensures(0);
            assert forall|x: int|
                0 <= x < mres@.len() implies mres@[x] == morig.subrange(
                done + 1,
                morig.len() as int,
            )[x] by {
                assert(mpre.remove(0)[x] == mpre[x + 1]);
                assert(morig.subrange(done, morig.len() as int)[x + 1] == morig[done + x + 1]);
                assert(morig.subrange(done + 1, morig.len() as int)[x] == morig[done + 1 + x]);
            }
            assert(mres@ =~= morig.subrange(done + 1, morig.len() as int));
        }
        out.push(PathResult { target: target.duplicate(), path: p });
    }
}

/// The view of an optional string.
pub open spec fn opt_view(o: Option<String>) -> Option<Seq<char>> {
    match o {
        Some(s) => Some(s@),
        None => None,
    }
}

/// One record a search is expected to emit: its target, the root the chain
/// starts from, and the root field taken first.
pub ghost struct ExpRec {
    pub target_ty: Seq<char>,
    pub target_field: Option<Seq<char>>,
    pub root: Seq<char>,
    pub field: Field,
}

/// The records one candidate target contributes: its reaching Query fields
/// in declaration order, then its reaching Mutation fields.
pub open spec fn block_recs(tm: TypeMap, n: Seq<char>, tf: Option<Seq<char>>) -> Seq<ExpRec> {
    expected_fields(tm, "Query"@, n).map_values(
        |f: Field| ExpRec { target_ty: n, target_field: tf, root: "Query"@, field: f },
    ) + expected_fields(tm, "Mutation"@, n).map_values(
        |f: Field| ExpRec { target_ty: n, target_field: tf, root: "Mutation"@, field: f },
    )
}

/// An emitted record matches an expected one: same target, and the path is
/// the expected root's initiating hop followed by a shortest chain.
pub open spec fn rec_matches(tm: TypeMap, e: ExpRec, r: PathResult) -> bool {
    r.target.ty_name@ == e.target_ty && opt_view(r.target.field_name) == e.target_field
        && result_entry_ok(tm, e.root, e.target_ty, e.field, r.path@)
}

/// Position `j` holds a surviving type-search candidate.
pub open spec fn type_cand_at(tm: TypeMap, q: Seq<char>, show_relay: bool, j: int) -> bool {
    tm.is_entry(j) && crate::text::seq_contains_sub(tm.types@[j].name@, q) && (show_relay
        || !tm.types@[j].spec_is_relay())
}

/// The records a containment type search is expected to emit for the first
/// `j` positions, candidates in declaration order.
pub open spec fn type_recs_upto(
    tm: TypeMap,
    q: Seq<char>,
    show_relay: bool,
    j: int,
) -> Seq<ExpRec>
    decreases j,
{
    if j <= 0 {
        Seq::empty()
    } else if type_cand_at(tm, q, show_relay, j - 1) {
        type_recs_upto(tm, q, show_relay, j - 1) + block_recs(tm, tm.types@[j - 1].name@, None)
    } else {
        type_recs_upto(tm, q, show_relay, j - 1)
    }
}

/// The records an exact type search is expected to emit: the one queried
/// name's block, when it is present and shown.
pub open spec fn exact_type_recs(tm: TypeMap, q: Seq<char>, show_relay: bool) -> Seq<ExpRec> {
    if tm.contains_name(q) && (show_relay || !tm.spec_get(q).spec_is_relay()) {
        block_recs(tm, q, None)
    } else {
        Seq::empty()
    }
}

/// Spells the two halves of a candidate block out, entry by entry.
proof fn lemma_block_recs_index(tm: TypeMap, n: Seq<char>, tf: Option<Seq<char>>)
    ensures
        block_recs(tm, n, tf).len() == expected_fields(tm, "Query"@, n).len() + expected_fields(
            tm,
            "Mutation"@,
            n,
        ).len(),
        forall|i: int|
            0 <= i < expected_fields(tm, "Query"@, n).len() ==> (#[trigger] block_recs(tm, n, tf)[i])
                == (ExpRec {
                target_ty: n,
                target_field: tf,
                root: "Query"@,
                field: expected_fields(tm, "Query"@, n)[i],
            }),
        forall|i: int|
            expected_fields(tm, "Query"@, n).len() <= i < block_recs(tm, n, tf).len() ==> (
            #[trigger] block_recs(tm, n, tf)[i]) == (ExpRec {
                target_ty: n,
                target_field: tf,
                root: "Mutation"@,
                field: expected_fields(tm, "Mutation"@, n)[i - expected_fields(
                    tm,
                    "Query"@,
                    n,
                ).len()],
            }),
{
}

/// Turns the appended block of `run_roots` into record-by-record matches
/// against the candidate's expected block.
proof fn lemma_block_matches(
    tm: TypeMap,
    target: TypeField,
    tf: Option<Seq<char>>,
    out0: Seq<PathResult>,
    out1: Seq<PathResult>,
)
    requires
        appended_block_ok(tm, target, out0, out1),
        opt_view(target.field_name) == tf,
    ensures
        out1.len() == out0.len() + block_recs(tm, target.ty_name@, tf).len(),
        forall|i: int|
            0 <= i < block_recs(tm, target.ty_name@, tf).len() ==> rec_matches(
                tm,
                block_recs(tm, target.ty_name@, tf)[i],
                #[trigger] out1[out0.len() + i],
            ),
{
    let n = target.ty_name@;
    lemma_block_recs_index(tm, n, tf);
    let qlen = expected_fields(tm, "Query"@, n).len() as int;
    assert forall|i: int|
        0 <= i < block_recs(tm, n, tf).len() implies rec_matches(
        tm,
        block_recs(tm, n, tf)[i],
        #[trigger] out1[out0.len() + i],
    ) by {
        if i < qlen {
            assert(out1[out0.len() + i].target == target);
        } else {
            assert(out1[out0.len() + qlen + (i - qlen)].target == target);
            assert(result_entry_ok(
                tm,
                "Mutation"@,
                n,
                expected_fields(tm, "Mutation"@, n)[i - qlen],
                out1[out0.len() + qlen + (i - qlen)].path@,
            ));
        }
    }
}

/// A name passes the type-candidate filter: present in the map, matching
/// the query exactly or by containment, and not relay unless relay types
/// are shown.
pub open spec fn candidate_ok(
    tm: TypeMap,
    q: Seq<char>,
    containing: bool,
    show_relay: bool,
    n: Seq<char>,
) -> bool {
    &&& tm.contains_name(n)
    &&& if containing {
        crate::text::seq_contains_sub(n, q)
    } else {
        n == q
    }
    &&& show_relay || !tm.spec_get(n).spec_is_relay()
}

/// Searches for types by name, from both root operation types.  Candidates
/// are the map's entries in declaration order (or the single queried name
/// when not matching by containment); absent and, unless shown, relay
/// types are skipped.  The output is exactly the concatenation, per
/// surviving candidate in that order, of the Query results then the
/// Mutation results.
#[verifier::rlimit(100)]
pub fn run_search_for_type(
    end_type: &str,
    containing: bool,
    show_relay: bool,
    type_map: &TypeMap,
) -> (r: Vec<PathResult>)
    requires
        type_map.resolvable("Query"@),
        type_map.resolvable("Mutation"@),
    ensures
        forall|i: int|
            0 <= i < r@.len() ==> candidate_ok(
                *type_map,
                end_type@,
                containing,
                show_relay,
                (#[trigger] r@[i]).target.ty_name@,
            ) && r@[i].target.field_name is None && from_some_root(
                *type_map,
                r@[i].target.ty_name@,
                r@[i].path@,
            ),
        !containing ==> (candidate_ok(*type_map, end_type@, false, show_relay, end_type@)
            && some_root_reaches(*type_map, end_type@) ==> r@.len() > 0),
        containing ==> forall|j: int|
            type_map.is_entry(j) && crate::text::seq_contains_sub(
                (#[trigger] type_map.types@[j]).name@,
                end_type@,
            ) && (show_relay || !type_map.types@[j].spec_is_relay()) && some_root_reaches(
                *type_map,
                type_map.types@[j].name@,
            ) ==> exists|i: int|
                0 <= i < r@.len() && (#[trigger] r@[i]).target.ty_name@ == type_map.types@[j].name@,
        containing ==> r@.len() == type_recs_upto(
            *type_map,
            end_type@,
            show_relay,
            type_map.types@.len() as int,
        ).len(),
        containing ==> forall|i: int|
            0 <= i < r@.len() ==> rec_matches(
                *type_map,
                type_recs_upto(*type_map, end_type@, show_relay, type_map.types@.len() as int)[i],
                (#[trigger] r@[i]),
            ),
        !containing ==> r@.len() == exact_type_recs(*type_map, end_type@, show_relay).len(),
        !containing ==> forall|i: int|
            0 <= i < r@.len() ==> rec_matches(
                *type_map,
                exact_type_recs(*type_map, end_type@, show_relay)[i],
                (#[trigger] r@[i]),
            ),
{
    let mut out: Vec<PathResult> = Vec::new();
    if containing {
        let mut j: usize = 0;
        while j < type_map.types.len()
            invariant
                type_map.resolvable("Query"@),
                type_map.resolvable("Mutation"@),
                j <= type_map.types@.len(),
                forall|i: int|
                    0 <= i < out@.len() ==> candidate_ok(
                        *type_map,
                        end_type@,
                        true,
                        show_relay,
                        (#[trigger] out@[i]).target.ty_name@,
                    ) && out@[i].target.field_name is None && from_some_root(
                        *type_map,
                        out@[i].target.ty_name@,
                        out@[i].path@,
                    ),
                forall|j2: int|
                    0 <= j2 < j && type_map.is_entry(j2) && crate::text::seq_contains_sub(
                        (#[trigger] type_map.types@[j2]).name@,
                        end_type@,
                    ) && (show_relay || !type_map.types@[j2].spec_is_relay())
                        && some_root_reaches(*type_map, type_map.types@[j2].name@)
                        ==> exists|i: int|
                        0 <= i < out@.len() && (#[trigger] out@[i]).target.ty_name@
                            == type_map.types@[j2].name@,
                out@.len() == type_recs_upto(*type_map, end_type@, show_relay, j as int).len(),
                forall|i: int|
                    0 <= i < out@.len() ==> rec_matches(
                        *type_map,
                        type_recs_upto(*type_map, end_type@, show_relay, j as int)[i],
                        (#[trigger] out@[i]),
                    ),
            decreases type_map.types@.len() - j,
    {
            let ghost out0 = out@;
            let ghost upto0 = type_recs_upto(*type_map, end_type@, show_relay, j as int);
            if type_map.is_entry_at(j) && str_contains(type_map.types[j].name.as_str(), end_type) {
                proof {
                    crate::schema::lemma_find_last_at(type_map.types@, type_map.types@[j as int].name@, j as int);
                }
                let keep = if show_relay {
                    true
                } else {
                    !type_map.types[j].is_relay()
                };
                if keep {
                    let target = TypeField::new(type_map.types[j].name.as_str(), None);
                    run_roots(&mut out, &target, type_map);
                    proof {
                        if some_root_reaches(*type_map, type_map.types@[j as int].name@) {
                            assert(out@[out0.len() as int].target.ty_name@
                                == type_map.types@[j as int].name@);
                        }
                        lemma_block_matches(
                            *type_map,
                            target,
                            None,
                            out0,
                            out@,
                        );
                        assert(type_cand_at(*type_map, end_type@, show_relay, j as int));
                        assert(type_recs_upto(*type_map, end_type@, show_relay, j + 1) == upto0
                            + block_recs(*type_map, type_map.types@[j as int].name@, None));
                        assert(target.ty_name@ == type_map.types@[j as int].name@);
                        assert forall|i: int|
                            0 <= i < out@.len() implies rec_matches(
                            *type_map,
                            type_recs_upto(*type_map, end_type@, show_relay, j + 1)[i],
                            (#[trigger] out@[i]),
                        ) by {
                            if i < out0.len() {
                                assert(out@[i] == out0[i]);
                                assert(type_recs_upto(*type_map, end_type@, show_relay, j + 1)[i]
                                    == upto0[i]);
                            } else {
                                assert(type_recs_upto(*type_map, end_type@, show_relay, j + 1)[i]
                                    == block_recs(
                                    *type_map,
                                    target.ty_name@,
                                    None,
                                )[i - out0.len()]);
                                assert(rec_matches(
                                    *type_map,
                                    block_recs(*type_map, target.ty_name@, None)[i - out0.len()],
                                    out@[out0.len() + (i - out0.len())],
                                ));
                            }
                        }
                    }
                } else {
                    proof {
                        assert(type_map.types@[j as int].spec_is_relay());
                        assert(!type_cand_at(*type_map, end_type@, show_relay, j as int));
                    }
                }
            } else {
                proof {
                    assert(!type_cand_at(*type_map, end_type@, show_relay, j as int));
                }
            }
            proof {
                assert forall|j2: int|
                    0 <= j2 < j + 1 && type_map.is_entry(j2) && crate::text::seq_contains_sub(
                        (#[trigger] type_map.types@[j2]).name@,
                        end_type@,
                    ) && (show_relay || !type_map.types@[j2].spec_is_relay())
                        && some_root_reaches(*type_map, type_map.types@[j2].name@)
                        implies exists|i: int|
                        0 <= i < out@.len() && (#[trigger] out@[i]).target.ty_name@
                            == type_map.types@[j2].name@ by {
                    if j2 < j {
                        let i = choose|i: int|
                            0 <= i < out0.len() && (#[trigger] out0[i]).target.ty_name@
                                == type_map.types@[j2].name@;
                        assert(out@[i].target.ty_name@ == type_map.types@[j2].name@);
                    }
                }
            }
            j += 1;
        }
    } else {
        let ot = type_map.get(end_type);
        if ot.is_some() {
            let t = ot.unwrap();
            let keep = if show_relay {
                true
            } else {
                !t.is_relay()
            };
            if keep {
                let ghost out0 = out@;
                let target = TypeField::new(end_type, None);
                run_roots(&mut out, &target, type_map);
                proof {
                    lemma_block_matches(*type_map, target, None, out0, out@);
                    assert(exact_type_recs(*type_map, end_type@, show_relay) == block_recs(
                        *type_map,
                        end_type@,
                        None,
                    ));
                    assert forall|i: int|
                        0 <= i < out@.len() implies rec_matches(
                        *type_map,
                        exact_type_recs(*type_map, end_type@, show_relay)[i],
                        (#[trigger] out@[i]),
                    ) by {
                        assert(rec_matches(
                            *type_map,
                            block_recs(*type_map, target.ty_name@, None)[i],
                            out@[out0.len() + i],
                        ));
                    }
                }
            }
        }
    }
    out
}

/// The first field of `t` matching `q` (exactly, or by containment) is
/// named `fname`.
pub open spec fn first_match(t: crate::schema::Type, q: Seq<char>, containing: bool, fname: Seq<char>) -> bool {
    t.fields is Some && exists|k: int|
        0 <= k < t.fields.unwrap()@.len() && (#[trigger] t.fields.unwrap()@[k]).name@ == fname
            && crate::schema::field_matches(t.fields.unwrap()@[k], q, containing) && (forall|j: int|
            0 <= j < k ==> !crate::schema::field_matches(t.fields.unwrap()@[j], q, containing))
}

/// A position passes the field-candidate filter: a map entry, object-
/// kinded, not relay unless shown, and with some field matching the query.
pub open spec fn field_candidate_ok(
    tm: TypeMap,
    q: Seq<char>,
    containing: bool,
    show_relay: bool,
    j: int,
) -> bool {
    &&& tm.is_entry(j)
    &&& tm.types@[j].spec_is_object()
    &&& show_relay || !tm.types@[j].spec_is_relay()
    &&& tm.types@[j].fields is Some
    &&& exists|k: int|
        0 <= k < tm.types@[j].fields.unwrap()@.len() && crate::schema::field_matches(
            #[trigger] tm.types@[j].fields.unwrap()@[k],
            q,
            containing,
        )
}

/// The position of the first field of `t` matching `q`, when one exists.
pub open spec fn first_match_at(t: crate::schema::Type, q: Seq<char>, containing: bool) -> int {
    choose|k: int|
        0 <= k < t.fields.unwrap()@.len() && crate::schema::field_matches(
            #[trigger] t.fields.unwrap()@[k],
            q,
            containing,
        ) && (forall|j: int|
            0 <= j < k ==> !crate::schema::field_matches(t.fields.unwrap()@[j], q, containing))
}

/// The first field of `t` matching `q`, when one exists.
pub open spec fn first_field_of(t: crate::schema::Type, q: Seq<char>, containing: bool) -> Field {
    t.fields.unwrap()@[first_match_at(t, q, containing)]
}

/// The records a field search is expected to emit for the first `j`
/// positions: per surviving candidate, its first matching field becomes the
/// target, with the candidate's Query block then its Mutation block.
pub open spec fn field_recs_upto(
    tm: TypeMap,
    q: Seq<char>,
    containing: bool,
    show_relay: bool,
    j: int,
) -> Seq<ExpRec>
    decreases j,
{
    if j <= 0 {
        Seq::empty()
    } else if field_candidate_ok(tm, q, containing, show_relay, j - 1) {
        field_recs_upto(tm, q, containing, show_relay, j - 1) + block_recs(
            tm,
            tm.types@[j - 1].name@,
            Some(first_field_of(tm.types@[j - 1], q, containing).name@),
        )
    } else {
        field_recs_upto(tm, q, containing, show_relay, j - 1)
    }
}

/// Searches for fields by name: every object type of the map (declaration
/// order, relay types skipped unless shown) contributes its first matching
/// field as a `(type, field)` target, searched from both root operation
/// types.  The output is exactly the concatenation, per surviving
/// candidate in that order, of the Query results then the Mutation
/// results.
#[verifier::rlimit(100)]
pub fn run_search_for_field(
    end_field: &str,
    containing: bool,
    show_relay: bool,
    type_map: &TypeMap,
) -> (r: Vec<PathResult>)
    requires
        type_map.resolvable("Query"@),
        type_map.resolvable("Mutation"@),
    ensures
        forall|i: int|
            0 <= i < r@.len() ==> exists|j: int|
                #![trigger type_map.types@[j]]
                field_candidate_ok(*type_map, end_field@, containing, show_relay, j) && (
                #[trigger] r@[i]).target.ty_name@ == type_map.types@[j].name@
                    && r@[i].target.field_name is Some && first_match(
                    type_map.types@[j],
                    end_field@,
                    containing,
                    r@[i].target.field_name.unwrap()@,
                ) && from_some_root(*type_map, r@[i].target.ty_name@, r@[i].path@),
        forall|j: int|
            field_candidate_ok(*type_map, end_field@, containing, show_relay, j)
                && some_root_reaches(*type_map, (#[trigger] type_map.types@[j]).name@)
                ==> exists|i: int|
                0 <= i < r@.len() && (#[trigger] r@[i]).target.ty_name@
                    == type_map.types@[j].name@,
        r@.len() == field_recs_upto(
            *type_map,
            end_field@,
            containing,
            show_relay,
            type_map.types@.len() as int,
        ).len(),
        forall|i: int|
            0 <= i < r@.len() ==> rec_matches(
                *type_map,
                field_recs_upto(
                    *type_map,
                    end_field@,
                    containing,
                    show_relay,
                    type_map.types@.len() as int,
                )[i],
                (#[trigger] r@[i]),
            ),
{
    let mut out: Vec<PathResult> = Vec::new();
    let mut j: usize = 0;
    while j < type_map.types.len()
        invariant
            type_map.resolvable("Query"@),
            type_map.resolvable("Mutation"@),
            j <= type_map.types@.len(),
            forall|i: int|
                0 <= i < out@.len() ==> exists|j2: int|
                    #![trigger type_map.types@[j2]]
                    field_candidate_ok(*type_map, end_field@, containing, show_relay, j2) && (
                    #[trigger] out@[i]).target.ty_name@ == type_map.types@[j2].name@
                        && out@[i].target.field_name is Some && first_match(
                        type_map.types@[j2],
                        end_field@,
                        containing,
                        out@[i].target.field_name.unwrap()@,
                    ) && from_some_root(*type_map, out@[i].target.ty_name@, out@[i].path@),
            forall|j2: int|
                0 <= j2 < j && field_candidate_ok(*type_map, end_field@, containing, show_relay, j2)
                    && some_root_reaches(*type_map, (#[trigger] type_map.types@[j2]).name@)
                    ==> exists|i: int|
                    0 <= i < out@.len() && (#[trigger] out@[i]).target.ty_name@
                        == type_map.types@[j2].name@,
            out@.len() == field_recs_upto(
                *type_map,
                end_field@,
                containing,
                show_relay,
                j as int,
            ).len(),
            forall|i: int|
                0 <= i < out@.len() ==> rec_matches(
                    *type_map,
                    field_recs_upto(*type_map, end_field@, containing, show_relay, j as int)[i],
                    (#[trigger] out@[i]),
                ),
        decreases type_map.types@.len() - j,
    {
        let ghost out0 = out@;
        let ghost upto0 = field_recs_upto(*type_map, end_field@, containing, show_relay, j as int);
        let t = &type_map.types[j];
        if type_map.is_entry_at(j) && t.is_object() {
            let keep = if show_relay {
                true
            } else {
                !t.is_relay()
            };
            if keep {
                let found = t.get_field(end_field, containing);
                if found.is_some() {
                    let f = found.unwrap();
                    let target = TypeField::new(t.name.as_str(), Some(f.name.clone()));
                    proof {
                        assert(first_match(
                            type_map.types@[j as int],
                            end_field@,
                            containing,
                            target.field_name.unwrap()@,
                        ));
                        assert(field_candidate_ok(
                            *type_map,
                            end_field@,
                            containing,
                            show_relay,
                            j as int,
                        ));
                    }
                    proof {
                        let kc = first_match_at(type_map.types@[j as int], end_field@, containing);
                        let kf = choose|k: int|
                            0 <= k < t.fields.unwrap()@.len() && (#[trigger] t.fields.unwrap()@[k]).name@
                                == target.field_name.unwrap()@ && crate::schema::field_matches(
                                t.fields.unwrap()@[k],
                                end_field@,
                                containing,
                            ) && (forall|j3: int|
                                0 <= j3 < k ==> !crate::schema::field_matches(
                                    t.fields.unwrap()@[j3],
                                    end_field@,
                                    containing,
                                ));
                        assert(crate::schema::field_matches(
                            t.fields.unwrap()@[kf],
                            end_field@,
                            containing,
                        ));
                        assert(0 <= kc < t.fields.unwrap()@.len() && crate::schema::field_matches(
                            t.fields.unwrap()@[kc],
                            end_field@,
                            containing,
                        ) && (forall|j3: int|
                            0 <= j3 < kc ==> !crate::schema::field_matches(
                                t.fields.unwrap()@[j3],
                                end_field@,
                                containing,
                            )));
                        assert(kc == kf);
                        assert(first_field_of(type_map.types@[j as int], end_field@, containing).name@
                            == target.field_name.unwrap()@);
                    }
                    run_roots(&mut out, &target, type_map);
                    proof {
                        if some_root_reaches(*type_map, type_map.types@[j as int].name@) {
                            assert(out@[out0.len() as int].target.ty_name@
                                == type_map.types@[j as int].name@);
                        }
                        lemma_block_matches(
                            *type_map,
                            target,
                            opt_view(target.field_name),
                            out0,
                            out@,
                        );
                        assert(field_recs_upto(*type_map, end_field@, containing, show_relay, j + 1)
                            == upto0 + block_recs(
                            *type_map,
                            type_map.types@[j as int].name@,
                            Some(first_field_of(type_map.types@[j as int], end_field@, containing).name@),
                        ));
                        assert(opt_view(target.field_name) == Some(
                            first_field_of(type_map.types@[j as int], end_field@, containing).name@,
                        ));
                        assert(target.ty_name@ == type_map.types@[j as int].name@);
                        assert forall|i: int|
                            0 <= i < out@.len() implies rec_matches(
                            *type_map,
                            field_recs_upto(*type_map, end_field@, containing, show_relay, j + 1)[i],
                            (#[trigger] out@[i]),
                        ) by {
                            if i < out0.len() {
                                assert(out@[i] == out0[i]);
                                assert(field_recs_upto(
                                    *type_map,
                                    end_field@,
                                    containing,
                                    show_relay,
                                    j + 1,
                                )[i] == upto0[i]);
                            } else {
                                assert(field_recs_upto(
                                    *type_map,
                                    end_field@,
                                    containing,
                                    show_relay,
                                    j + 1,
                                )[i] == block_recs(
                                    *type_map,
                                    target.ty_name@,
                                    opt_view(target.field_name),
                                )[i - out0.len()]);
                                assert(rec_matches(
                                    *type_map,
                                    block_recs(
                                        *type_map,
                                        target.ty_name@,
                                        opt_view(target.field_name),
                                    )[i - out0.len()],
                                    out@[out0.len() + (i - out0.len())],
                                ));
                            }
                        }
                    }
                } else {
                    proof {
                        assert(!field_candidate_ok(
                            *type_map,
                            end_field@,
                            containing,
                            show_relay,
                            j as int,
                        ));
                    }
                }
            } else {
                proof {
                    assert(!field_candidate_ok(
                        *type_map,
                        end_field@,
                        containing,
                        show_relay,
                        j as int,
                    ));
                }
            }
        } else {
            proof {
                assert(!field_candidate_ok(
                    *type_map,
                    end_field@,
                    containing,
                    show_relay,
                    j as int,
                ));
            }
        }
        proof {
            assert forall|j2: int|
                0 <= j2 < j + 1 && field_candidate_ok(
                    *type_map,
                    end_field@,
                    containing,
                    show_relay,
                    j2,
                ) && some_root_reaches(*type_map, (#[trigger] type_map.types@[j2]).name@)
                    implies exists|i: int|
                    0 <= i < out@.len() && (#[trigger] out@[i]).target.ty_name@
                        == type_map.types@[j2].name@ by {
                if j2 < j {
                    let i = choose|i: int|
                        0 <= i < out0.len() && (#[trigger] out0[i]).target.ty_name@
                            == type_map.types@[j2].name@;
                    assert(out@[i].target.ty_name@ == type_map.types@[j2].name@);
                }
            }
        }
        j += 1;
    }
    out
}

} // verus!
