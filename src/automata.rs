//! The match engine: simulates a finished automaton over subject text with an
//! explicit set of active states, and reports the leftmost, longest,
//! non-overlapping matches.
use vstd::prelude::*;

use crate::graph::{Graph, GraphView, NodeIndex};
use crate::parser::{chars_of, CharCost, Label};
use vstd::string::StrSliceExecFns;

verus! {

/// A matched substring and where it starts in the subject, counted in
/// characters.
pub struct MatchData {
    pub matched_string: String,
    pub location: usize,
}

/// An epsilon edge leads from `a` to `b`.
pub open spec fn eps_step(g: GraphView<Label>, a: NodeIndex, b: NodeIndex) -> bool {
    &&& a < g.edges.len()
    &&& exists|k: int|
        0 <= k < g.edges[a as int].len() && #[trigger] g.edges[a as int][k] == (b, None::<Label>)
}

/// An edge whose label accepts `c` leads from `a` to `b`.
pub open spec fn char_step(g: GraphView<Label>, a: NodeIndex, c: char, b: NodeIndex) -> bool {
    &&& a < g.edges.len()
    &&& exists|k: int|
        0 <= k < g.edges[a as int].len() && (#[trigger] g.edges[a as int][k]).0 == b
            && g.edges[a as int][k].1 is Some && g.edges[a as int][k].1->Some_0.accepts(c)
}

/// `p` is a walk along epsilon edges.
pub open spec fn eps_path(g: GraphView<Label>, p: Seq<NodeIndex>) -> bool {
    &&& p.len() > 0
    &&& forall|j: int| 0 <= j < p.len() - 1 ==> eps_step(g, #[trigger] p[j], p[j + 1])
}

/// `b` can be reached from `a` without reading a character.
pub open spec fn eps_reach(g: GraphView<Label>, a: NodeIndex, b: NodeIndex) -> bool {
    exists|p: Seq<NodeIndex>| #[trigger] eps_path(g, p) && p[0] == a && p.last() == b
}

/// The states reachable from `s` without reading a character.
pub open spec fn closure(g: GraphView<Label>, s: Set<NodeIndex>) -> Set<NodeIndex> {
    Set::new(|b: NodeIndex| exists|a: NodeIndex| s.contains(a) && #[trigger] eps_reach(g, a, b))
}

/// The states reached from `s` by reading `c` along one labelled edge.
pub open spec fn advance(g: GraphView<Label>, s: Set<NodeIndex>, c: char) -> Set<NodeIndex> {
    Set::new(|b: NodeIndex| exists|a: NodeIndex| s.contains(a) && #[trigger] char_step(g, a, c, b))
}

/// The active states after reading `t` from the start node.
pub open spec fn run(g: GraphView<Label>, t: Seq<char>) -> Set<NodeIndex>
    decreases t.len(),
{
    if t.len() == 0 {
        closure(g, set![g.start])
    } else {
        closure(g, advance(g, run(g, t.drop_last()), t.last()))
    }
}

/// The automaton accepts `t`: its final active handle is reached on `t`.
pub open spec fn accepts(g: GraphView<Label>, t: Seq<char>) -> bool {
    run(g, t).contains(g.active)
}

/// The largest `e` with `i < e <= j` at which `t[i..e]` is accepted, or `i`
/// where there is none.
pub open spec fn last_match(g: GraphView<Label>, t: Seq<char>, i: int, j: int) -> int
    decreases j - i,
{
    if j <= i {
        i
    } else if accepts(g, t.subrange(i, j)) {
        j
    } else {
        last_match(g, t, i, j - 1)
    }
}

/// The matches in `t` from position `i` on: at each position the longest
/// non-empty accepted substring that starts there, after which the search
/// goes on past it; where none starts, the search goes on one further.
pub open spec fn find_from(g: GraphView<Label>, t: Seq<char>, i: int) -> Seq<(Seq<char>, int)>
    decreases t.len() - i,
{
    if i >= t.len() || i < 0 {
        Seq::empty()
    } else {
        let e = last_match(g, t, i, t.len() as int);
        if i < e <= t.len() {
            seq![(t.subrange(i, e), i)] + find_from(g, t, e)
        } else {
            find_from(g, t, i + 1)
        }
    }
}

/// The set that a membership vector stands for.
pub open spec fn set_of(v: Seq<bool>) -> Set<NodeIndex> {
    Set::new(|b: NodeIndex| b < v.len() && v[b as int])
}

pub proof fn lemma_reach_refl(g: GraphView<Label>, a: NodeIndex)
    ensures
        eps_reach(g, a, a),
{
    assert(eps_path(g, seq![a]));
}

pub proof fn lemma_reach_extend(g: GraphView<Label>, a: NodeIndex, u: NodeIndex, t: NodeIndex)
    requires
        eps_reach(g, a, u),
        eps_step(g, u, t),
    ensures
        eps_reach(g, a, t),
{
    let p = choose|p: Seq<NodeIndex>| #[trigger] eps_path(g, p) && p[0] == a && p.last() == u;
    let q = p.push(t);
    assert forall|j: int| 0 <= j < q.len() - 1 implies eps_step(g, #[trigger] q[j], q[j + 1]) by {
        if j < p.len() - 1 {
            assert(q[j] == p[j] && q[j + 1] == p[j + 1]);
        }
    }
    assert(eps_path(g, q));
}

/// A set that holds `a` and is closed under epsilon edges holds all that `a`
/// reaches.
pub proof fn lemma_closed_holds_reach(g: GraphView<Label>, m: Set<NodeIndex>, a: NodeIndex, b: NodeIndex)
    requires
        m.contains(a),
        forall|u: NodeIndex, v: NodeIndex| m.contains(u) && #[trigger] eps_step(g, u, v) ==> m.contains(v),
        eps_reach(g, a, b),
    ensures
        m.contains(b),
{
    let p = choose|p: Seq<NodeIndex>| #[trigger] eps_path(g, p) && p[0] == a && p.last() == b;
    lemma_closed_holds_path(g, m, p, p.len() - 1);
}

proof fn lemma_closed_holds_path(g: GraphView<Label>, m: Set<NodeIndex>, p: Seq<NodeIndex>, j: int)
    requires
        eps_path(g, p),
        m.contains(p[0]),
        forall|u: NodeIndex, v: NodeIndex| m.contains(u) && #[trigger] eps_step(g, u, v) ==> m.contains(v),
        0 <= j < p.len(),
    ensures
        m.contains(p[j]),
    decreases j,
{
    if j > 0 {
        lemma_closed_holds_path(g, m, p, j - 1);
        assert(eps_step(g, p[j - 1], p[j]));
    }
}

/// A membership vector of `m` entries, all false.
fn empty_states(m: usize) -> (r: Vec<bool>)
    ensures
        r.len() == m,
        forall|b: int| 0 <= b < m ==> !r@[b],
{
    let mut r: Vec<bool> = Vec::new();
    while r.len() < m
        invariant
            r.len() <= m,
            forall|b: int| 0 <= b < r.len() ==> !r@[b],
        decreases m - r.len(),
    {
        r.push(false);
    }
    r
}

/// How many entries of `s` are false.
pub open spec fn count_false(s: Seq<bool>) -> nat
    decreases s.len(),
{
    if s.len() == 0 {
        0
    } else {
        count_false(s.drop_last()) + if s.last() {
            0nat
        } else {
            1nat
        }
    }
}

proof fn lemma_count_false_mark(s: Seq<bool>, i: int)
    requires
        0 <= i < s.len(),
        !s[i],
    ensures
        count_false(s.update(i, true)) + 1 == count_false(s),
    decreases s.len(),
{
    let u = s.update(i, true);
    if i == s.len() - 1 {
        assert(u.drop_last() =~= s.drop_last());
    } else {
        assert(u.drop_last() =~= s.drop_last().update(i, true));
        lemma_count_false_mark(s.drop_last(), i);
    }
}

/// The states reachable from those of `seed` along epsilon edges, found with
/// a work list.
fn eps_closure(g: &Graph<CharCost>, seed: Vec<bool>) -> (r: Vec<bool>)
    requires
        g@.wf(),
        seed.len() == g.arena@.len(),
    ensures
        r.len() == seed.len(),
        set_of(r@) == closure(g@, set_of(seed@)),
{
    let ghost gv = g@;
    let ghost seed0 = seed@;
    let ghost s0 = set_of(seed@);
    let m = seed.len();
    let mut mark = seed;
    let mut stack: Vec<NodeIndex> = Vec::new();
    let mut b: usize = 0;
    while b < m
        invariant
            b <= m,
            m == mark.len(),
            mark@ == seed0,
            forall|k: int| 0 <= k < stack.len() ==> #[trigger] stack@[k] < m && mark@[stack@[k] as int],
            forall|x: NodeIndex| x < b && mark@[x as int] ==> #[trigger] stack@.contains(x),
        decreases m - b,
    {
        if mark[b] {
            let ghost prev = stack@;
            stack.push(b);
            assert(forall|x: NodeIndex| prev.contains(x) ==> #[trigger] stack@.contains(x)) by {
                assert forall|x: NodeIndex| prev.contains(x) implies #[trigger] stack@.contains(x) by {
                    let a = prev.index_of(x);
                    assert(stack@[a] == x);
                }
            }
            assert(stack@[stack.len() - 1] == b);
        }
        b = b + 1;
    }
    assert forall|x: NodeIndex| x < m && mark@[x as int] implies #[trigger] closure(gv, s0).contains(x) by {
        lemma_reach_refl(gv, x);
    }
    while stack.len() > 0
        invariant
            mark.len() == m,
            gv == g@,
            gv.wf(),
            m == gv.edges.len(),
            s0 == set_of(seed0),
            seed0.len() == m,
            forall|k: int| 0 <= k < stack.len() ==> #[trigger] stack@[k] < m && mark@[stack@[k] as int],
            forall|x: NodeIndex| x < m && mark@[x as int] ==> #[trigger] closure(gv, s0).contains(x),
            forall|x: int| 0 <= x < m && seed0[x] ==> #[trigger] mark@[x],
            forall|u: NodeIndex, v: NodeIndex|
                u < m && mark@[u as int] && !stack@.contains(u) && #[trigger] eps_step(gv, u, v) ==> v
                    < m && mark@[v as int],
        decreases count_false(mark@), stack.len(),
    {
        let ghost old_stack = stack@;
        let u = stack.pop().unwrap();
        proof {
            assert forall|x: NodeIndex| x != u && old_stack.contains(x) implies #[trigger] stack@.contains(x) by {
                let a = old_stack.index_of(x);
                assert(old_stack[a] == x);
                assert(a < stack.len());
                assert(stack@[a] == x);
            }
        }
        let ghost c0 = count_false(mark@);
        let ghost len0 = stack.len();
        let ghost u_in_closure = closure(gv, s0).contains(u);
        let len_u = g.arena[u].edges.len();
        let mut k: usize = 0;
        while k < len_u
            invariant
                k <= len_u,
                len_u == g.arena@[u as int].edges@.len(),
                u < m,
                mark@[u as int],
                closure(gv, s0).contains(u),
                mark.len() == m,
                gv == g@,
                gv.wf(),
                m == gv.edges.len(),
                s0 == set_of(seed0),
                seed0.len() == m,
                forall|k2: int| 0 <= k2 < stack.len() ==> #[trigger] stack@[k2] < m && mark@[stack@[k2] as int],
                forall|x: NodeIndex| x < m && mark@[x as int] ==> #[trigger] closure(gv, s0).contains(x),
                forall|x: int| 0 <= x < m && seed0[x] ==> #[trigger] mark@[x],
                forall|u2: NodeIndex, v: NodeIndex|
                    u2 != u && u2 < m && mark@[u2 as int] && !stack@.contains(u2) && #[trigger] eps_step(gv, u2, v)
                        ==> v < m && mark@[v as int],
                forall|k2: int|
                    0 <= k2 < k && (#[trigger] gv.edges[u as int][k2]).1 is None ==> mark@[gv.edges[u as int][k2].0 as int],
                count_false(mark@) <= c0,
                count_false(mark@) == c0 ==> stack.len() == len0,
            decreases len_u - k,
        {
            let is_eps = g.arena[u].edges[k].1.is_none();
            let t = g.arena[u].edges[k].0;
            assert(gv.edges[u as int][k as int] == (t, crate::graph::label_view(g.arena@[u as int].edges@[k as int].1)));
            if is_eps && !mark[t] {
                proof {
                    assert(gv.edges[u as int][k as int] == (t, None::<Label>));
                    assert(eps_step(gv, u, t));
                    lemma_count_false_mark(mark@, t as int);
                    let a = choose|a: NodeIndex| s0.contains(a) && #[trigger] eps_reach(gv, a, u);
                    lemma_reach_extend(gv, a, u, t);
                    assert(closure(gv, s0).contains(t));
                }
                let ghost prev_stack = stack@;
                mark.set(t, true);
                stack.push(t);
                assert(forall|x: NodeIndex| prev_stack.contains(x) ==> #[trigger] stack@.contains(x)) by {
                    assert forall|x: NodeIndex| prev_stack.contains(x) implies #[trigger] stack@.contains(x) by {
                        let a = prev_stack.index_of(x);
                        assert(stack@[a] == x);
                    }
                }
                assert(stack@[stack.len() - 1] == t);
            }
            k = k + 1;
        }
        proof {
            assert forall|v: NodeIndex| #[trigger] eps_step(gv, u, v) implies v < m && mark@[v as int] by {
                let k2 = choose|k2: int| 0 <= k2 < gv.edges[u as int].len() && #[trigger] gv.edges[u as int][k2] == (v, None::<Label>);
                assert(gv.edges[u as int][k2].1 is None);
            }
        }
    }
    proof {
        let ms = set_of(mark@);
        assert forall|x: NodeIndex, v: NodeIndex| ms.contains(x) && #[trigger] eps_step(gv, x, v) implies ms.contains(v) by {
            assert(!stack@.contains(x));
        }
        assert forall|x: NodeIndex| closure(gv, s0).contains(x) implies ms.contains(x) by {
            let a = choose|a: NodeIndex| s0.contains(a) && #[trigger] eps_reach(gv, a, x);
            assert(mark@[a as int]);
            lemma_closed_holds_reach(gv, ms, a, x);
        }
        assert(ms =~= closure(gv, s0));
    }
    mark
}

/// Some state before `u` in `cur` reads `c` into `b`.
pub open spec fn reached_before(g: GraphView<Label>, cur: Seq<bool>, c: char, u: int, b: NodeIndex) -> bool {
    exists|a: NodeIndex| a < u && cur[a as int] && #[trigger] char_step(g, a, c, b)
}

/// One of the first `k` edges of `u` reads `c` into `b`.
pub open spec fn edge_before(g: GraphView<Label>, u: NodeIndex, c: char, k: int, b: NodeIndex) -> bool {
    exists|k2: int|
        0 <= k2 < k && (#[trigger] g.edges[u as int][k2]).0 == b && g.edges[u as int][k2].1 is Some
            && g.edges[u as int][k2].1->Some_0.accepts(c)
}

/// The states reached from those of `cur` by reading `c`.
fn advance_states(g: &Graph<CharCost>, cur: &Vec<bool>, c: char) -> (r: Vec<bool>)
    requires
        g@.wf(),
        cur.len() == g.arena@.len(),
    ensures
        r.len() == cur.len(),
        set_of(r@) == advance(g@, set_of(cur@), c),
{
    let ghost gv = g@;
    let m = cur.len();
    let mut next = empty_states(m);
    let mut u: usize = 0;
    while u < m
        invariant
            u <= m,
            m == cur.len(),
            next.len() == m,
            gv == g@,
            gv.wf(),
            m == gv.edges.len(),
            forall|b: NodeIndex| b < m ==> (next@[b as int] <==> reached_before(gv, cur@, c, u as int, b)),
        decreases m - u,
    {
        if cur[u] {
            let len_u = g.arena[u].edges.len();
            let mut k: usize = 0;
            while k < len_u
                invariant
                    k <= len_u,
                    u < m,
                    len_u == gv.edges[u as int].len(),
                    m == cur.len(),
                    next.len() == m,
                    gv == g@,
                    gv.wf(),
                    m == gv.edges.len(),
                    forall|b: NodeIndex|
                        b < m ==> (next@[b as int] <==> (reached_before(gv, cur@, c, u as int, b)
                            || edge_before(gv, u, c, k as int, b))),
                decreases len_u - k,
            {
                let t = g.arena[u].edges[k].0;
                let ghost ev = gv.edges[u as int][k as int];
                assert(ev == (t, crate::graph::label_view(g.arena@[u as int].edges@[k as int].1)));
                let readable = match &g.arena[u].edges[k].1 {
                    Some(label) => label.admits(c),
                    None => false,
                };
                assert(readable <==> (ev.1 is Some && ev.1->Some_0.accepts(c)));
                if readable {
                    next.set(t, true);
                }
                proof {
                    assert forall|b: NodeIndex| b < m implies (next@[b as int] <==> (reached_before(gv, cur@, c, u as int, b)
                        || edge_before(gv, u, c, k + 1, b))) by {
                        if edge_before(gv, u, c, k + 1, b) && !edge_before(gv, u, c, k as int, b) {
                            let k2 = choose|k2: int|
                                0 <= k2 < k + 1 && (#[trigger] gv.edges[u as int][k2]).0 == b && gv.edges[u as int][k2].1 is Some
                                    && gv.edges[u as int][k2].1->Some_0.accepts(c);
                            assert(k2 == k);
                        }
                        if readable && b == t {
                            assert(edge_before(gv, u, c, k + 1, b));
                        }
                        if edge_before(gv, u, c, k as int, b) {
                            let k2 = choose|k2: int|
                                0 <= k2 < k && (#[trigger] gv.edges[u as int][k2]).0 == b && gv.edges[u as int][k2].1 is Some
                                    && gv.edges[u as int][k2].1->Some_0.accepts(c);
                            assert(edge_before(gv, u, c, k + 1, b));
                        }
                    }
                }
                k = k + 1;
            }
            proof {
                assert forall|b: NodeIndex| b < m implies (next@[b as int] <==> reached_before(gv, cur@, c, u + 1, b)) by {
                    if edge_before(gv, u, c, len_u as int, b) {
                        assert(char_step(gv, u, c, b));
                    }
                    if char_step(gv, u, c, b) {
                        assert(edge_before(gv, u, c, len_u as int, b));
                    }
                    if reached_before(gv, cur@, c, u + 1, b) && !reached_before(gv, cur@, c, u as int, b) {
                        assert(char_step(gv, u, c, b));
                    }
                    if reached_before(gv, cur@, c, u as int, b) {
                        let a = choose|a: NodeIndex| a < u && cur@[a as int] && #[trigger] char_step(gv, a, c, b);
                        assert(reached_before(gv, cur@, c, u + 1, b));
                    }
                }
            }
        } else {
            proof {
                assert forall|b: NodeIndex| b < m implies (next@[b as int] <==> reached_before(gv, cur@, c, u + 1, b)) by {
                    if reached_before(gv, cur@, c, u + 1, b) {
                        let a = choose|a: NodeIndex| a < u + 1 && cur@[a as int] && #[trigger] char_step(gv, a, c, b);
                        assert(a != u);
                        assert(reached_before(gv, cur@, c, u as int, b));
                    }
                    if reached_before(gv, cur@, c, u as int, b) {
                        let a = choose|a: NodeIndex| a < u && cur@[a as int] && #[trigger] char_step(gv, a, c, b);
                        assert(reached_before(gv, cur@, c, u + 1, b));
                    }
                }
            }
        }
        u = u + 1;
    }
    proof {
        assert forall|b: NodeIndex| #[trigger] advance(gv, set_of(cur@), c).contains(b) implies set_of(next@).contains(b) by {
            let a = choose|a: NodeIndex| set_of(cur@).contains(a) && #[trigger] char_step(gv, a, c, b);
            let k2 = choose|k2: int|
                0 <= k2 < gv.edges[a as int].len() && (#[trigger] gv.edges[a as int][k2]).0 == b
                    && gv.edges[a as int][k2].1 is Some && gv.edges[a as int][k2].1->Some_0.accepts(c);
            assert(b < m);
            assert(reached_before(gv, cur@, c, m as int, b));
        }
        assert forall|b: NodeIndex| set_of(next@).contains(b) implies #[trigger] advance(gv, set_of(cur@), c).contains(b) by {
            let a = choose|a: NodeIndex| a < m && cur@[a as int] && #[trigger] char_step(gv, a, c, b);
            assert(set_of(cur@).contains(a));
        }
        assert(set_of(next@) =~= advance(gv, set_of(cur@), c));
    }
    next
}

pub proof fn lemma_last_match_bounds(g: GraphView<Label>, t: Seq<char>, i: int, j: int)
    ensures
        i <= last_match(g, t, i, j),
        last_match(g, t, i, j) <= i || last_match(g, t, i, j) <= j,
    decreases j - i,
{
    if j > i {
        lemma_last_match_bounds(g, t, i, j - 1);
    }
}

/// Once no state is active, reading more keeps it so, and nothing longer is
/// accepted.
proof fn lemma_dead_run(g: GraphView<Label>, t: Seq<char>, i: int, j: int, k: int)
    requires
        0 <= i <= j <= k <= t.len(),
        run(g, t.subrange(i, j)) =~= Set::<NodeIndex>::empty(),
    ensures
        run(g, t.subrange(i, k)) =~= Set::<NodeIndex>::empty(),
        last_match(g, t, i, k) == last_match(g, t, i, j),
    decreases k - j,
{
    if k > j {
        lemma_dead_run(g, t, i, j, k - 1);
        let sk = t.subrange(i, k);
        assert(sk.drop_last() =~= t.subrange(i, k - 1));
        assert(advance(g, run(g, sk.drop_last()), sk.last()) =~= Set::<NodeIndex>::empty());
        assert(run(g, sk) =~= Set::<NodeIndex>::empty());
    }
}

/// Whether some entry of `v` is true.
fn any_state(v: &Vec<bool>) -> (r: bool)
    ensures
        r == exists|b: int| 0 <= b < v.len() && v@[b],
{
    let mut b: usize = 0;
    while b < v.len()
        invariant
            b <= v.len(),
            forall|x: int| 0 <= x < b ==> !v@[x],
        decreases v.len() - b,
    {
        if v[b] {
            return true;
        }
        b = b + 1;
    }
    false
}

/// The end of the longest non-empty match that starts at `i`, or `i` where
/// none does; the simulation stops once no state is active.
fn longest_match(g: &Graph<CharCost>, text: &Vec<char>, i: usize) -> (e: usize)
    requires
        g@.wf(),
        i <= text.len(),
    ensures
        e == last_match(g@, text@, i as int, text@.len() as int),
{
    let ghost gv = g@;
    let m = g.arena.len();
    let n = text.len();
    let mut seed = empty_states(m);
    seed.set(g.start, true);
    assert(set_of(seed@) =~= set![gv.start]);
    let mut cur = eps_closure(g, seed);
    assert(text@.subrange(i as int, i as int).len() == 0);
    let mut best = i;
    let mut j = i;
    let mut alive = any_state(&cur);
    while j < n && alive
        invariant
            i <= j <= n,
            n == text.len(),
            gv == g@,
            gv.wf(),
            m == gv.edges.len(),
            cur.len() == m,
            set_of(cur@) == run(gv, text@.subrange(i as int, j as int)),
            best == last_match(gv, text@, i as int, j as int),
            alive == exists|b: int| 0 <= b < cur.len() && cur@[b],
        decreases n - j,
    {
        let next = advance_states(g, &cur, text[j]);
        cur = eps_closure(g, next);
        proof {
            let sj = text@.subrange(i as int, j + 1);
            assert(sj.drop_last() =~= text@.subrange(i as int, j as int));
            assert(sj.last() == text@[j as int]);
        }
        j = j + 1;
        if cur[g.active] {
            best = j;
        }
        alive = any_state(&cur);
    }
    if !alive {
        proof {
            assert(set_of(cur@) =~= Set::<NodeIndex>::empty());
            lemma_dead_run(gv, text@, i as int, j as int, n as int);
        }
    }
    best
}

/// The matches as (substring, start) pairs.
pub open spec fn matches_view(ms: Seq<MatchData>) -> Seq<(Seq<char>, int)> {
    Seq::new(ms.len(), |k: int| (ms[k].matched_string@, ms[k].location as int))
}

/// Every leftmost-longest, non-overlapping, non-empty match of the automaton
/// in `code`, in order.
pub fn run_automata(automata: Graph<CharCost>, code: String) -> (r: Vec<MatchData>)
    requires
        automata@.wf(),
    ensures
        matches_view(r@) == find_from(automata@, code@, 0),
{
    let ghost gv = automata@;
    let text = chars_of(code.as_str());
    let n = text.len();
    let mut found: Vec<MatchData> = Vec::new();
    let mut i: usize = 0;
    while i < n
        invariant
            i <= n,
            n == text.len(),
            text@ == code@,
            gv == automata@,
            gv.wf(),
            matches_view(found@) + find_from(gv, code@, i as int) == find_from(gv, code@, 0),
        decreases n - i,
    {
        let e = longest_match(&automata, &text, i);
        proof {
            lemma_last_match_bounds(gv, code@, i as int, n as int);
        }
        if e > i {
            let piece = code.as_str().substring_char(i, e);
            let matched_string = piece.to_owned();
            let ghost before = found@;
            found.push(MatchData { matched_string, location: i });
            proof {
                assert(matches_view(found@) =~= matches_view(before) + seq![(code@.subrange(i as int, e as int), i as int)]);
                assert(find_from(gv, code@, i as int) == seq![(code@.subrange(i as int, e as int), i as int)] + find_from(gv, code@, e as int));
                assert(matches_view(found@) + find_from(gv, code@, e as int) =~= matches_view(before) + find_from(gv, code@, i as int));
            }
            i = e;
        } else {
            i = i + 1;
        }
    }
    proof {
        assert(matches_view(found@) + find_from(gv, code@, n as int) =~= matches_view(found@));
    }
    found
}

/// A set that holds `s`, is closed under epsilon edges and holds only what
/// `s` reaches is the closure of `s`.
proof fn lemma_closure_is(g: GraphView<Label>, s: Set<NodeIndex>, c: Set<NodeIndex>)
    requires
        s.subset_of(c),
        forall|u: NodeIndex, v: NodeIndex| c.contains(u) && #[trigger] eps_step(g, u, v) ==> c.contains(v),
        forall|b: NodeIndex| c.contains(b) ==> exists|a: NodeIndex| s.contains(a) && #[trigger] eps_reach(g, a, b),
    ensures
        closure(g, s) =~= c,
{
    assert forall|b: NodeIndex| closure(g, s).contains(b) implies c.contains(b) by {
        let a = choose|a: NodeIndex| s.contains(a) && #[trigger] eps_reach(g, a, b);
        lemma_closed_holds_reach(g, c, a, b);
    }
}

/// Every character of `t` is accepted by `x`.
pub open spec fn all_accepted(x: Label, t: Seq<char>) -> bool {
    forall|k: int| 0 <= k < t.len() ==> x.accepts(#[trigger] t[k])
}

/// The states of a graph with an `x` edge from 0 to 1 and an epsilon edge
/// back, after reading `t`.
proof fn lemma_repeat_run(g: GraphView<Label>, x: Label, t: Seq<char>)
    requires
        g.edges == seq![seq![(1usize, Some(x))], seq![(0usize, None::<Label>)]],
        g.start == 0,
    ensures
        run(g, t) =~= if t.len() == 0 {
            set![0usize]
        } else if all_accepted(x, t) {
            set![0usize, 1usize]
        } else {
            Set::empty()
        },
    decreases t.len(),
{
    assert forall|u: NodeIndex, v: NodeIndex| #[trigger] eps_step(g, u, v) <==> (u == 1 && v == 0) by {
        if u == 1 && v == 0 {
            assert(g.edges[1][0] == (0usize, None::<Label>));
        }
    }
    assert forall|u: NodeIndex, c: char, v: NodeIndex| #[trigger] char_step(g, u, c, v) <==> (u == 0 && v == 1
        && x.accepts(c)) by {
        if u == 0 && v == 1 && x.accepts(c) {
            assert(g.edges[0][0] == (1usize, Some(x)));
        }
    }
    lemma_reach_refl(g, 0);
    lemma_reach_refl(g, 1);
    lemma_reach_extend(g, 1, 1, 0);
    if t.len() == 0 {
        lemma_closure_is(g, set![g.start], set![0usize]);
    } else {
        let prev = t.drop_last();
        lemma_repeat_run(g, x, prev);
        let adv = advance(g, run(g, prev), t.last());
        if all_accepted(x, t) {
            assert(all_accepted(x, prev)) by {
                assert forall|k: int| 0 <= k < prev.len() implies x.accepts(#[trigger] prev[k]) by {
                    assert(prev[k] == t[k]);
                }
            }
            assert(x.accepts(t[t.len() - 1]));
            assert(run(g, prev).contains(0));
            assert(char_step(g, 0, t.last(), 1));
            assert(adv.contains(1usize));
            assert(adv =~= set![1usize]);
            lemma_closure_is(g, adv, set![0usize, 1usize]);
        } else {
            if all_accepted(x, prev) {
                assert(!x.accepts(t.last())) by {
                    if x.accepts(t.last()) {
                        assert forall|k: int| 0 <= k < t.len() implies x.accepts(#[trigger] t[k]) by {
                            if k < prev.len() {
                                assert(prev[k] == t[k]);
                            }
                        }
                    }
                }
            }
            assert(adv =~= Set::<NodeIndex>::empty());
            lemma_closure_is(g, adv, Set::empty());
        }
    }
}

/// `make_repeatable` on an atom `x`: the automaton accepts exactly the
/// non-empty texts whose every character `x` accepts (`x`, `xx`, `xxx`, ...).
pub proof fn lemma_repeatable_atom(x: Label, t: Seq<char>)
    ensures
        accepts(GraphView::fresh().concatenate(x).make_repeatable(0), t) <==> (t.len() > 0
            && all_accepted(x, t)),
{
    let g = GraphView::fresh().concatenate(x).make_repeatable(0);
    assert(g.edges =~= seq![seq![(1usize, Some(x))], seq![(0usize, None::<Label>)]]);
    lemma_repeat_run(g, x, t);
}

/// `make_optional_repeatable` on an atom `x`: the automaton accepts exactly the
/// texts whose every character `x` accepts (the empty one, `x`, `xx`, ...).
pub proof fn lemma_optional_repeatable_atom(x: Label, t: Seq<char>)
    ensures
        accepts(GraphView::fresh().concatenate(x).make_optional_repeatable(0), t) <==> all_accepted(
            x,
            t,
        ),
{
    let g = GraphView::fresh().concatenate(x).make_optional_repeatable(0);
    assert(g.edges =~= seq![seq![(1usize, Some(x))], seq![(0usize, None::<Label>)]]);
    lemma_repeat_run(g, x, t);
}

/// `make_optional` on an atom `x`: the automaton accepts exactly the empty
/// text and the one-character texts that `x` accepts.
pub proof fn lemma_optional_atom(x: Label, t: Seq<char>)
    ensures
        accepts(GraphView::fresh().concatenate(x).make_optional(0), t) <==> (t.len() == 0 || (t.len()
            == 1 && x.accepts(t[0]))),
{
    lemma_optional_run(x, t);
}

proof fn lemma_optional_run(x: Label, t: Seq<char>)
    ensures
        GraphView::fresh().concatenate(x).make_optional(0).active == 2,
        run(GraphView::fresh().concatenate(x).make_optional(0), t) =~= if t.len() == 0 {
            set![0usize, 2usize]
        } else if t.len() == 1 && x.accepts(t[0]) {
            set![1usize, 2usize]
        } else {
            Set::empty()
        },
    decreases t.len(),
{
    let g = GraphView::fresh().concatenate(x).make_optional(0);
    let c1 = GraphView::fresh().concatenate(x);
    let o1 = c1.open_branch(0);
    assert(o1.is_end(0, 0));
    assert(forall|i: int| o1.is_end(0, i) <==> (i == 0 || i == 1));
    assert(c1.edges[0] =~= seq![(1usize, Some(x))]);
    assert(g.edges[0] =~= seq![(1usize, Some(x)), (2usize, None::<Label>)]);
    assert(g.edges[1] =~= seq![(2usize, None::<Label>)]);
    assert(g.edges[2] =~= Seq::<(NodeIndex, Option<Label>)>::empty());
    assert(g.edges =~= seq![
        seq![(1usize, Some(x)), (2usize, None::<Label>)],
        seq![(2usize, None::<Label>)],
        Seq::empty(),
    ]);
    assert forall|u: NodeIndex, v: NodeIndex| #[trigger] eps_step(g, u, v) <==> ((u == 0 || u == 1) && v == 2) by {
        if u == 0 && v == 2 {
            assert(g.edges[0][1] == (2usize, None::<Label>));
        }
        if u == 1 && v == 2 {
            assert(g.edges[1][0] == (2usize, None::<Label>));
        }
    }
    assert forall|u: NodeIndex, c: char, v: NodeIndex| #[trigger] char_step(g, u, c, v) <==> (u == 0 && v == 1
        && x.accepts(c)) by {
        if u == 0 && v == 1 && x.accepts(c) {
            assert(g.edges[0][0] == (1usize, Some(x)));
        }
    }
    lemma_reach_refl(g, 0);
    lemma_reach_refl(g, 1);
    lemma_reach_extend(g, 0, 0, 2);
    lemma_reach_extend(g, 1, 1, 2);
    if t.len() == 0 {
        lemma_closure_is(g, set![g.start], set![0usize, 2usize]);
    } else {
        let prev = t.drop_last();
        lemma_optional_run(x, prev);
        let adv = advance(g, run(g, prev), t.last());
        if t.len() == 1 && x.accepts(t[0]) {
            assert(run(g, prev).contains(0));
            assert(char_step(g, 0, t.last(), 1));
            assert(adv.contains(1usize));
            assert(adv =~= set![1usize]);
            lemma_closure_is(g, adv, set![1usize, 2usize]);
        } else {
            assert(adv =~= Set::<NodeIndex>::empty());
            lemma_closure_is(g, adv, Set::empty());
        }
    }
}

} // verus!
