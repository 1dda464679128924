use vstd::prelude::*;
use crate::evaluate::{moves_fit, same_but_stack, hash_pushed, evaluated};
use crate::position::is_applied;
use rayon::slice::ParallelSliceMut;
use rand::seq::SliceRandom;
use crate::maps::AttackTables;
use crate::position::{Move, Position, move_ok};
use crate::types::{GameState, Side};

verus! {

/// How the children of a node are ordered: by score, or at random.
#[derive(PartialEq, Eq, Structural, Clone, Copy, Debug)]
pub struct ExpandStyle(pub u8);

impl ExpandStyle {
    /// Children best-first for the playing side.
    pub fn default_style() -> (r: ExpandStyle)
        ensures
            r.0 == 0,
    {
        ExpandStyle(0)
    }

    /// Children in random order.
    pub fn random() -> (r: ExpandStyle)
        ensures
            r.0 == 1,
    {
        ExpandStyle(1)
    }
}

/// The integer square root: the largest `r` with `r * r <= n`.
pub open spec fn is_isqrt(n: int, r: int) -> bool {
    0 <= r && r * r <= n < (r + 1) * (r + 1)
}

fn isqrt(n: usize) -> (r: usize)
    requires
        n <= 0xffff_ffff,
    ensures
        is_isqrt(n as int, r as int),
        r <= 0xffff,
{
    let mut r: u64 = 0;
    let m = n as u64;
    loop
        invariant
            r * r <= m,
            m == n,
            m <= 0xffff_ffff,
            r <= 0xffff,
        ensures
            r * r <= m < (r + 1) * (r + 1),
            r <= 0xffff,
        decreases m - r * r,
    {
        proof {
            assert((r + 1) * (r + 1) <= 0x10000 * 0x10000) by (nonlinear_arith)
                requires r <= 0xffff;
        }
        let next = (r + 1) * (r + 1);
        if next > m {
            break;
        }
        proof {
            assert((r + 1) * (r + 1) > r * r) by (nonlinear_arith);
            if r + 1 > 0xffff {
                assert((r + 1) * (r + 1) >= 0x10000 * 0x10000) by (nonlinear_arith)
                    requires r + 1 >= 0x10000;
            }
        }
        r = r + 1;
    }
    r as usize
}

/// The number of frontier nodes expanded at one depth: `min(4 * isqrt(n), n)`.
pub open spec fn w_all(n: int, root: int) -> int {
    if 4 * root > n { n } else { 4 * root }
}

/// The number of children of one parent expanded further: `min(isqrt(n) + 1, n)`.
pub open spec fn w_child(n: int, root: int) -> int {
    if root + 1 > n { n } else { root + 1 }
}

fn calculate_all_moves_to_expand(total_moves: usize) -> (r: usize)
    requires
        total_moves <= 0xffff_ffff,
    ensures
        exists|root: int| is_isqrt(total_moves as int, root) && r == w_all(total_moves as int, root),
        r <= total_moves,
{
    let root = isqrt(total_moves);
    let moves_to_expand = 4 * root;
    if moves_to_expand > total_moves {
        total_moves
    } else {
        moves_to_expand
    }
}

fn calculate_moves_to_expand(total_moves: usize) -> (r: usize)
    requires
        total_moves <= 0xffff_ffff,
    ensures
        exists|root: int| is_isqrt(total_moves as int, root) && r == w_child(total_moves as int, root),
        r <= total_moves,
{
    let root = isqrt(total_moves);
    let moves_to_expand = root + 1;
    if moves_to_expand > total_moves {
        total_moves
    } else {
        moves_to_expand
    }
}


/// A node of the search tree.
pub struct Node {
    pub parent_move: Option<Move>,
    pub position: Position,
    pub available_moves: Vec<Move>,
    pub score: Option<i32>,
    pub game_state: GameState,
    pub depth: u8,
}

impl Node {
    /// The node's position is consistent and its moves fit it.
    pub open spec fn wf(&self) -> bool {
        &&& self.position.wf()
        &&& moves_fit(self.position, self.available_moves@)
        &&& self.game_state.0 <= 3
        &&& self.score matches Some(s) ==> -1_000_000 <= s <= 1_000_000
        &&& (self.game_state.0 == 1 || self.game_state.0 == 3) ==> self.available_moves@.len() > 0
    }
}

/// The key that orders children for `playing`: smaller is better for the playing side.
pub open spec fn order_key(n: Node, playing: Side) -> int {
    match n.score {
        Some(s) => if playing.0 == 0 { -s } else { s as int },
        None => if playing.0 == n.position.side_to_move.0 { -1000 } else { 1000 },
    }
}

/// A search tree: nodes by dense id, 0 the root, with parent and children links.
pub struct PositionTree {
    pub root: usize,
    pub parent: Vec<Option<usize>>,
    pub children: Vec<Vec<usize>>,
    pub values: Vec<Node>,
    pub depth: u8,
}

proof fn lemma_fit_stack(p: Position, q: Position, moves: Seq<Move>)
    requires
        same_but_stack(p, q),
        moves_fit(p, moves),
    ensures
        moves_fit(q, moves),
{
    assert forall|s: int, t: int| #[trigger] q.holds(s, t) == p.holds(s, t) by {
        if q.holds(s, t) {
            let k = choose|k: int| #[trigger] q.owns(s, k, t);
            assert(p.owns(s, k, t));
        }
        if p.holds(s, t) {
            let k = choose|k: int| #[trigger] p.owns(s, k, t);
            assert(q.owns(s, k, t));
        }
    }
    assert forall|i: int| 0 <= i < moves.len() implies move_ok(q, #[trigger] moves[i]) by {
        assert(move_ok(p, moves[i]));
        assert(forall|s: int, k: int, t: int| #[trigger] q.owns(s, k, t) == p.owns(s, k, t));
    }
}

/// Plays `m` from `parent` and evaluates the result.
fn make_child(parent: &Node, m: Move, tables: &AttackTables) -> (r: Node)
    requires
        parent.wf(),
        tables.wf(),
        move_ok(parent.position, m),
        parent.depth < 255,
    ensures
        r.wf(),
        r.parent_move == Some(m),
        r.depth == parent.depth + 1,
        child_node(parent.position, m, r),
{
    let before = parent.position.make_move(m);
    let mut position = before;
    let eval = position.evaluate(tables);
    proof {
        lemma_fit_stack(before, position, eval.moves@);
        assert(is_applied(parent.position, m, before) && hash_pushed(before, position));
        assert(evaluated(before, position, eval.moves@, eval.game_state, eval.score));
    }
    let r = Node {
        parent_move: Some(m),
        position,
        available_moves: eval.moves,
        score: eval.score,
        game_state: eval.game_state,
        depth: parent.depth + 1,
    };
    proof {
        reveal(child_node);
        assert(child_of(parent.position, m, r.position));
    }
    r
}

impl PositionTree {
    pub open spec fn wf(&self) -> bool {
        let n = self.values@.len();
        &&& self.root == 0
        &&& n >= 1
        &&& self.parent@.len() == n
        &&& self.children@.len() == n
        &&& self.parent@[0] is None
        &&& forall|i: int| 1 <= i < n ==> (#[trigger] self.parent@[i]) is Some && self.parent@[i]->0 < i
        &&& forall|i: int, k: int| 0 <= i < n && 0 <= k < self.children@[i]@.len() ==> (#[trigger] self.children@[i]@[k]) < n
            && self.parent@[self.children@[i]@[k] as int] == Some(i as usize)
        &&& forall|i: int| 0 <= i < n ==> (#[trigger] self.values@[i]).wf()
        &&& forall|i: int| 1 <= i < n ==> (#[trigger] self.values@[i]).parent_move is Some
        &&& forall|i: int| 0 <= i < n ==> (#[trigger] self.children@[i])@.len() <= MAX_BRANCHING
        &&& forall|i: int| 0 <= i < n ==> (#[trigger] self.children@[i])@.no_duplicates()
        &&& forall|i: int| 0 <= i < n ==> (#[trigger] self.children@[i])@.len() == 0 || self.children@[i]@.len()
            == self.values@[i].available_moves@.len()
        &&& self.values@[0].depth == 0
        &&& forall|i: int| 1 <= i < n ==> (#[trigger] self.values@[i]).depth >= 1
        &&& forall|i: int, k: int| 0 <= i < n && 0 <= k < self.children@[i]@.len() ==>
            self.values@[i].available_moves@.contains(self.values@[#[trigger] self.children@[i]@[k] as int].parent_move->0)
    }

    /// A tree that holds `position`, evaluated, as its root.
    pub fn new(position: Position, tables: &AttackTables) -> (r: PositionTree)
        requires
            position.wf(),
            tables.wf(),
        ensures
            r.wf(),
            r.values@.len() == 1,
            r.depth == 0,
            r.children@[0]@.len() == 0,
            r.values@[0].parent_move is None,
            hash_pushed(position, r.values@[0].position),
            evaluated(position, r.values@[0].position, r.values@[0].available_moves@, r.values@[0].game_state, r.values@[0].score),
    {
        let mut root = position;
        let eval = root.evaluate(tables);
        proof {
            lemma_fit_stack(position, root, eval.moves@);
        }
        let node = Node {
            parent_move: None,
            position: root,
            available_moves: eval.moves,
            score: eval.score,
            game_state: eval.game_state,
            depth: 0,
        };
        let mut values: Vec<Node> = Vec::new();
        values.push(node);
        let mut parent: Vec<Option<usize>> = Vec::new();
        parent.push(None);
        let mut children: Vec<Vec<usize>> = Vec::new();
        children.push(Vec::new());
        PositionTree { root: 0, parent, children, values, depth: 0 }
    }

    /// The node with id `index`.
    pub fn get_node(&self, index: usize) -> (r: &Node)
        requires
            index < self.values@.len(),
        ensures
            *r == self.values@[index as int],
    {
        &self.values[index]
    }

    /// The parent of node `index`, none for the root.
    pub fn get_parent(&self, index: usize) -> (r: Option<usize>)
        requires
            index < self.parent@.len(),
        ensures
            r == self.parent@[index as int],
    {
        self.parent[index]
    }

    /// The children of node `index`, in their order.
    pub fn get_children(&self, index: usize) -> (r: &Vec<usize>)
        requires
            index < self.children@.len(),
        ensures
            *r == self.children@[index as int],
    {
        &self.children[index]
    }

    /// The score of node `index`.
    pub fn get_score(&self, index: usize) -> (r: Option<i32>)
        requires
            index < self.values@.len(),
        ensures
            r == self.values@[index as int].score,
    {
        self.values[index].score
    }

    /// The game state of node `index`.
    pub fn get_game_state(&self, index: usize) -> (r: GameState)
        requires
            index < self.values@.len(),
        ensures
            r == self.values@[index as int].game_state,
    {
        self.values[index].game_state
    }

    /// The moves available at node `index`.
    pub fn get_available_moves(&self, index: usize) -> (r: Vec<Move>)
        requires
            index < self.values@.len(),
        ensures
            r@ == self.values@[index as int].available_moves@,
    {
        let source = &self.values[index].available_moves;
        let mut moves: Vec<Move> = Vec::new();
        let mut k: usize = 0;
        while k < source.len()
            invariant
                k <= source@.len(),
                moves@ == source@.subrange(0, k as int),
            decreases source@.len() - k,
        {
            moves.push(source[k]);
            k = k + 1;
            proof {
                assert(moves@ =~= source@.subrange(0, k as int));
            }
        }
        proof {
            assert(moves@ =~= source@);
        }
        moves
    }

    /// The number of moves available at node `index`.
    pub fn get_available_move_count(&self, index: usize) -> (r: usize)
        requires
            index < self.values@.len(),
        ensures
            r == self.values@[index as int].available_moves@.len(),
    {
        self.values[index].available_moves.len()
    }
}


/// No position has more legal moves than this; a node that lists more is not expanded.
pub const MAX_BRANCHING: usize = 256;

/// `child` is `parent` after `m`, with its hash pushed by the evaluation.
pub open spec fn child_of(parent: Position, m: Move, child: Position) -> bool {
    exists|q: Position| #[trigger] is_applied(parent, m, q) && hash_pushed(q, child)
}

/// `child` is `parent` after `m`, with its hash pushed, and holds the evaluation of the
/// position after `m`.
#[verifier::opaque]
pub open spec fn child_node(parent: Position, m: Move, child: Node) -> bool {
    &&& child_of(parent, m, child.position)
    &&& exists|q: Position| #[trigger] is_applied(parent, m, q) && evaluated(q, child.position, child.available_moves@, child.game_state, child.score)
}

/// Pairs in ascending order: by first item, then by second.
pub open spec fn pair_le(a: (i64, usize), b: (i64, usize)) -> bool {
    a.0 < b.0 || (a.0 == b.0 && a.1 <= b.1)
}

/// Relies on rayon's `ParallelSliceMut::par_sort` on pairs of integers: it sorts the slice in
/// place, in ascending order of the pairs (first item, then second).
#[verifier::external_body]
fn sort_pairs(v: &mut Vec<(i64, usize)>)
    ensures
        final(v)@.to_multiset() == old(v)@.to_multiset(),
        forall|i: int, j: int| 0 <= i < j < final(v)@.len() ==> pair_le(final(v)@[i], final(v)@[j]),
{
    v.par_sort();
}

/// Relies on rand's `SliceRandom::shuffle` with the thread's generator: it permutes the items.
#[verifier::external_body]
fn shuffle_indices(v: &mut Vec<usize>)
    ensures
        final(v)@.to_multiset() == old(v)@.to_multiset(),
{
    v.shuffle(&mut rand::thread_rng());
}

/// A sequence with the same items as one without repeats has no repeats and the same items.
proof fn lemma_permutation<A>(s: Seq<A>, t: Seq<A>)
    requires
        s.no_duplicates(),
        t.to_multiset() == s.to_multiset(),
    ensures
        t.no_duplicates(),
        t.len() == s.len(),
        forall|x: A| #[trigger] t.contains(x) <==> s.contains(x),
{
    broadcast use vstd::seq_lib::to_multiset_contains, vstd::seq_lib::to_multiset_len;

    s.lemma_multiset_has_no_duplicates();
    assert forall|x: A| t.to_multiset().contains(x) implies t.to_multiset().count(x) == 1 by {}
    t.lemma_multiset_has_no_duplicates_conv();
    vstd::seq_lib::to_multiset_len(s);
    vstd::seq_lib::to_multiset_len(t);
    assert forall|x: A| #[trigger] t.contains(x) <==> s.contains(x) by {
        vstd::seq_lib::to_multiset_contains(s, x);
        vstd::seq_lib::to_multiset_contains(t, x);
    }
}

impl PositionTree {
    /// The children of node `index`: one per available move, in that order, played and
    /// evaluated; none when the node is at the depth limit or lists too many moves.
    fn get_node_children(&self, index: usize, tables: &AttackTables) -> (r: Vec<Option<Node>>)
        requires
            self.wf(),
            tables.wf(),
            index < self.values@.len(),
        ensures
            ({
                let p = self.values@[index as int];
                &&& r@.len() == 0 || r@.len() == p.available_moves@.len()
                &&& (p.depth < 255 && p.available_moves@.len() <= MAX_BRANCHING) ==> r@.len() == p.available_moves@.len()
                &&& r@.len() <= MAX_BRANCHING
                &&& forall|i: int| 0 <= i < r@.len() ==> (#[trigger] r@[i]) is Some && r@[i]->0.wf() && r@[i]->0.depth == p.depth + 1
                    && r@[i]->0.parent_move == Some(p.available_moves@[i])
                    && child_node(p.position, p.available_moves@[i], r@[i]->0)
            }),
    {
        let node = &self.values[index];
        let mut result: Vec<Option<Node>> = Vec::new();
        proof {
            assert(node.wf());
        }
        if node.depth == 255 || node.available_moves.len() > MAX_BRANCHING {
            return result;
        }
        let mut k: usize = 0;
        while k < node.available_moves.len()
            invariant
                node.wf(),
                tables.wf(),
                node.depth < 255,
                k <= node.available_moves@.len(),
                node.available_moves@.len() <= MAX_BRANCHING,
                result@.len() == k,
                forall|i: int| 0 <= i < result@.len() ==> (#[trigger] result@[i]) is Some && result@[i]->0.wf()
                    && result@[i]->0.depth == node.depth + 1 && result@[i]->0.parent_move == Some(node.available_moves@[i])
                    && child_node(node.position, node.available_moves@[i], result@[i]->0),
            decreases node.available_moves@.len() - k,
        {
            let m = node.available_moves[k];
            proof {
                assert(move_ok(node.position, node.available_moves@[k as int]));
            }
            result.push(Some(make_child(node, m, tables)));
            k = k + 1;
        }
        result
    }

    /// Expands node `index`: one child per available move is played and evaluated; the
    /// children are ordered best first for `playing_side` by score, equal scores in the order of
    /// the moves (or at random), appended to the tree in that order, and the node's score
    /// becomes the mean of theirs.
    fn expand_node(&mut self, index: usize, expand_style: ExpandStyle, playing_side: Side, tables: &AttackTables)
        requires
            old(self).wf(),
            tables.wf(),
            index < old(self).values@.len(),
            old(self).values@.len() < 0xffff_ffff - 1000,
        ensures
            final(self).wf(),
            final(self).values@.len() >= old(self).values@.len(),
            final(self).values@.len() <= old(self).values@.len() + old(self).values@[index as int].available_moves@.len(),
            (old(self).values@[index as int].depth < 255 && old(self).values@[index as int].available_moves@.len() <= MAX_BRANCHING)
                ==> final(self).values@.len() == old(self).values@.len() + old(self).values@[index as int].available_moves@.len(),
            final(self).depth == old(self).depth,
            forall|i: int| 0 <= i < old(self).values@.len() ==> (#[trigger] final(self).values@[i]).depth == old(self).values@[i].depth
                && final(self).values@[i].game_state == old(self).values@[i].game_state
                && final(self).values@[i].position == old(self).values@[i].position
                && final(self).values@[i].available_moves == old(self).values@[i].available_moves,
            forall|i: int| old(self).values@.len() <= i < final(self).values@.len() ==> {
                let n = #[trigger] final(self).values@[i];
                let p = old(self).values@[index as int];
                &&& n.depth == p.depth + 1
                &&& n.parent_move is Some
                &&& p.available_moves@.contains(n.parent_move->0)
                &&& child_node(p.position, n.parent_move->0, n)
            },
            final(self).children@[index as int]@.len() == final(self).values@.len() - old(self).values@.len(),
            forall|k: int| 0 <= k < final(self).children@[index as int]@.len() ==> #[trigger] final(self).children@[index as int]@[k] == old(self).values@.len() + k,
            forall|i: int| 0 <= i < old(self).values@.len() && i != index ==> #[trigger] final(self).children@[i] == old(self).children@[i],
            expand_style.0 == 0 ==> forall|a: int, b: int| old(self).values@.len() <= a < b < final(self).values@.len() ==>
                order_key(#[trigger] final(self).values@[a], playing_side) <= order_key(#[trigger] final(self).values@[b], playing_side),
            final(self).values@[index as int].score == match mean_score(final(self).values@, final(self).children@[index as int]@) {
                Some(m) => Some(m),
                None => old(self).values@[index as int].score,
            },
    {
        let mut slots = self.get_node_children(index, tables);
        let ghost orig = slots@;
        let ghost start = self.values@.len();
        let ghost old_values = self.values@;
        let ghost old_children = self.children@;
        let n = slots.len();
        let mut order: Vec<usize> = Vec::new();
        if expand_style.0 == 0 {
            let mut pairs: Vec<(i64, usize)> = Vec::new();
            let mut j: usize = 0;
            while j < n
                invariant
                    n == slots@.len(),
                    slots@ == orig,
                    n <= MAX_BRANCHING,
                    j <= n,
                    pairs@.len() == j,
                    forall|i: int| 0 <= i < j ==> (#[trigger] pairs@[i]).1 == i && pairs@[i].0 == order_key(orig[i]->0, playing_side),
                    forall|i: int| 0 <= i < n ==> (#[trigger] orig[i]) is Some && orig[i]->0.wf(),
                decreases n - j,
            {
                let key: i64 = match &slots[j] {
                    Some(nd) => match nd.score {
                        Some(sc) => if playing_side.0 == 0 { -(sc as i64) } else { sc as i64 },
                        None => if playing_side.0 == nd.position.side_to_move.0 { -1000 } else { 1000 },
                    },
                    None => 0,
                };
                pairs.push((key, j));
                j = j + 1;
            }
            let ghost unsorted = pairs@;
            proof {
                assert(unsorted.no_duplicates()) by {
                    assert forall|a: int, b: int| 0 <= a < unsorted.len() && 0 <= b < unsorted.len() && a != b implies unsorted[a] != unsorted[b] by {
                        assert(unsorted[a].1 == a && unsorted[b].1 == b);
                    }
                }
            }
            sort_pairs(&mut pairs);
            proof {
                lemma_permutation(unsorted, pairs@);
            }
            let mut q: usize = 0;
            while q < pairs.len()
                invariant
                    pairs@.len() == n,
                    q <= n,
                    order@.len() == q,
                    forall|i: int| 0 <= i < q ==> #[trigger] order@[i] == pairs@[i].1,
                decreases n - q,
            {
                order.push(pairs[q].1);
                q = q + 1;
            }
            proof {
                assert forall|a: int| 0 <= a < n implies (#[trigger] pairs@[a]).1 < n && pairs@[a].0 == order_key(orig[pairs@[a].1 as int]->0, playing_side) by {
                    assert(pairs@.contains(pairs@[a]));
                    assert(unsorted.contains(pairs@[a]));
                    let b = choose|b: int| 0 <= b < unsorted.len() && unsorted[b] == pairs@[a];
                }
                assert forall|a: int, b: int| 0 <= a < b < n implies order_key(orig[order@[a] as int]->0, playing_side)
                    <= order_key(orig[order@[b] as int]->0, playing_side) by {
                    assert(pair_le(pairs@[a], pairs@[b]));
                }
                assert forall|a: int, b: int| 0 <= a < n && 0 <= b < n && a != b implies order@[a] != order@[b] by {
                    if order@[a] == order@[b] {
                        assert(pairs@.contains(pairs@[a]) && pairs@.contains(pairs@[b]));
                        let x = choose|x: int| 0 <= x < unsorted.len() && unsorted[x] == pairs@[a];
                        let y = choose|y: int| 0 <= y < unsorted.len() && unsorted[y] == pairs@[b];
                        assert(pairs@[a] == pairs@[b]);
                    }
                }
            }
        } else {
            let mut j: usize = 0;
            while j < n
                invariant
                    j <= n,
                    order@.len() == j,
                    forall|i: int| 0 <= i < j ==> #[trigger] order@[i] == i,
                decreases n - j,
            {
                order.push(j);
                j = j + 1;
            }
            let ghost plain = order@;
            proof {
                assert(plain.no_duplicates());
            }
            shuffle_indices(&mut order);
            proof {
                lemma_permutation(plain, order@);
                assert forall|a: int| 0 <= a < n implies #[trigger] order@[a] < n by {
                    assert(order@.contains(order@[a]));
                    assert(plain.contains(order@[a]));
                }
                assert forall|a: int, b: int| 0 <= a < n && 0 <= b < n && a != b implies order@[a] != order@[b] by {}
            }
        }
        let mut ids: Vec<usize> = Vec::new();
        let mut k: usize = 0;
        while k < n
            invariant
                self.wf(),
                index < start,
                start == old_values.len(),
                start < 0xffff_ffff - 1000,
                n == orig.len(),
                n <= MAX_BRANCHING,
                n == 0 || n == old_values[index as int].available_moves@.len(),
                slots@.len() == n,
                order@.len() == n,
                k <= n,
                forall|a: int| 0 <= a < n ==> #[trigger] order@[a] < n,
                forall|a: int, b: int| 0 <= a < n && 0 <= b < n && a != b ==> order@[a] != order@[b],
                expand_style.0 == 0 ==> forall|a: int, b: int| 0 <= a < b < n ==> order_key(orig[order@[a] as int]->0, playing_side)
                    <= order_key(orig[order@[b] as int]->0, playing_side),
                forall|j: int| 0 <= j < n ==> ((#[trigger] slots@[j]) is Some <==> forall|a: int| 0 <= a < k ==> order@[a] != j),
                forall|j: int| 0 <= j < n && slots@[j] is Some ==> #[trigger] slots@[j] == orig[j],
                forall|j: int| 0 <= j < n ==> (#[trigger] orig[j]) is Some && orig[j]->0.wf() && orig[j]->0.depth == old_values[index as int].depth + 1
                    && orig[j]->0.parent_move == Some(old_values[index as int].available_moves@[j])
                    && child_node(old_values[index as int].position, old_values[index as int].available_moves@[j], orig[j]->0),
                self.values@.len() == start + k,
                ids@.len() == k,
                forall|a: int| 0 <= a < k ==> #[trigger] ids@[a] == start + a,
                forall|a: int| 0 <= a < k ==> #[trigger] self.values@[start + a] == orig[order@[a] as int]->0,
                forall|i: int| 0 <= i < start ==> (#[trigger] self.values@[i]) == old_values[i],
                forall|i: int| 0 <= i < start ==> (#[trigger] self.children@[i]) == old_children[i],
                forall|i: int| start <= i < self.values@.len() ==> self.parent@[i] == Some(index),
                self.depth == old(self).depth,
            decreases n - k,
        {
            let j = order[k];
            let ghost before_slots = slots@;
            let taken = slots[j].take();
            match taken {
                Some(child) => {
                    proof {
                        assert(before_slots[j as int] is Some);
                        assert(child == orig[j as int]->0);
                        assert(child.parent_move is Some);
                    }
                    let id = self.values.len();
                    self.values.push(child);
                    self.parent.push(Some(index));
                    self.children.push(Vec::new());
                    ids.push(id);
                },
                None => {
                    proof {
                        assert(before_slots[j as int] is Some);
                    }
                },
            }
            proof {
                assert forall|jj: int| 0 <= jj < n implies ((#[trigger] slots@[jj]) is Some <==> forall|a: int| 0 <= a < k + 1 ==> order@[a] != jj) by {
                    if jj != j {
                        assert(slots@[jj] == before_slots[jj]);
                    }
                }
            }
            k = k + 1;
        }
        proof {
            assert(self.values@.len() - start == ids@.len());
        }
        self.children.set(index, ids);
        let ghost mid = *self;
        proof {
            assert forall|i: int, kk: int| 0 <= i < self.values@.len() && 0 <= kk < self.children@[i]@.len() implies (#[trigger] self.children@[i]@[kk]) < self.values@.len()
                && self.parent@[self.children@[i]@[kk] as int] == Some(i as usize) by {
                if i == index {
                    assert(self.children@[i]@[kk] == start + kk);
                }
            }
            assert(self.wf());
            assert forall|a: int| 0 <= a < n implies (#[trigger] self.values@[start + a]).parent_move->0 == old_values[index as int].available_moves@[order@[a] as int] by {}
        }
        self.rescore(index);
        proof {
            assert forall|i: int| start <= i < self.values@.len() implies {
                let nd = #[trigger] self.values@[i];
                let p = old_values[index as int];
                &&& nd.depth == p.depth + 1
                &&& nd.parent_move is Some
                &&& p.available_moves@.contains(nd.parent_move->0)
                &&& child_node(p.position, nd.parent_move->0, nd)
            } by {
                let a = i - start;
                assert(mid.values@[start + a] == orig[order@[a] as int]->0);
                assert(self.values@[i] == mid.values@[i]);
                let j = order@[a] as int;
                assert(old_values[index as int].available_moves@[j] == orig[j]->0.parent_move->0);
            }
            assert(mean_score(self.values@, self.children@[index as int]@) == mean_score(mid.values@, mid.children@[index as int]@)) by {
                assert forall|a: int| 0 <= a < self.children@[index as int]@.len() implies
                    self.values@[self.children@[index as int]@[a] as int] == mid.values@[mid.children@[index as int]@[a] as int] by {}
                lemma_mean_same(self.values@, mid.values@, self.children@[index as int]@);
            }
            if expand_style.0 == 0 {
                assert forall|a: int, b: int| start <= a < b < self.values@.len() implies
                    order_key(#[trigger] self.values@[a], playing_side) <= order_key(#[trigger] self.values@[b], playing_side) by {
                    assert(self.values@[a] == mid.values@[a]);
                    assert(self.values@[b] == mid.values@[b]);
                    assert(mid.values@[start + (a - start)] == orig[order@[a - start] as int]->0);
                    assert(mid.values@[start + (b - start)] == orig[order@[b - start] as int]->0);
                }
            }
        }
    }
}

proof fn lemma_mean_same(v1: Seq<Node>, v2: Seq<Node>, ids: Seq<usize>)
    requires
        forall|a: int| 0 <= a < ids.len() ==> v1[ids[a] as int] == v2[ids[a] as int],
    ensures
        mean_score(v1, ids) == mean_score(v2, ids),
{
    assert forall|n: int| 0 <= n <= ids.len() implies score_total(v1, ids, n) == score_total(v2, ids, n) && score_count(v1, ids, n) == score_count(v2, ids, n) by {
        lemma_mean_same_upto(v1, v2, ids, n);
    }
}

proof fn lemma_mean_same_upto(v1: Seq<Node>, v2: Seq<Node>, ids: Seq<usize>, n: int)
    requires
        forall|a: int| 0 <= a < ids.len() ==> v1[ids[a] as int] == v2[ids[a] as int],
        0 <= n <= ids.len(),
    ensures
        score_total(v1, ids, n) == score_total(v2, ids, n),
        score_count(v1, ids, n) == score_count(v2, ids, n),
    decreases n,
{
    if n > 0 {
        lemma_mean_same_upto(v1, v2, ids, n - 1);
    }
}

/// The most nodes a tree grows to; expansion stops there.
pub const MAX_NODES: usize = 0x100_0000;

fn push_unique(v: &mut Vec<usize>, x: usize)
    ensures
        final(v)@.contains(x),
        forall|y: usize| #[trigger] final(v)@.contains(y) <==> old(v)@.contains(y) || y == x,
{
    let mut k: usize = 0;
    while k < v.len()
        invariant
            k <= v@.len(),
            forall|i: int| 0 <= i < k ==> v@[i] != x,
        decreases v@.len() - k,
    {
        if v[k] == x {
            return;
        }
        k = k + 1;
    }
    v.push(x);
    proof {
        assert(v@[v@.len() - 1] == x);
        assert forall|y: usize| #[trigger] v@.contains(y) <==> old(v)@.contains(y) || y == x by {
            if old(v)@.contains(y) {
                let i = choose|i: int| 0 <= i < old(v)@.len() && old(v)@[i] == y;
                assert(v@[i] == y);
            }
            if v@.contains(y) && y != x {
                let i = choose|i: int| 0 <= i < v@.len() && v@[i] == y;
                assert(old(v)@[i] == y);
            }
        }
    }
}

/// The sum of the scores held by the nodes `ids[..n]`.
pub open spec fn score_total(vals: Seq<Node>, ids: Seq<usize>, n: int) -> int
    decreases n,
{
    if n <= 0 {
        0
    } else {
        score_total(vals, ids, n - 1) + match vals[ids[n - 1] as int].score {
            Some(s) => s as int,
            None => 0,
        }
    }
}

/// How many of the nodes `ids[..n]` hold a score.
pub open spec fn score_count(vals: Seq<Node>, ids: Seq<usize>, n: int) -> int
    decreases n,
{
    if n <= 0 {
        0
    } else {
        score_count(vals, ids, n - 1) + if vals[ids[n - 1] as int].score is Some { 1int } else { 0int }
    }
}

/// The mean of the scores the nodes `ids` hold, rounded toward zero; none when none holds one.
pub open spec fn mean_score(vals: Seq<Node>, ids: Seq<usize>) -> Option<i32> {
    let c = score_count(vals, ids, ids.len() as int);
    let t = score_total(vals, ids, ids.len() as int);
    if c == 0 {
        None
    } else if t >= 0 {
        Some((t / c) as i32)
    } else {
        Some((-((-t) / c)) as i32)
    }
}

impl PositionTree {
    /// Sets the score of node `index` to the mean of its children's scores, when it has some.
    fn rescore(&mut self, index: usize)
        requires
            old(self).wf(),
            index < old(self).values@.len(),
        ensures
            final(self).wf(),
            final(self).values@.len() == old(self).values@.len(),
            final(self).children == old(self).children,
            final(self).parent == old(self).parent,
            final(self).depth == old(self).depth,
            forall|i: int| 0 <= i < old(self).values@.len() ==> (#[trigger] final(self).values@[i]).depth == old(self).values@[i].depth
                && final(self).values@[i].game_state == old(self).values@[i].game_state
                && final(self).values@[i].parent_move == old(self).values@[i].parent_move
                && final(self).values@[i].position == old(self).values@[i].position
                && final(self).values@[i].available_moves == old(self).values@[i].available_moves,
            forall|i: int| 0 <= i < old(self).values@.len() && i != index ==> #[trigger] final(self).values@[i] == old(self).values@[i],
            final(self).values@[index as int].score == match mean_score(old(self).values@, old(self).children@[index as int]@) {
                Some(m) => Some(m),
                None => old(self).values@[index as int].score,
            },
    {
        let ghost ids = self.children@[index as int]@;
        let mut total: i64 = 0;
        let mut counted: i64 = 0;
        let mut k: usize = 0;
        let n = self.children[index].len();
        while k < n
            invariant
                self.wf(),
                index < self.values@.len(),
                n == self.children@[index as int]@.len(),
                k <= n,
                0 <= counted <= k,
                n <= MAX_BRANCHING,
                ids == self.children@[index as int]@,
                total == score_total(self.values@, ids, k as int),
                counted == score_count(self.values@, ids, k as int),
                -1_000_000 * counted <= total <= 1_000_000 * counted,
            decreases n - k,
        {
            let c = self.children[index][k];
            proof {
                assert(self.children@[index as int]@[k as int] < self.values@.len());
                assert(self.values@[c as int].wf());
            }
            match self.values[c].score {
                Some(s) => {
                    total = total + s as i64;
                    counted = counted + 1;
                },
                None => {},
            }
            k = k + 1;
        }
        if counted > 0 {
            let magnitude: i64 = if total >= 0 { total } else { -total };
            proof {
                assert(magnitude / counted <= 1_000_000) by (nonlinear_arith)
                    requires 0 <= magnitude <= 1_000_000 * counted, counted > 0;
            }
            let quotient: i64 = magnitude / counted;
            let mean: i32 = if total >= 0 { quotient as i32 } else { -(quotient as i32) };
            let ghost before = self.values@;
            self.values[index].score = Some(mean);
            proof {
                assert forall|i: int| 0 <= i < self.values@.len() implies (#[trigger] self.values@[i]).wf() by {
                    if i == index {
                        assert(before[i].wf());
                        assert(self.values@[i].position == before[i].position);
                        assert(self.values@[i].available_moves == before[i].available_moves);
                        assert(self.values@[i].game_state == before[i].game_state);
                        assert(self.values@[i].score == Some(mean));
                    } else {
                        assert(self.values@[i] == before[i]);
                    }
                }
            }
        }
    }

    /// Walks from each node of `parents` up to the root, setting every node passed to the mean
    /// of its children's scores, deepest first. Returns which nodes were passed: the nodes of
    /// `parents` and every ancestor of them, and no other.
    fn backpropagate(&mut self, parents: Vec<usize>) -> (marked: Vec<bool>)
        requires
            old(self).wf(),
        ensures
            final(self).wf(),
            final(self).values@.len() == old(self).values@.len(),
            final(self).children == old(self).children,
            final(self).parent == old(self).parent,
            final(self).depth == old(self).depth,
            forall|i: int| 0 <= i < old(self).values@.len() ==> (#[trigger] final(self).values@[i]).depth == old(self).values@[i].depth
                && final(self).values@[i].game_state == old(self).values@[i].game_state
                && final(self).values@[i].parent_move == old(self).values@[i].parent_move
                && final(self).values@[i].available_moves == old(self).values@[i].available_moves,
            marked@.len() == old(self).values@.len(),
            forall|k: int| 0 <= k < parents@.len() && parents@[k] < marked@.len() ==> marked@[#[trigger] parents@[k] as int],
            forall|i: int| 0 <= i < marked@.len() && #[trigger] marked@[i] && old(self).parent@[i] is Some ==> marked@[old(self).parent@[i]->0 as int],
            forall|i: int| 0 <= i < marked@.len() && #[trigger] marked@[i] ==> parents@.contains(i as usize) || exists|c: int|
                i < c < marked@.len() && #[trigger] marked@[c] && old(self).parent@[c] == Some(i as usize),
            forall|i: int| 0 <= i < marked@.len() && !#[trigger] marked@[i] ==> final(self).values@[i] == old(self).values@[i],
            forall|i: int| 0 <= i < marked@.len() && #[trigger] marked@[i] ==> final(self).values@[i].score == match mean_score(
                final(self).values@,
                final(self).children@[i]@,
            ) {
                Some(m) => Some(m),
                None => old(self).values@[i].score,
            },
    {
        let ghost start = *self;
        let n = self.values.len();
        let mut marked: Vec<bool> = Vec::new();
        let mut i: usize = 0;
        while i < n
            invariant
                i <= n,
                marked@.len() == i,
                forall|j: int| 0 <= j < i ==> #[trigger] marked@[j] == parents@.contains(j as usize),
            decreases n - i,
        {
            let mut found = false;
            let mut k: usize = 0;
            while k < parents.len()
                invariant
                    k <= parents@.len(),
                    found == exists|q: int| 0 <= q < k && parents@[q] == i,
                decreases parents@.len() - k,
            {
                if parents[k] == i {
                    found = true;
                }
                k = k + 1;
            }
            marked.push(found);
            i = i + 1;
        }
        let mut k: usize = n;
        while k > 0
            invariant
                self.wf(),
                n == self.values@.len(),
                n == start.values@.len(),
                k <= n,
                marked@.len() == n,
                self.children == start.children,
                self.parent == start.parent,
                self.depth == start.depth,
                forall|j: int| 0 <= j < n ==> (#[trigger] self.values@[j]).depth == start.values@[j].depth
                    && self.values@[j].game_state == start.values@[j].game_state
                    && self.values@[j].parent_move == start.values@[j].parent_move
                    && self.values@[j].available_moves == start.values@[j].available_moves,
                forall|q: int| 0 <= q < parents@.len() && parents@[q] < n ==> marked@[#[trigger] parents@[q] as int],
                forall|j: int| k <= j < n && #[trigger] marked@[j] && start.parent@[j] is Some ==> marked@[start.parent@[j]->0 as int],
                forall|j: int| 0 <= j < n && #[trigger] marked@[j] ==> parents@.contains(j as usize) || exists|c: int|
                    j < c < n && #[trigger] marked@[c] && start.parent@[c] == Some(j as usize),
                forall|j: int| 0 <= j < n && (j < k || !marked@[j]) ==> #[trigger] self.values@[j] == start.values@[j],
                forall|j: int| k <= j < n && #[trigger] marked@[j] ==> self.values@[j].score == match mean_score(
                    self.values@,
                    self.children@[j]@,
                ) {
                    Some(m) => Some(m),
                    None => start.values@[j].score,
                },
            decreases k,
        {
            k = k - 1;
            if marked[k] {
                let ghost before = *self;
                self.rescore(k);
                match self.parent[k] {
                    Some(q) => {
                        proof {
                            assert(q < k);
                        }
                        let ghost bm = marked@;
                        marked.set(q, true);
                        proof {
                            assert forall|j: int| 0 <= j < n && #[trigger] marked@[j] implies parents@.contains(j as usize) || exists|c: int|
                                j < c < n && #[trigger] marked@[c] && start.parent@[c] == Some(j as usize) by {
                                if j == q && !bm[j] {
                                    assert(marked@[k as int] && start.parent@[k as int] == Some(j as usize));
                                } else {
                                    assert(bm[j]);
                                    if !parents@.contains(j as usize) {
                                        let c = choose|c: int| j < c < n && #[trigger] bm[c] && start.parent@[c] == Some(j as usize);
                                        assert(marked@[c]);
                                    }
                                }
                            }
                        }
                    },
                    None => {},
                }
                proof {
                    assert forall|j: int| k <= j < n && #[trigger] marked@[j] implies self.values@[j].score == match mean_score(
                        self.values@,
                        self.children@[j]@,
                    ) {
                        Some(m) => Some(m),
                        None => start.values@[j].score,
                    } by {
                        assert forall|a: int| 0 <= a < self.children@[j]@.len() implies self.values@[self.children@[j]@[a] as int]
                            == before.values@[self.children@[j]@[a] as int] by {
                            assert(self.parent@[self.children@[j]@[a] as int] == Some(j as usize));
                            assert(self.children@[j]@[a] > j);
                        }
                        lemma_mean_same(self.values@, before.values@, self.children@[j]@);
                    }
                }
            }
        }
        marked
    }
}


/// The key that orders root moves for `playing`: larger is better for the playing side.
pub open spec fn result_key(n: Node, playing: Side) -> int {
    match n.score {
        Some(s) => if playing.0 == 0 { s as int } else { -s },
        None => 0,
    }
}

/// `x` comes before `y` among the children `ch`.
pub open spec fn earlier(ch: Seq<usize>, x: usize, y: usize) -> bool {
    exists|i: int, j: int| 0 <= i < j < ch.len() && #[trigger] ch[i] == x && #[trigger] ch[j] == y
}

/// Child `x` ranks before child `y` for `playing`: a better score, or an equal one and earlier.
pub open spec fn ranks_before(ch: Seq<usize>, vals: Seq<Node>, playing: Side, x: usize, y: usize) -> bool {
    result_key(vals[x as int], playing) > result_key(vals[y as int], playing) || (result_key(vals[x as int], playing)
        == result_key(vals[y as int], playing) && earlier(ch, x, y))
}

impl PositionTree {
    /// Node `i` is at the tree's depth and in play (in check or ongoing).
    pub open spec fn frontier_node(&self, i: int) -> bool {
        0 <= i < self.values@.len() && self.values@[i].depth == self.depth && (self.values@[i].game_state.0 == 1
            || self.values@[i].game_state.0 == 3)
    }

    pub open spec fn has_frontier(&self) -> bool {
        exists|i: int| 0 <= i < self.values@.len() && #[trigger] self.frontier_node(i)
    }

    /// Expansion has met a limit: the tree is full, at the deepest depth, or a node in play at
    /// its depth lists more moves than a node can be expanded with.
    pub open spec fn at_limit(&self) -> bool {
        ||| self.values@.len() >= MAX_NODES
        ||| self.depth == 255
        ||| exists|i: int| #[trigger] self.frontier_node(i) && self.values@[i].available_moves@.len() > MAX_BRANCHING
    }
}

/// A tree whose root has not been expanded, asked to go deeper: its root is in play, lists no
/// more moves than a node can be expanded with, and the tree has room.
pub open spec fn root_expandable(t: PositionTree, depth: u8) -> bool {
    &&& t.depth == 0
    &&& depth > 0
    &&& (t.values@[0].game_state.0 == 1 || t.values@[0].game_state.0 == 3)
    &&& t.values@[0].available_moves@.len() <= MAX_BRANCHING
    &&& t.values@.len() < MAX_NODES
}

impl PositionTree {
    /// `moves` are the moves to the root's children `ids`, best first for `playing`.
    /// The ids are distinct root children whose moves are `moves`, best first for `playing`
    /// (equal scores in the order of the children), and no child left out is better than the
    /// last one taken, or as good and earlier.
    pub open spec fn ranked_by(&self, ids: Seq<usize>, moves: Seq<Move>, playing: Side) -> bool {
        let ch = self.children@[0]@;
        &&& ids.len() == moves.len()
        &&& ids.no_duplicates()
        &&& forall|k: int| 0 <= k < ids.len() ==> ch.contains(#[trigger] ids[k])
        &&& forall|k: int| 0 <= k < ids.len() ==> self.values@[ids[k] as int].parent_move == Some(#[trigger] moves[k])
        &&& forall|k: int| 0 <= k < ids.len() ==> self.values@[0].available_moves@.contains(#[trigger] moves[k])
        &&& forall|a: int, b: int| 0 <= a < b < ids.len() ==> ranks_before(ch, self.values@, playing, #[trigger] ids[a], #[trigger] ids[b])
        &&& ids.len() > 0 ==> forall|c: usize| #[trigger] ch.contains(c) && !ids.contains(c) ==> ranks_before(ch, self.values@, playing, ids.last(), c)
    }

    /// `moves` lead to root children, best first for `playing`, as many as `w_all` of the number
    /// of the root's children.
    pub open spec fn ranks_root_moves(&self, moves: Seq<Move>, playing: Side) -> bool {
        &&& exists|ids: Seq<usize>| self.ranked_by(ids, moves, playing)
        &&& self.children@[0]@.len() <= 0xffff_ffff ==> exists|root: int| is_isqrt(self.children@[0]@.len() as int, root)
            && moves.len() == w_all(self.children@[0]@.len() as int, root)
    }

    /// The nodes at the tree's current depth to expand next: every one in check, then as many
    /// ongoing ones as `w_all` of their number allows.
    fn get_all_nodes_to_expand(&self) -> (r: Vec<usize>)
        requires
            self.wf(),
        ensures
            (self.values@[0].depth == self.depth && (self.values@[0].game_state.0 == 1 || self.values@[0].game_state.0 == 3))
                ==> r@.contains(0),
            r@.len() == 0 ==> !self.has_frontier(),
            forall|k: int| 0 <= k < r@.len() ==> (#[trigger] r@[k]) < self.values@.len()
                && self.values@[r@[k] as int].depth == self.depth
                && (self.values@[r@[k] as int].game_state.0 == 1 || self.values@[r@[k] as int].game_state.0 == 3),
    {
        let mut checks: Vec<usize> = Vec::new();
        let mut ongoing: Vec<usize> = Vec::new();
        let mut i: usize = 0;
        while i < self.values.len()
            invariant
                self.wf(),
                i <= self.values@.len(),
                forall|k: int| 0 <= k < checks@.len() ==> (#[trigger] checks@[k]) < i && self.values@[checks@[k] as int].depth == self.depth
                    && self.values@[checks@[k] as int].game_state.0 == 1,
                forall|k: int| 0 <= k < ongoing@.len() ==> (#[trigger] ongoing@[k]) < i && self.values@[ongoing@[k] as int].depth == self.depth
                    && self.values@[ongoing@[k] as int].game_state.0 == 3,
                ongoing@.len() <= i,
                i > 0 && self.values@[0].depth == self.depth && self.values@[0].game_state.0 == 1 ==> checks@.len() > 0 && checks@[0] == 0,
                i > 0 && self.values@[0].depth == self.depth && self.values@[0].game_state.0 == 3 ==> ongoing@.len() > 0 && ongoing@[0] == 0,
                checks@.len() == 0 && ongoing@.len() == 0 ==> forall|j: int| 0 <= j < i ==> !self.frontier_node(j),
            decreases self.values@.len() - i,
        {
            let node = &self.values[i];
            if node.depth == self.depth {
                if node.game_state.0 == 1 {
                    checks.push(i);
                } else if node.game_state.0 == 3 {
                    ongoing.push(i);
                }
            }
            i = i + 1;
        }
        let limit = if ongoing.len() <= 0xffff_ffff { calculate_all_moves_to_expand(ongoing.len()) } else { ongoing.len() };
        proof {
            if ongoing@.len() > 0 && ongoing@.len() <= 0xffff_ffff {
                let root = choose|root: int| is_isqrt(ongoing@.len() as int, root) && limit == w_all(ongoing@.len() as int, root);
                assert(root >= 1) by (nonlinear_arith)
                    requires is_isqrt(ongoing@.len() as int, root), ongoing@.len() >= 1;
            }
        }
        let ghost checks0 = checks@;
        let mut k: usize = 0;
        while k < limit && k < ongoing.len()
            invariant
                k <= ongoing@.len(),
                ongoing@.len() > 0 ==> limit > 0,
                checks@.len() == checks0.len() + k,
                forall|j: int| 0 <= j < checks0.len() ==> #[trigger] checks@[j] == checks0[j],
                forall|j: int| 0 <= j < k ==> #[trigger] checks@[checks0.len() + j] == ongoing@[j],
                forall|j: int| 0 <= j < checks@.len() ==> (#[trigger] checks@[j]) < self.values@.len() && self.values@[checks@[j] as int].depth == self.depth
                    && (self.values@[checks@[j] as int].game_state.0 == 1 || self.values@[checks@[j] as int].game_state.0 == 3),
                forall|j: int| 0 <= j < ongoing@.len() ==> (#[trigger] ongoing@[j]) < self.values@.len() && self.values@[ongoing@[j] as int].depth == self.depth
                    && self.values@[ongoing@[j] as int].game_state.0 == 3,
            decreases ongoing@.len() - k,
        {
            checks.push(ongoing[k]);
            k = k + 1;
        }
        proof {
            if checks@.len() == 0 && self.has_frontier() {
                let j = choose|j: int| 0 <= j < self.values@.len() && #[trigger] self.frontier_node(j);
                assert(checks0.len() == 0);
                assert(ongoing@.len() > 0);
                assert(checks@[checks0.len() as int] == ongoing@[0]);
            }
            if self.values@[0].depth == self.depth && self.values@[0].game_state.0 == 1 {
                assert(checks@[0] == 0);
            }
            if self.values@[0].depth == self.depth && self.values@[0].game_state.0 == 3 {
                assert(checks@[checks0.len() as int] == 0);
            }
        }
        checks
    }

    /// The children of node `index` to expand next: every one in check, then as many ongoing
    /// ones, in their order, as `w_child` of the number of children allows; none for a
    /// decided node.
    fn get_nodes_to_expand(&self, index: usize) -> (r: Vec<usize>)
        requires
            self.wf(),
            index < self.values@.len(),
        ensures
            forall|k: int| 0 <= k < r@.len() ==> (#[trigger] r@[k]) < self.values@.len()
                && (self.values@[r@[k] as int].game_state.0 == 1 || self.values@[r@[k] as int].game_state.0 == 3),
            forall|k: int| 0 <= k < r@.len() ==> (#[trigger] r@[k]) != 0,
    {
        let mut result: Vec<usize> = Vec::new();
        let state = self.values[index].game_state.0;
        if state == 0 || state == 2 {
            return result;
        }
        let children = &self.children[index];
        let mut ongoing: Vec<usize> = Vec::new();
        let mut k: usize = 0;
        while k < children.len()
            invariant
                self.wf(),
                index < self.values@.len(),
                *children == self.children@[index as int],
                k <= children@.len(),
                forall|j: int| 0 <= j < result@.len() ==> (#[trigger] result@[j]) < self.values@.len()
                    && self.values@[result@[j] as int].game_state.0 == 1,
                forall|j: int| 0 <= j < ongoing@.len() ==> (#[trigger] ongoing@[j]) < self.values@.len()
                    && self.values@[ongoing@[j] as int].game_state.0 == 3,
                forall|j: int| 0 <= j < result@.len() ==> (#[trigger] result@[j]) != 0,
                forall|j: int| 0 <= j < ongoing@.len() ==> (#[trigger] ongoing@[j]) != 0,
            decreases children@.len() - k,
        {
            let c = children[k];
            proof {
                assert(self.parent@[self.children@[index as int]@[k as int] as int] == Some(index));
                assert(c != 0);
            }
            let s = self.values[c].game_state.0;
            if s == 1 {
                result.push(c);
            } else if s == 3 {
                ongoing.push(c);
            }
            k = k + 1;
        }
        let limit = if children.len() <= 0xffff_ffff { calculate_moves_to_expand(children.len()) } else { children.len() };
        let mut k: usize = 0;
        while k < limit && k < ongoing.len()
            invariant
                k <= ongoing@.len(),
                forall|j: int| 0 <= j < result@.len() ==> (#[trigger] result@[j]) < self.values@.len()
                    && (self.values@[result@[j] as int].game_state.0 == 1 || self.values@[result@[j] as int].game_state.0 == 3),
                forall|j: int| 0 <= j < ongoing@.len() ==> (#[trigger] ongoing@[j]) < self.values@.len()
                    && self.values@[ongoing@[j] as int].game_state.0 == 3,
                forall|j: int| 0 <= j < result@.len() ==> (#[trigger] result@[j]) != 0,
                forall|j: int| 0 <= j < ongoing@.len() ==> (#[trigger] ongoing@[j]) != 0,
            decreases ongoing@.len() - k,
        {
            result.push(ongoing[k]);
            k = k + 1;
        }
        result
    }

    /// The root's children, best first for `playing_side` (equal scores in their order), cut to
    /// `w_all` of their number.
    fn ranked_root_children(&self, playing_side: Side) -> (r: Vec<usize>)
        requires
            self.wf(),
        ensures
            r@.no_duplicates(),
            forall|k: int| 0 <= k < r@.len() ==> self.children@[0]@.contains(#[trigger] r@[k]),
            forall|a: int, b: int| 0 <= a < b < r@.len() ==> ranks_before(self.children@[0]@, self.values@, playing_side, #[trigger] r@[a], #[trigger] r@[b]),
            r@.len() > 0 ==> forall|c: usize| #[trigger] self.children@[0]@.contains(c) && !r@.contains(c)
                ==> ranks_before(self.children@[0]@, self.values@, playing_side, r@.last(), c),
            r@.len() <= self.children@[0]@.len(),
            self.children@[0]@.len() <= 0xffff_ffff ==> exists|root: int| is_isqrt(self.children@[0]@.len() as int, root)
                && r@.len() == w_all(self.children@[0]@.len() as int, root),
    {
        let children = &self.children[0];
        let ghost ch = children@;
        let n = children.len();
        let mut pairs: Vec<(i64, usize)> = Vec::new();
        let mut k: usize = 0;
        while k < n
            invariant
                self.wf(),
                *children == self.children@[0],
                ch == children@,
                n == ch.len(),
                k <= n,
                pairs@.len() == k,
                forall|j: int| 0 <= j < k ==> (#[trigger] pairs@[j]).1 == j && pairs@[j].0 == -result_key(self.values@[ch[j] as int], playing_side),
            decreases n - k,
        {
            let c = children[k];
            proof {
                assert(self.children@[0]@[k as int] < self.values@.len());
                assert(self.values@[c as int].wf());
            }
            let key: i64 = match self.values[c].score {
                Some(s) => if playing_side.0 == 0 { -(s as i64) } else { s as i64 },
                None => 0,
            };
            pairs.push((key, k));
            k = k + 1;
        }
        let ghost unsorted = pairs@;
        proof {
            assert(unsorted.no_duplicates()) by {
                assert forall|a: int, b: int| 0 <= a < unsorted.len() && 0 <= b < unsorted.len() && a != b implies unsorted[a] != unsorted[b] by {
                    assert(unsorted[a].1 == a && unsorted[b].1 == b);
                }
            }
        }
        sort_pairs(&mut pairs);
        proof {
            lemma_permutation(unsorted, pairs@);
            assert forall|a: int| 0 <= a < n implies (#[trigger] pairs@[a]).1 < n
                && pairs@[a].0 == -result_key(self.values@[ch[pairs@[a].1 as int] as int], playing_side) by {
                assert(pairs@.contains(pairs@[a]));
                let b = choose|b: int| 0 <= b < unsorted.len() && unsorted[b] == pairs@[a];
            }
            assert forall|a: int, b: int| 0 <= a < n && 0 <= b < n && a != b implies pairs@[a].1 != pairs@[b].1 by {
                if pairs@[a].1 == pairs@[b].1 {
                    assert(pairs@[a] == pairs@[b]);
                }
            }
        }
        let limit = if n <= 0xffff_ffff { calculate_all_moves_to_expand(n) } else { n };
        let mut ranked: Vec<usize> = Vec::new();
        let mut q: usize = 0;
        while q < limit
            invariant
                self.wf(),
                *children == self.children@[0],
                ch == children@,
                n == ch.len(),
                pairs@.len() == n,
                limit <= n,
                q <= limit,
                ranked@.len() == q,
                forall|a: int| 0 <= a < n ==> (#[trigger] pairs@[a]).1 < n,
                forall|a: int| 0 <= a < q ==> #[trigger] ranked@[a] == ch[pairs@[a].1 as int],
            decreases limit - q,
        {
            let p = pairs[q].1;
            ranked.push(children[p]);
            q = q + 1;
        }
        proof {
            let chs = ch;
            assert(chs.no_duplicates());
            // positions of ranked children
            assert forall|a: int, b: int| 0 <= a < ranked@.len() && 0 <= b < ranked@.len() && a != b implies ranked@[a] != ranked@[b] by {
                assert(pairs@[a].1 != pairs@[b].1);
            }
            assert forall|k: int| 0 <= k < ranked@.len() implies ch.contains(#[trigger] ranked@[k]) by {
                assert(ch[pairs@[k].1 as int] == ranked@[k]);
            }
            assert forall|a: int, b: int| 0 <= a < b < ranked@.len() implies ranks_before(ch, self.values@, playing_side, #[trigger] ranked@[a], #[trigger] ranked@[b]) by {
                assert(pair_le(pairs@[a], pairs@[b]));
                assert(pairs@[a].1 != pairs@[b].1);
                if pairs@[a].0 == pairs@[b].0 {
                    let i = pairs@[a].1 as int;
                    let j = pairs@[b].1 as int;
                    assert(ch[i] == ranked@[a] && ch[j] == ranked@[b]);
                    assert(earlier(ch, ranked@[a], ranked@[b]));
                }
            }
            if ranked@.len() > 0 {
                let last = ranked@.len() - 1;
                assert forall|c: usize| #[trigger] ch.contains(c) && !ranked@.contains(c) implies ranks_before(ch, self.values@, playing_side, ranked@.last(), c) by {
                    let j = choose|j: int| 0 <= j < ch.len() && ch[j] == c;
                    let pj: (i64, usize) = unsorted[j];
                    assert(unsorted[j] == pj);
                    assert(unsorted.contains(pj));
                    assert(pairs@.contains(pj));
                    let q2 = choose|q2: int| 0 <= q2 < pairs@.len() && pairs@[q2] == pj;
                    if q2 < ranked@.len() {
                        assert(ranked@[q2] == c);
                        assert(false);
                    }
                    assert(pair_le(pairs@[last], pairs@[q2]));
                    assert(pairs@[last].1 != pairs@[q2].1);
                    if pairs@[last].0 == pairs@[q2].0 {
                        let i = pairs@[last].1 as int;
                        assert(ch[i] == ranked@.last());
                        assert(earlier(ch, ranked@.last(), c));
                    }
                }
            }
        }
        ranked
    }

    /// Expands the tree best-first until it reaches `depth` or nothing is left to expand, then
    /// returns the root's moves, best first for `playing_side`, cut to `w_all` of their number.
    pub fn expand_to_depth(&mut self, depth: u8, expand_style: ExpandStyle, playing_side: Side, tables: &AttackTables) -> (r: Vec<Move>)
        requires
            old(self).wf(),
            tables.wf(),
        ensures
            final(self).wf(),
            final(self).ranks_root_moves(r@, playing_side),
            root_expandable(*old(self), depth) ==> final(self).children@[0]@.len() == old(self).values@[0].available_moves@.len(),
            final(self).depth >= depth || !final(self).has_frontier() || final(self).at_limit(),
    {
        let ghost start = *self;
        while self.depth < depth
            invariant
                self.wf(),
                tables.wf(),
                self.values@[0].available_moves == start.values@[0].available_moves,
                self.values@[0].game_state == start.values@[0].game_state,
                root_expandable(start, depth) ==> (self.depth == 0 && self.values@.len() == start.values@.len())
                    || self.children@[0]@.len() == start.values@[0].available_moves@.len(),
            ensures
                self.wf(),
                root_expandable(start, depth) ==> self.children@[0]@.len() == start.values@[0].available_moves@.len(),
                self.depth >= depth || !self.has_frontier() || self.at_limit(),
            decreases depth - self.depth,
        {
            let nodes = self.get_all_nodes_to_expand();
            proof {
                if root_expandable(start, depth) && self.depth == 0 {
                    assert(nodes@.contains(0));
                    assert forall|j: int| 0 <= j < nodes@.len() implies #[trigger] nodes@[j] == 0 by {
                        if nodes@[j] != 0 {
                            assert(self.values@[nodes@[j] as int].depth >= 1);
                        }
                    }
                }
            }
            if nodes.len() == 0 {
                break;
            }
            let ghost d0 = self.depth;
            let ghost pass_start = *self;
            let mut parents: Vec<usize> = Vec::new();
            let mut grew = false;
            let mut k: usize = 0;
            while k < nodes.len()
                invariant
                    self.wf(),
                    tables.wf(),
                    self.depth == d0,
                    d0 < depth,
                    forall|j: int| 0 <= j < nodes@.len() ==> (#[trigger] nodes@[j]) < self.values@.len(),
                    forall|j: int| 0 <= j < nodes@.len() ==> self.values@[#[trigger] nodes@[j] as int].depth == d0,
                    self.values@[0].available_moves == start.values@[0].available_moves,
                    self.values@[0].game_state == start.values@[0].game_state,
                    self.values@[0].depth == 0,
                    d0 > 0 ==> self.children@[0] == pass_start.children@[0],
                    root_expandable(start, depth) && d0 == 0 ==> nodes@.len() > 0 && forall|j: int| 0 <= j < nodes@.len() ==> #[trigger] nodes@[j] == 0,
                    root_expandable(start, depth) && d0 == 0 && k > 0 ==> self.children@[0]@.len() == start.values@[0].available_moves@.len() && grew,
                    root_expandable(start, depth) && d0 == 0 && k == 0 ==> self.values@.len() < MAX_NODES
                        || self.children@[0]@.len() == start.values@[0].available_moves@.len(),
                    root_expandable(start, depth) && d0 > 0 ==> self.children@[0]@.len() == start.values@[0].available_moves@.len(),
                    nodes@.len() > 0,
                    self.values@[nodes@[0] as int].depth == d0,
                    self.values@[nodes@[0] as int].available_moves == pass_start.values@[nodes@[0] as int].available_moves,
                    self.values@[nodes@[0] as int].game_state == pass_start.values@[nodes@[0] as int].game_state,
                    pass_start.frontier_node(nodes@[0] as int),
                    self.values@.len() >= pass_start.values@.len(),
                    k > 0 && !grew ==> (d0 == 255 || pass_start.values@[nodes@[0] as int].available_moves@.len() > MAX_BRANCHING),
                ensures
                    self.wf(),
                    !grew ==> self.values@.len() >= MAX_NODES || d0 == 255 || pass_start.values@[nodes@[0] as int].available_moves@.len() > MAX_BRANCHING,
                    self.depth == d0,
                    self.values@[0].available_moves == start.values@[0].available_moves,
                    self.values@[0].game_state == start.values@[0].game_state,
                    root_expandable(start, depth) ==> self.children@[0]@.len() == start.values@[0].available_moves@.len(),
                decreases nodes@.len() - k,
            {
                let node = nodes[k];
                if self.values.len() >= MAX_NODES {
                    break;
                }
                let before = self.values.len();
                self.expand_node(node, expand_style, playing_side, tables);
                if self.values.len() > before {
                    grew = true;
                }
                proof {
                    if root_expandable(start, depth) && d0 == 0 {
                        assert(node == 0);
                        assert(start.values@[0].available_moves@.len() > 0);
                    }
                    if k == 0 && !grew {
                        assert(pass_start.values@[node as int].available_moves@.len() > 0);
                    }
                }
                match self.parent[node] {
                    Some(p) => push_unique(&mut parents, p),
                    None => {},
                }
                k = k + 1;
            }
            proof {
                if root_expandable(start, depth) {
                    assert(self.children@[0]@.len() == start.values@[0].available_moves@.len());
                }
            }
            let ghost before_back = *self;
            self.backpropagate(parents);
            if !grew {
                proof {
                    let f = nodes@[0] as int;
                    if before_back.values@.len() < MAX_NODES && d0 != 255 {
                        assert(self.frontier_node(f));
                        assert(self.values@[f].available_moves@.len() > MAX_BRANCHING);
                    }
                }
                break;
            }
            self.depth = self.depth + 1;
        }
        let ranked = self.ranked_root_children(playing_side);
        let moves = self.root_moves(&ranked);
        proof {
            assert(self.ranked_by(ranked@, moves@, playing_side));
        }
        moves
    }

    /// The moves that lead to the nodes `ids`, each a child of the root.
    fn root_moves(&self, ids: &Vec<usize>) -> (r: Vec<Move>)
        requires
            self.wf(),
            forall|k: int| 0 <= k < ids@.len() ==> self.children@[0]@.contains(#[trigger] ids@[k]),
        ensures
            r@.len() == ids@.len(),
            forall|k: int| 0 <= k < r@.len() ==> self.values@[ids@[k] as int].parent_move == Some(#[trigger] r@[k]),
    {
        let mut moves: Vec<Move> = Vec::new();
        let mut k: usize = 0;
        while k < ids.len()
            invariant
                self.wf(),
                forall|j: int| 0 <= j < ids@.len() ==> self.children@[0]@.contains(#[trigger] ids@[j]),
                k <= ids@.len(),
                moves@.len() == k,
                forall|j: int| 0 <= j < k ==> self.values@[ids@[j] as int].parent_move == Some(#[trigger] moves@[j]),
            decreases ids@.len() - k,
        {
            let c = ids[k];
            proof {
                assert(self.children@[0]@.contains(c));
                let i = choose|i: int| 0 <= i < self.children@[0]@.len() && self.children@[0]@[i] == c;
                assert(self.children@[0]@[i] < self.values@.len());
                assert(self.parent@[c as int] == Some(0usize));
                assert(c != 0);
            }
            let m = match self.values[c].parent_move {
                Some(m) => m,
                None => Move::quiet(0, 0),
            };
            moves.push(m);
            k = k + 1;
        }
        moves
    }
}


impl PositionTree {
    /// Like `expand_to_depth`, but past the root each pass expands, below every parent of the
    /// frontier, the children that `get_nodes_to_expand` picks; the root's moves come back
    /// with their scores.
    pub fn expand_to_depth_v2(&mut self, depth: u8, expand_style: ExpandStyle, playing_side: Side, tables: &AttackTables) -> (r: Vec<(Move, i32)>)
        requires
            old(self).wf(),
            tables.wf(),
        ensures
            final(self).wf(),
            final(self).ranks_root_moves(r@.map_values(|x: (Move, i32)| x.0), playing_side),
            root_expandable(*old(self), depth) ==> final(self).children@[0]@.len() == old(self).values@[0].available_moves@.len(),
    {
        let ghost start = *self;
        while self.depth < depth
            invariant
                self.wf(),
                tables.wf(),
                self.values@[0].available_moves == start.values@[0].available_moves,
                self.values@[0].game_state == start.values@[0].game_state,
                root_expandable(start, depth) ==> (self.depth == 0 && self.values@.len() == start.values@.len())
                    || self.children@[0]@.len() == start.values@[0].available_moves@.len(),
            ensures
                self.wf(),
                root_expandable(start, depth) ==> self.children@[0]@.len() == start.values@[0].available_moves@.len(),
            decreases depth - self.depth,
        {
            let frontier = self.get_all_nodes_to_expand();
            proof {
                if root_expandable(start, depth) && self.depth == 0 {
                    assert(frontier@.contains(0));
                    assert forall|j: int| 0 <= j < frontier@.len() implies #[trigger] frontier@[j] == 0 by {
                        if frontier@[j] != 0 {
                            assert(self.values@[frontier@[j] as int].depth >= 1);
                        }
                    }
                }
            }
            if frontier.len() == 0 {
                break;
            }
            let ghost d0 = self.depth;
            let ghost pass_start = *self;
            let mut parents: Vec<usize> = Vec::new();
            let mut k: usize = 0;
            while k < frontier.len()
                invariant
                    self.wf(),
                    forall|j: int| 0 <= j < frontier@.len() ==> (#[trigger] frontier@[j]) < self.values@.len(),
                    forall|j: int| 0 <= j < parents@.len() ==> (#[trigger] parents@[j]) < self.values@.len(),
                    root_expandable(start, depth) && d0 == 0 ==> parents@.len() == 0 && forall|j: int| 0 <= j < frontier@.len() ==> #[trigger] frontier@[j] == 0,
                decreases frontier@.len() - k,
            {
                match self.parent[frontier[k]] {
                    Some(p) => {
                        proof {
                            assert(p < frontier@[k as int]);
                        }
                        let ghost before = parents@;
                        push_unique(&mut parents, p);
                        proof {
                            assert forall|j: int| 0 <= j < parents@.len() implies (#[trigger] parents@[j]) < self.values@.len() by {
                                assert(parents@.contains(parents@[j]));
                                if parents@[j] != p {
                                    assert(before.contains(parents@[j]));
                                }
                            }
                        }
                    },
                    None => {},
                }
                k = k + 1;
            }
            let mut grew = false;
            if parents.len() == 0 {
                if self.values.len() < MAX_NODES {
                    let before = self.values.len();
                    self.expand_node(0, expand_style, playing_side, tables);
                    grew = self.values.len() > before;
                }
                proof {
                    if root_expandable(start, depth) && d0 == 0 {
                        assert(self.children@[0]@.len() == start.values@[0].available_moves@.len());
                    }
                }
            } else {
                let mut k: usize = 0;
                while k < parents.len()
                    invariant
                        self.wf(),
                        tables.wf(),
                        self.depth == d0,
                        d0 < depth,
                        forall|j: int| 0 <= j < parents@.len() ==> (#[trigger] parents@[j]) < self.values@.len(),
                        self.values@[0].available_moves == start.values@[0].available_moves,
                        self.values@[0].game_state == start.values@[0].game_state,
                        self.children@[0] == pass_start.children@[0],
                    decreases parents@.len() - k,
                {
                    let selected = self.get_nodes_to_expand(parents[k]);
                    let mut j: usize = 0;
                    while j < selected.len()
                        invariant
                            self.wf(),
                            tables.wf(),
                            self.depth == d0,
                            d0 < depth,
                            forall|i: int| 0 <= i < selected@.len() ==> (#[trigger] selected@[i]) < self.values@.len(),
                            forall|i: int| 0 <= i < parents@.len() ==> (#[trigger] parents@[i]) < self.values@.len(),
                            forall|i: int| 0 <= i < selected@.len() ==> (#[trigger] selected@[i]) != 0,
                            self.values@[0].available_moves == start.values@[0].available_moves,
                            self.values@[0].game_state == start.values@[0].game_state,
                            self.children@[0] == pass_start.children@[0],
                        decreases selected@.len() - j,
                    {
                        if self.values.len() >= MAX_NODES {
                            break;
                        }
                        let before = self.values.len();
                        self.expand_node(selected[j], expand_style, playing_side, tables);
                        if self.values.len() > before {
                            grew = true;
                        }
                        j = j + 1;
                    }
                    k = k + 1;
                }
            }
            self.backpropagate(parents);
            if !grew {
                break;
            }
            self.depth = self.depth + 1;
        }
        let ranked = self.ranked_root_children(playing_side);
        let moves = self.root_moves(&ranked);
        let mut result: Vec<(Move, i32)> = Vec::new();
        let mut k: usize = 0;
        while k < ranked.len()
            invariant
                self.wf(),
                forall|j: int| 0 <= j < ranked@.len() ==> self.children@[0]@.contains(#[trigger] ranked@[j]),
                moves@.len() == ranked@.len(),
                k <= ranked@.len(),
                result@.len() == k,
                forall|j: int| 0 <= j < k ==> (#[trigger] result@[j]).0 == moves@[j],
                forall|j: int| 0 <= j < k ==> Some((#[trigger] result@[j]).1) == self.values@[ranked@[j] as int].score
                    || (self.values@[ranked@[j] as int].score is None && result@[j].1 == 0),
            decreases ranked@.len() - k,
        {
            let c = ranked[k];
            proof {
                assert(self.children@[0]@.contains(c));
                let i = choose|i: int| 0 <= i < self.children@[0]@.len() && self.children@[0]@[i] == c;
                assert(self.children@[0]@[i] < self.values@.len());
            }
            let score = match self.values[c].score {
                Some(s) => s,
                None => 0,
            };
            result.push((moves[k], score));
            k = k + 1;
        }
        proof {
            assert(result@.map_values(|x: (Move, i32)| x.0) =~= moves@);
            assert(self.ranked_by(ranked@, moves@, playing_side));
        }
        result
    }
}

} // verus!
