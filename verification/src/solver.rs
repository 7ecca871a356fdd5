//! The A* search engine, in three node-ownership flavors sharing one
//! contract: an index-addressed arena (`SolverArena`), reference-counted
//! nodes (`SolverRc`), and a deliberately simple variant built on plain
//! vectors (`SolverSlow`).
//!
//! All three deduplicate visited states by the packed canonical hash, which
//! on well-formed boards of a supported size identifies a configuration
//! exactly (see [`crate::puzzle::lemma_hash_injective`]); the frontier is a
//! vector kept ordered by f-cost, popped from its cheap end, with ties
//! between equal-f nodes broken by insertion order, i.e. by the fixed
//! neighbor-generation order of blank slides right, left, down, up.
//!
//! One deliberate difference from the textbook loop: a node popped for a
//! state that was already expanded is counted and discarded, not expanded
//! again.  Re-expanding such a stale duplicate could only re-push neighbors
//! that an earlier expansion already covered, and discarding it gives every
//! search loop a provable termination measure; expanded-node counts may
//! therefore differ from a run that re-expands duplicates, while the path
//! returned, its validity and the cross-strategy agreement do not.

use vstd::prelude::*;
use std::collections::HashSet;
use std::rc::Rc;
use crate::puzzle::{
    Puzzle, Action, valid_size, dim_of, wf_board, goal_seq, is_move, heuristic_spec, hash_of,
    blank_index, avail_dirs, avail_from, dir_order, can_move, moved_board, lemma_hash_injective,
    lemma_move_preserves_wf,
};

verus! {

broadcast use vstd::std_specs::hash::group_hash_axioms, vstd::set::group_set_axioms;

/// The board sequence and move tags of a vector of boards, the shape the
/// path contracts are stated over.
pub open spec fn path_view<const N: usize>(v: Seq<Puzzle<N>>) -> Seq<(Seq<u8>, Action)> {
    v.map_values(|p: Puzzle<N>| (p@, p.action))
}

/// A valid search path on an `n`-tile board of side `dim`: it starts at the
/// given root board, every board on it is well-formed, and each consecutive
/// pair differs by exactly one legal slide of the blank, labelled by the
/// later board's move tag.
pub open spec fn path_ok(c: Seq<(Seq<u8>, Action)>, root: (Seq<u8>, Action), n: int, dim: int) -> bool {
    &&& c.len() >= 1
    &&& c[0] == root
    &&& forall|k: int| 0 <= k < c.len() ==> wf_board((#[trigger] c[k]).0, n)
    &&& forall|k: int|
        0 <= k < c.len() - 1 ==> is_move(c[k].0, (#[trigger] c[k + 1]).0, c[k + 1].1, n, dim)
}

/// What every search strategy promises of its result `(path, count)` for a
/// well-formed initial board: at least one node is examined; a nonempty path
/// is a valid move sequence from the initial board to the goal; an
/// already-solved board yields exactly the one-board path after examining one
/// node; the empty path comes back only when the goal is not reachable from
/// the initial board at all; a one-board path only for an already-solved
/// board; and, as long as the counter has not saturated, at least as many
/// nodes were examined as the path holds boards, every ancestor of the goal
/// node having been expanded before the goal node popped.  An exhausted
/// search — the empty path — examined at least one node per distinct board
/// reachable from the start, having expanded them all.
pub open spec fn solver_post<const N: usize>(
    initial: Puzzle<N>,
    path: Seq<Puzzle<N>>,
    count: u64,
) -> bool {
    let c = path_view(path);
    let n = N as int;
    &&& count >= 1
    &&& path.len() > 0 ==> {
        &&& path_ok(c, (initial@, initial.action), n, dim_of(n))
        &&& c.last().0 == goal_seq(n)
    }
    &&& initial@ == goal_seq(n) ==> path.len() == 1 && count == 1
    &&& path.len() == 0 ==> !reachable(initial@, goal_seq(n), dim_of(n))
    &&& path.len() == 1 ==> initial@ == goal_seq(n)
    &&& count < u64::MAX ==> path.len() <= count
    &&& path.len() == 0 ==> reachable_boards(initial@, n, dim_of(n)).finite()
        && reachable_boards(initial@, n, dim_of(n)).len() <= count
}

/// `b` is the board exactly `k` legal slides away from `a` along some move
/// sequence.
pub open spec fn reachable_in(a: Seq<u8>, b: Seq<u8>, dim: int, k: nat) -> bool
    decreases k,
{
    if k == 0 {
        a == b
    } else {
        exists|act: Action|
            {
                &&& act != Action::Start
                &&& #[trigger] can_move(blank_index(a), act, dim)
                &&& reachable_in(
                    moved_board(a, blank_index(a), act, dim),
                    b,
                    dim,
                    (k - 1) as nat,
                )
            }
    }
}

/// `b` can be reached from `a` by some sequence of legal slides: a board is
/// solvable exactly when the goal is reachable from it.
pub open spec fn reachable(a: Seq<u8>, b: Seq<u8>, dim: int) -> bool {
    exists|k: nat| reachable_in(a, b, dim, k)
}

/// Board `b` is covered by the search state: its hash was already expanded,
/// or some frontier entry holds a board with its hash.
pub open spec fn covered(b: Seq<u8>, vset: Set<u64>, fb: Seq<Seq<u8>>) -> bool {
    ||| vset.contains(hash_of(b))
    ||| exists|k: int| 0 <= k < fb.len() && hash_of(#[trigger] fb[k]) == hash_of(b)
}

/// Every legal slide out of an expanded well-formed board lands on a covered
/// board: together with coverage of the initial board, the frontier fences
/// off everything the search has not yet explored.
pub open spec fn expansion_closed(vset: Set<u64>, fb: Seq<Seq<u8>>, n: int, dim: int) -> bool {
    forall|s: Seq<u8>, act: Action|
        #![trigger vset.contains(hash_of(s)), can_move(blank_index(s), act, dim)]
        (wf_board(s, n) && vset.contains(hash_of(s)) && act != Action::Start && can_move(
            blank_index(s),
            act,
            dim,
        )) ==> covered(moved_board(s, blank_index(s), act, dim), vset, fb)
}

/// Coverage follows a board's hash: it survives any change of search state
/// under which the expanded set only grows and every old frontier board is
/// itself still covered.
proof fn lemma_covered_migrate(
    b: Seq<u8>,
    vset_old: Set<u64>,
    fb_old: Seq<Seq<u8>>,
    vset_new: Set<u64>,
    fb_new: Seq<Seq<u8>>,
)
    requires
        covered(b, vset_old, fb_old),
        forall|x: u64| vset_old.contains(x) ==> vset_new.contains(x),
        forall|k: int| 0 <= k < fb_old.len() ==> covered(#[trigger] fb_old[k], vset_new, fb_new),
    ensures
        covered(b, vset_new, fb_new),
{
    if !vset_old.contains(hash_of(b)) {
        let k = choose|k: int| 0 <= k < fb_old.len() && hash_of(#[trigger] fb_old[k]) == hash_of(b);
        assert(covered(fb_old[k], vset_new, fb_new));
    }
}

/// Once the frontier is empty, the expanded set is closed under legal
/// slides, so everything reachable from an expanded board was expanded.
proof fn lemma_closed_reaches(vset: Set<u64>, start: Seq<u8>, b: Seq<u8>, n: int, dim: int, k: nat)
    requires
        valid_size(n),
        dim == dim_of(n),
        wf_board(start, n),
        vset.contains(hash_of(start)),
        expansion_closed(vset, Seq::<Seq<u8>>::empty(), n, dim),
        reachable_in(start, b, dim, k),
    ensures
        wf_board(b, n),
        vset.contains(hash_of(b)),
    decreases k,
{
    if k > 0 {
        let act = choose|act: Action|
            {
                &&& act != Action::Start
                &&& #[trigger] can_move(blank_index(start), act, dim)
                &&& reachable_in(
                    moved_board(start, blank_index(start), act, dim),
                    b,
                    dim,
                    (k - 1) as nat,
                )
            };
        let mid = moved_board(start, blank_index(start), act, dim);
        lemma_move_preserves_wf(start, n, dim, act);
        assert(covered(mid, vset, Seq::<Seq<u8>>::empty()));
        lemma_closed_reaches(vset, mid, b, n, dim, (k - 1) as nat);
    }
}

/// The Manhattan-distance heuristic is admissible: it never overestimates
/// the true remaining cost, so any sequence of legal slides that solves a
/// board is at least as long as the board's heuristic.
pub proof fn lemma_heuristic_admissible(s: Seq<u8>, n: int, dim: int, k: nat)
    requires
        valid_size(n),
        dim == dim_of(n),
        wf_board(s, n),
        reachable_in(s, goal_seq(n), dim, k),
    ensures
        heuristic_spec(s, dim) <= k,
    decreases k,
{
    if k == 0 {
        crate::puzzle::lemma_goal_heuristic_zero(n);
    } else {
        let act = choose|act: Action|
            {
                &&& act != Action::Start
                &&& #[trigger] can_move(blank_index(s), act, dim)
                &&& reachable_in(
                    moved_board(s, blank_index(s), act, dim),
                    goal_seq(n),
                    dim,
                    (k - 1) as nat,
                )
            };
        let mid = moved_board(s, blank_index(s), act, dim);
        lemma_move_preserves_wf(s, n, dim, act);
        crate::puzzle::lemma_heuristic_consistent(s, n, dim, act);
        lemma_heuristic_admissible(mid, n, dim, (k - 1) as nat);
    }
}

/// Every well-formed board reachable from `a` by legal slides: the portion
/// of the state space a search from `a` can ever explore.
pub open spec fn reachable_boards(a: Seq<u8>, n: int, dim: int) -> Set<Seq<u8>> {
    Set::new(|s: Seq<u8>| wf_board(s, n) && reachable(a, s, dim))
}

/// A set of well-formed boards whose hashes all lie in a finite hash set is
/// itself finite and no larger: the packed hash tells such boards apart.
proof fn lemma_preimage_size(hs: Set<u64>, ss: Set<Seq<u8>>, n: int)
    requires
        valid_size(n),
        hs.finite(),
        forall|s: Seq<u8>| #[trigger] ss.contains(s) ==> wf_board(s, n) && hs.contains(hash_of(s)),
    ensures
        ss.finite(),
        ss.len() <= hs.len(),
    decreases hs.len(),
{
    if ss.is_empty() {
        assert(ss =~= Set::<Seq<u8>>::empty());
    } else {
        let s0 = ss.choose();
        assert(ss.contains(s0));
        let h0 = hash_of(s0);
        let ss1 = ss.remove(s0);
        let hs1 = hs.remove(h0);
        assert forall|s: Seq<u8>| #[trigger] ss1.contains(s) implies wf_board(s, n)
            && hs1.contains(hash_of(s)) by {
            assert(ss.contains(s));
            if hash_of(s) == h0 {
                lemma_hash_injective(s, s0);
            }
        }
        lemma_preimage_size(hs1, ss1, n);
        assert(ss =~= ss1.insert(s0));
    }
}

/// An exhausted search expanded every reachable board, and the packed hash
/// tells distinct boards apart, so the number of boards reachable from the
/// start is bounded by the number of expanded hashes.
proof fn lemma_exhausted_count(vset: Set<u64>, initial: Seq<u8>, n: int, dim: int)
    requires
        valid_size(n),
        dim == dim_of(n),
        wf_board(initial, n),
        vset.finite(),
        vset.contains(hash_of(initial)),
        expansion_closed(vset, Seq::<Seq<u8>>::empty(), n, dim),
    ensures
        reachable_boards(initial, n, dim).finite(),
        reachable_boards(initial, n, dim).len() <= vset.len(),
{
    let sset = reachable_boards(initial, n, dim);
    assert forall|s: Seq<u8>| #[trigger] sset.contains(s) implies wf_board(s, n) && vset.contains(
        hash_of(s),
    ) by {
        let k = choose|k: nat| #[trigger] reachable_in(initial, s, dim, k);
        lemma_closed_reaches(vset, initial, s, n, dim, k);
    }
    lemma_preimage_size(vset, sset, n);
}

/// Any direction that appears in `dirs` and is legal for the blank at `zi`
/// appears in the filtered direction list.
proof fn lemma_avail_from_complete(zi: int, dim: int, dirs: Seq<Action>, act: Action, i: int)
    requires
        0 <= i < dirs.len(),
        dirs[i] == act,
        can_move(zi, act, dim),
    ensures
        exists|k: int|
            0 <= k < avail_from(zi, dim, dirs).len() && avail_from(zi, dim, dirs)[k] == act,
    decreases dirs.len(),
{
    let av = avail_from(zi, dim, dirs);
    if i == 0 {
        assert(av[0] == act);
    } else {
        lemma_avail_from_complete(zi, dim, dirs.drop_first(), act, i - 1);
        let rest = avail_from(zi, dim, dirs.drop_first());
        let k = choose|k: int| 0 <= k < rest.len() && rest[k] == act;
        if can_move(zi, dirs[0], dim) {
            assert(av[k + 1] == act);
        } else {
            assert(av[k] == act);
        }
    }
}

/// A legal non-Start slide of the blank at `zi` appears among the enumerated
/// directions, hence among the produced neighbors.
proof fn lemma_avail_complete(zi: int, dim: int, act: Action)
    requires
        act != Action::Start,
        can_move(zi, act, dim),
    ensures
        exists|k: int| 0 <= k < avail_dirs(zi, dim).len() && avail_dirs(zi, dim)[k] == act,
{
    let dirs = dir_order();
    assert(dirs[0] == Action::Left && dirs[1] == Action::Right && dirs[2] == Action::Up && dirs[3]
        == Action::Down);
    match act {
        Action::Left => lemma_avail_from_complete(zi, dim, dirs, act, 0),
        Action::Right => lemma_avail_from_complete(zi, dim, dirs, act, 1),
        Action::Up => lemma_avail_from_complete(zi, dim, dirs, act, 2),
        Action::Down => lemma_avail_from_complete(zi, dim, dirs, act, 3),
        Action::Start => {},
    }
    assert(avail_dirs(zi, dim) == avail_from(zi, dim, dir_order()));
}

/// As [`expansion_closed`], but exempting the single board whose hash is
/// `h`: the state an expansion is in while the newly expanded board's
/// neighbors are still being pushed one by one.
pub open spec fn expansion_closed_except(
    vset: Set<u64>,
    fb: Seq<Seq<u8>>,
    h: u64,
    n: int,
    dim: int,
) -> bool {
    forall|s: Seq<u8>, act: Action|
        #![trigger vset.contains(hash_of(s)), can_move(blank_index(s), act, dim)]
        (wf_board(s, n) && vset.contains(hash_of(s)) && hash_of(s) != h && act != Action::Start
            && can_move(blank_index(s), act, dim)) ==> covered(
            moved_board(s, blank_index(s), act, dim),
            vset,
            fb,
        )
}

/// A full coverage closure survives a change of frontier under which every
/// old frontier board stays covered.
proof fn lemma_closure_grow(
    vset: Set<u64>,
    fb0: Seq<Seq<u8>>,
    fb1: Seq<Seq<u8>>,
    n: int,
    dim: int,
)
    requires
        expansion_closed(vset, fb0, n, dim),
        forall|k: int| 0 <= k < fb0.len() ==> covered(#[trigger] fb0[k], vset, fb1),
    ensures
        expansion_closed(vset, fb1, n, dim),
{
    assert forall|s: Seq<u8>, act: Action|
        #![trigger vset.contains(hash_of(s)), can_move(blank_index(s), act, dim)]
        (wf_board(s, n) && vset.contains(hash_of(s)) && act != Action::Start && can_move(
            blank_index(s),
            act,
            dim,
        )) implies covered(moved_board(s, blank_index(s), act, dim), vset, fb1) by {
        assert(covered(moved_board(s, blank_index(s), act, dim), vset, fb0));
        lemma_covered_migrate(moved_board(s, blank_index(s), act, dim), vset, fb0, vset, fb1);
    }
}

/// Expanding a new hash `h` turns a full coverage closure into a closure
/// that exempts `h`, under any new frontier that keeps the old frontier
/// boards covered.
proof fn lemma_closure_insert(
    vset: Set<u64>,
    fb0: Seq<Seq<u8>>,
    fb1: Seq<Seq<u8>>,
    h: u64,
    n: int,
    dim: int,
)
    requires
        expansion_closed(vset, fb0, n, dim),
        forall|k: int| 0 <= k < fb0.len() ==> covered(#[trigger] fb0[k], vset.insert(h), fb1),
    ensures
        expansion_closed_except(vset.insert(h), fb1, h, n, dim),
{
    let vset1 = vset.insert(h);
    assert forall|s: Seq<u8>, act: Action|
        #![trigger vset1.contains(hash_of(s)), can_move(blank_index(s), act, dim)]
        (wf_board(s, n) && vset1.contains(hash_of(s)) && hash_of(s) != h && act != Action::Start
            && can_move(blank_index(s), act, dim)) implies covered(
        moved_board(s, blank_index(s), act, dim),
        vset1,
        fb1,
    ) by {
        assert(vset.contains(hash_of(s)));
        assert(covered(moved_board(s, blank_index(s), act, dim), vset, fb0));
        lemma_covered_migrate(moved_board(s, blank_index(s), act, dim), vset, fb0, vset1, fb1);
    }
}

/// An `h`-exempt closure survives a change of frontier under which every old
/// frontier board stays covered.
proof fn lemma_closure_except_grow(
    vset: Set<u64>,
    fb0: Seq<Seq<u8>>,
    fb1: Seq<Seq<u8>>,
    h: u64,
    n: int,
    dim: int,
)
    requires
        expansion_closed_except(vset, fb0, h, n, dim),
        forall|k: int| 0 <= k < fb0.len() ==> covered(#[trigger] fb0[k], vset, fb1),
    ensures
        expansion_closed_except(vset, fb1, h, n, dim),
{
    assert forall|s: Seq<u8>, act: Action|
        #![trigger vset.contains(hash_of(s)), can_move(blank_index(s), act, dim)]
        (wf_board(s, n) && vset.contains(hash_of(s)) && hash_of(s) != h && act != Action::Start
            && can_move(blank_index(s), act, dim)) implies covered(
        moved_board(s, blank_index(s), act, dim),
        vset,
        fb1,
    ) by {
        assert(covered(moved_board(s, blank_index(s), act, dim), vset, fb0));
        lemma_covered_migrate(moved_board(s, blank_index(s), act, dim), vset, fb0, vset, fb1);
    }
}

/// Extending a valid path by one legal slide keeps it valid.
proof fn lemma_path_push(
    c: Seq<(Seq<u8>, Action)>,
    x: (Seq<u8>, Action),
    root: (Seq<u8>, Action),
    n: int,
    dim: int,
)
    requires
        path_ok(c, root, n, dim),
        is_move(c.last().0, x.0, x.1, n, dim),
        wf_board(x.0, n),
    ensures
        path_ok(c.push(x), root, n, dim),
{
    let cp = c.push(x);
    assert(cp[0] == root);
    assert forall|k: int| 0 <= k < cp.len() implies wf_board((#[trigger] cp[k]).0, n) by {
        if k < c.len() {
            assert(cp[k] == c[k]);
        }
    }
    assert forall|k: int|
        0 <= k < cp.len() - 1 implies is_move(cp[k].0, (#[trigger] cp[k + 1]).0, cp[k + 1].1, n, dim) by {
        if k < c.len() - 1 {
            assert(cp[k] == c[k] && cp[k + 1] == c[k + 1]);
        } else {
            assert(cp[k] == c.last() && cp[k + 1] == x);
        }
    }
}

/// A search-tree node owned by an index-addressed arena: the parent link is
/// the parent's index in the arena that owns both nodes, so the whole tree is
/// freed at once when the search call returns.
pub struct Node<const N: usize> {
    pub prev: Option<usize>,
    pub puzzle: Puzzle<N>,
    pub g: u64,
    pub f: u128,
}

impl<const N: usize> Node<N> {
    /// The root node of a search tree: depth zero, so its cost is
    /// f = 0 + heuristic(board).
    pub fn new_root(puzzle: Puzzle<N>) -> (n: Node<N>)
        requires
            valid_size(N as int),
            puzzle@.len() == N,
        ensures
            n.prev.is_none(),
            n.puzzle == puzzle,
            n.g == 0,
            n.f == n.g + heuristic_spec(puzzle@, dim_of(N as int)),
    {
        let h = puzzle.heuristic();
        Node { puzzle, prev: None, g: 0, f: h as u128 }
    }

    /// A child node one step below `prev`, which lives at `prev_index` in the
    /// same arena: its cost is f = g + h with g the path length so far.
    pub fn new_child(puzzle: Puzzle<N>, prev: &Node<N>, prev_index: usize) -> (n: Node<N>)
        requires
            valid_size(N as int),
            puzzle@.len() == N,
            prev.g < u64::MAX,
        ensures
            n.prev == Some(prev_index),
            n.puzzle == puzzle,
            n.g == prev.g + 1,
            n.f == n.g + heuristic_spec(puzzle@, dim_of(N as int)),
    {
        let h = puzzle.heuristic();
        let g = prev.g + 1;
        Node { puzzle, prev: Some(prev_index), g, f: g as u128 + h as u128 }
    }
}

/// Node `j`'s parent link points strictly earlier in the arena and `g`
/// counts the steps to the root.
pub open spec fn link_ok<const N: usize>(a: Seq<Node<N>>, j: int) -> bool {
    match a[j].prev {
        Option::None => a[j].g == 0,
        Option::Some(p) => 0 <= p < j && a[j].g == a[p as int].g + 1,
    }
}

/// The arena's parent links are acyclic and depth-labelled.
pub open spec fn links_ok<const N: usize>(a: Seq<Node<N>>) -> bool {
    forall|j: int| 0 <= j < a.len() ==> #[trigger] link_ok(a, j)
}

/// Node `j` carries a well-formed board; a root node carries the initial
/// board, and every other node's board is one legal slide from its parent's.
/// Depths never exceed the node's own index.
pub open spec fn node_move_ok<const N: usize>(
    a: Seq<Node<N>>,
    j: int,
    initial: Puzzle<N>,
    dim: int,
) -> bool {
    let nd = a[j];
    &&& wf_board(nd.puzzle@, N as int)
    &&& nd.g <= j
    &&& match nd.prev {
        Option::None => nd.puzzle@ == initial@ && nd.puzzle.action == initial.action,
        Option::Some(p) => 0 <= p < j && is_move(
            a[p as int].puzzle@,
            nd.puzzle@,
            nd.puzzle.action,
            N as int,
            dim,
        ),
    }
}

/// Every node of the arena satisfies [`node_move_ok`]: the whole search tree
/// is a tree of legal slides growing out of the initial board.
pub open spec fn moves_ok<const N: usize>(a: Seq<Node<N>>, initial: Puzzle<N>, dim: int) -> bool {
    forall|j: int| 0 <= j < a.len() ==> #[trigger] node_move_ok(a, j, initial, dim)
}

/// The board-and-tag sequence from the arena's root down to node `j`,
/// following parent links.
pub open spec fn arena_chain<const N: usize>(a: Seq<Node<N>>, j: int) -> Seq<(Seq<u8>, Action)>
    decreases j,
{
    let nd = a[j];
    match nd.prev {
        Option::None => seq![(nd.puzzle@, nd.puzzle.action)],
        Option::Some(p) => if 0 <= p < j {
            arena_chain(a, p as int).push((nd.puzzle@, nd.puzzle.action))
        } else {
            seq![(nd.puzzle@, nd.puzzle.action)]
        },
    }
}

/// In an arena with sound links, node `j`'s chain has `g + 1` entries and
/// ends at node `j`'s own board.
#[verifier::rlimit(100)]
proof fn lemma_chain_len<const N: usize>(a: Seq<Node<N>>, j: int)
    requires
        links_ok(a),
        0 <= j < a.len(),
    ensures
        arena_chain(a, j).len() == a[j].g + 1,
        arena_chain(a, j).last() == (a[j].puzzle@, a[j].puzzle.action),
    decreases j,
{
    let nd = a[j];
    assert(link_ok(a, j));
    match nd.prev {
        Option::None => {
            assert(arena_chain(a, j) == seq![(nd.puzzle@, nd.puzzle.action)]);
        },
        Option::Some(p) => {
            assert(0 <= p < j && nd.g == a[p as int].g + 1);
            lemma_chain_len(a, p as int);
            assert(arena_chain(a, j) == arena_chain(a, p as int).push(
                (nd.puzzle@, nd.puzzle.action),
            ));
        },
    }
}

/// In a sound arena, node `j`'s chain is a valid search path from the
/// initial board.
proof fn lemma_chain_ok<const N: usize>(a: Seq<Node<N>>, j: int, initial: Puzzle<N>, dim: int)
    requires
        links_ok(a),
        moves_ok(a, initial, dim),
        0 <= j < a.len(),
    ensures
        path_ok(arena_chain(a, j), (initial@, initial.action), N as int, dim),
    decreases j,
{
    assert(link_ok(a, j));
    assert(node_move_ok(a, j, initial, dim));
    match a[j].prev {
        Option::None => {},
        Option::Some(p) => {
            lemma_chain_ok(a, p as int, initial, dim);
            lemma_chain_len(a, p as int);
            lemma_path_push(
                arena_chain(a, p as int),
                (a[j].puzzle@, a[j].puzzle.action),
                (initial@, initial.action),
                N as int,
                dim,
            );
        },
    }
}

/// Appending a node whose parent link satisfies the arena invariants keeps
/// the whole arena sound.
proof fn lemma_arena_push<const N: usize>(
    a: Seq<Node<N>>,
    nd: Node<N>,
    initial: Puzzle<N>,
    dim: int,
    p: int,
)
    requires
        links_ok(a),
        moves_ok(a, initial, dim),
        nd.prev == Some(p as usize),
        0 <= p < a.len(),
        p == p as usize as int,
        nd.g == a[p].g + 1,
        nd.g <= a.len(),
        wf_board(nd.puzzle@, N as int),
        is_move(a[p as int].puzzle@, nd.puzzle@, nd.puzzle.action, N as int, dim),
    ensures
        links_ok(a.push(nd)),
        moves_ok(a.push(nd), initial, dim),
{
    let ap = a.push(nd);
    assert forall|j: int| 0 <= j < ap.len() implies #[trigger] link_ok(ap, j) by {
        if j < a.len() {
            assert(link_ok(a, j));
            assert(ap[j] == a[j]);
            match a[j].prev {
                Option::None => {},
                Option::Some(q) => {
                    assert(ap[q as int] == a[q as int]);
                },
            }
        } else {
            assert(ap[j] == nd && ap[p] == a[p]);
        }
    }
    assert forall|j: int|
        0 <= j < ap.len() implies #[trigger] node_move_ok(ap, j, initial, dim) by {
        if j < a.len() {
            assert(node_move_ok(a, j, initial, dim));
            assert(ap[j] == a[j]);
            match a[j].prev {
                Option::None => {},
                Option::Some(q) => {
                    assert(ap[q as int] == a[q as int]);
                },
            }
        } else {
            assert(ap[j] == nd && ap[p] == a[p]);
        }
    }
}

/// The boards held by an arena-indexed frontier, by frontier position.
pub open spec fn arena_fboards<const N: usize>(fr: Seq<usize>, a: Seq<Node<N>>) -> Seq<Seq<u8>> {
    fr.map_values(|i: usize| a[i as int].puzzle@)
}

/// An arena-indexed frontier ordered by descending f-cost: the vector's last
/// entry carries a minimal f, so popping from the end is best-first.
pub open spec fn arena_frontier_sorted<const N: usize>(fr: Seq<usize>, a: Seq<Node<N>>) -> bool {
    forall|i: int, j: int|
        #![trigger fr[i], fr[j]]
        0 <= i <= j < fr.len() ==> a[fr[i] as int].f >= a[fr[j] as int].f
}

/// Inserts arena index `idx` into the frontier, keeping it ordered by
/// descending f-cost so that the cheapest node pops from the vector's end
/// first.  The insertion position places the new node before every entry of
/// f-cost at most its own: among equal-f nodes the earliest-inserted pops
/// first, so ties go by neighbor-generation order.
fn insert_by_f<const N: usize>(frontier: &mut Vec<usize>, arena: &Vec<Node<N>>, idx: usize)
    requires
        forall|k: int|
            0 <= k < old(frontier)@.len() ==> (#[trigger] old(frontier)@[k]) < arena@.len(),
        idx < arena@.len(),
        arena_frontier_sorted(old(frontier)@, arena@),
    ensures
        final(frontier)@.len() == old(frontier)@.len() + 1,
        forall|k: int|
            0 <= k < final(frontier)@.len() ==> ((#[trigger] final(frontier)@[k]) == idx || old(
                frontier,
            )@.contains(final(frontier)@[k])),
        final(frontier)@.contains(idx),
        forall|k: int|
            0 <= k < old(frontier)@.len() ==> final(frontier)@.contains(
                #[trigger] old(frontier)@[k],
            ),
        arena_frontier_sorted(final(frontier)@, arena@),
        exists|p: int|
            {
                &&& 0 <= p <= old(frontier)@.len()
                &&& final(frontier)@ == #[trigger] old(frontier)@.insert(p, idx)
                &&& forall|m: int|
                    p <= m < old(frontier)@.len() ==> arena@[(#[trigger] old(frontier)@[m]) as int].f
                        <= arena@[idx as int].f
                &&& (p == 0 || arena@[old(frontier)@[p - 1] as int].f > arena@[idx as int].f)
            },
{
    let f = arena[idx].f;
    let mut k = frontier.len();
    while k > 0
        invariant
            frontier@ == old(frontier)@,
            k <= frontier@.len(),
            idx < arena@.len(),
            f == arena@[idx as int].f,
            forall|m: int| 0 <= m < frontier@.len() ==> (#[trigger] frontier@[m]) < arena@.len(),
            forall|m: int|
                k <= m < frontier@.len() ==> arena@[(#[trigger] frontier@[m]) as int].f <= f,
        ensures
            frontier@ == old(frontier)@,
            k <= frontier@.len(),
            forall|m: int|
                k <= m < frontier@.len() ==> arena@[(#[trigger] frontier@[m]) as int].f <= f,
            k == 0 || arena@[frontier@[k - 1] as int].f > f,
        decreases k,
    {
        if f < arena[frontier[k - 1]].f {
            break;
        }
        k -= 1;
    }
    frontier.insert(k, idx);
    proof {
        old(frontier)@.insert_ensures(k as int, idx);
        assert forall|m: int|
            0 <= m < frontier@.len() implies ((#[trigger] frontier@[m]) == idx || old(
            frontier,
        )@.contains(frontier@[m])) by {
            if m < k {
                assert(frontier@[m] == old(frontier)@[m]);
            } else if m > k {
                assert(frontier@[m] == old(frontier)@[m - 1]);
            }
        }
        assert(frontier@[k as int] == idx);
        assert forall|m: int|
            0 <= m < old(frontier)@.len() implies frontier@.contains(
            #[trigger] old(frontier)@[m],
        ) by {
            if m < k {
                assert(frontier@[m] == old(frontier)@[m]);
            } else {
                assert(frontier@[m + 1] == old(frontier)@[m]);
            }
        }
        assert forall|i: int, j: int|
            #![trigger frontier@[i], frontier@[j]]
            0 <= i <= j < frontier@.len() implies arena@[frontier@[i] as int].f >= arena@[
            frontier@[j] as int
        ].f by {
            let pre = old(frontier)@;
            if i < k {
                assert(frontier@[i] == pre[i]);
            }
            if j < k {
                assert(frontier@[j] == pre[j]);
            }
            if i > k {
                assert(frontier@[i] == pre[i - 1]);
            }
            if j > k {
                assert(frontier@[j] == pre[j - 1]);
            }
            if i < k && j == k {
                assert(pre[i] == pre[i] && pre[k - 1] == pre[k - 1]);
                assert(arena@[pre[i] as int].f >= arena@[pre[k - 1] as int].f);
            }
            if i == k && j > k {
                assert(arena@[pre[j - 1] as int].f <= arena@[idx as int].f);
            }
        }
        assert(frontier@ == old(frontier)@.insert(k as int, idx));
    }
}

/// The search engine backed by an index-addressed arena: every node of the
/// search tree lives in one growable buffer private to the call, parent
/// links are indices into it, and the whole tree is freed at once when the
/// call returns.
pub struct SolverArena {}

impl SolverArena {
    /// The boards from the arena's root down to node `idx`, in root-first
    /// order: the solution path, once `idx` is a goal node.  Its length is
    /// the node's g-cost plus one, the g-cost being the number of moves.
    pub fn reconstruct_path<const N: usize>(arena: &Vec<Node<N>>, idx: usize) -> (path: Vec<
        Puzzle<N>,
    >)
        requires
            links_ok(arena@),
            idx < arena@.len(),
        ensures
            path_view(path@) == arena_chain(arena@, idx as int),
            path@.len() == arena@[idx as int].g + 1,
    {
        let ghost full = arena_chain(arena@, idx as int);
        proof {
            lemma_chain_len(arena@, idx as int);
        }
        let mut rev: Vec<usize> = Vec::new();
        let mut curr: usize = idx;
        loop
            invariant_except_break
                links_ok(arena@),
                idx < arena@.len(),
                curr < arena@.len(),
                full == arena_chain(arena@, idx as int),
                full.len() == arena@[idx as int].g + 1,
                arena_chain(arena@, curr as int) == full.take(full.len() - rev@.len()),
                arena@[curr as int].g + 1 + rev@.len() == full.len(),
                forall|m: int|
                    0 <= m < rev@.len() ==> (#[trigger] rev@[m]) < arena@.len() && full[
                        full.len() - 1 - m
                    ] == (arena@[rev@[m] as int].puzzle@, arena@[rev@[m] as int].puzzle.action),
            ensures
                rev@.len() == full.len(),
                forall|m: int|
                    0 <= m < rev@.len() ==> (#[trigger] rev@[m]) < arena@.len() && full[
                        full.len() - 1 - m
                    ] == (arena@[rev@[m] as int].puzzle@, arena@[rev@[m] as int].puzzle.action),
            decreases arena@[curr as int].g,
        {
            proof {
                lemma_chain_len(arena@, curr as int);
                assert(link_ok(arena@, curr as int));
                assert(full.take(full.len() - rev@.len()).last() == (
                    arena@[curr as int].puzzle@,
                    arena@[curr as int].puzzle.action,
                ));
            }
            rev.push(curr);
            let prev = arena[curr].prev;
            match prev {
                Option::Some(p) => {
                    proof {
                        let g = arena@[curr as int].g as int;
                        assert(arena_chain(arena@, curr as int) == arena_chain(
                            arena@,
                            p as int,
                        ).push((arena@[curr as int].puzzle@, arena@[curr as int].puzzle.action)));
                        lemma_chain_len(arena@, p as int);
                        assert(arena_chain(arena@, p as int) =~= full.take(
                            full.len() - rev@.len(),
                        ));
                    }
                    curr = p;
                },
                Option::None => {
                    break;
                },
            }
        }
        let total = rev.len();
        let mut path: Vec<Puzzle<N>> = Vec::new();
        for k in 0..total
            invariant
                total == rev@.len() == full.len(),
                idx < arena@.len(),
                full.len() == arena@[idx as int].g + 1,
                full == arena_chain(arena@, idx as int),
                forall|m: int|
                    0 <= m < rev@.len() ==> (#[trigger] rev@[m]) < arena@.len() && full[
                        full.len() - 1 - m
                    ] == (arena@[rev@[m] as int].puzzle@, arena@[rev@[m] as int].puzzle.action),
                path@.len() == k,
                forall|m: int|
                    0 <= m < k ==> ((#[trigger] path@[m])@, path@[m].action) == full[m],
        {
            let j = rev[total - 1 - k];
            path.push(arena[j].puzzle.clone());
        }
        proof {
            assert forall|m: int| 0 <= m < path@.len() implies path_view(path@)[m] == full[m] by {
                assert((path@[m]@, path@[m].action) == full[m]);
            }
            assert(path_view(path@) =~= full);
        }
        path
    }

    /// A* search from `initial` to the canonical goal under arena ownership.
    /// Returns the path of boards from `initial` to the goal inclusive, or
    /// the empty path when the goal is unreachable, together with the exact
    /// number of nodes taken off the frontier, which cannot overflow: every
    /// pop is of a node the arena stores.
    pub fn find_path<const N: usize>(initial: Puzzle<N>) -> (r: (Vec<Puzzle<N>>, u64))
        requires
            valid_size(N as int),
            wf_board(initial@, N as int),
        ensures
            solver_post(initial, r.0@, r.1),
            r.0@.len() <= r.1,
    {
        let ghost dim = dim_of(N as int);
        let mut arena: Vec<Node<N>> = Vec::new();
        let mut visited: HashSet<u64> = HashSet::new();
        let mut frontier: Vec<usize> = Vec::new();

        let root = Node::new_root(initial.clone());
        arena.push(root);
        frontier.push(0);

        let goal = Puzzle::<N>::goal();
        let mut nodes: u64 = 0;

        proof {
            assert(vstd::std_specs::hash::obeys_key_model::<u64>());
            assert(link_ok(arena@, 0));
            assert(node_move_ok(arena@, 0, initial, dim));
            assert(arena_fboards(frontier@, arena@)[0] == initial@);
            assert(covered(initial@, visited@, arena_fboards(frontier@, arena@)));
        }

        while frontier.len() != 0
            invariant
                valid_size(N as int),
                wf_board(initial@, N as int),
                dim == dim_of(N as int),
                goal@ == goal_seq(N as int),
                arena@.len() >= 1,
                links_ok(arena@),
                moves_ok(arena@, initial, dim),
                forall|k: int|
                    0 <= k < frontier@.len() ==> (#[trigger] frontier@[k]) < arena@.len(),
                arena_frontier_sorted(frontier@, arena@),
                nodes as int + frontier@.len() == arena@.len(),
                forall|k: int|
                    0 <= k < frontier@.len() ==> arena@[(#[trigger] frontier@[k]) as int].g
                        <= nodes,
                visited@.finite(),
                visited@.len() <= nodes,
                nodes == 0 ==> arena@.len() == 1,
                initial@ == goal_seq(N as int) ==> nodes == 0,
                covered(initial@, visited@, arena_fboards(frontier@, arena@)),
                expansion_closed(visited@, arena_fboards(frontier@, arena@), N as int, dim),
                !visited@.contains(hash_of(goal_seq(N as int))),
            decreases
                    0x1_0000_0000_0000_0000 - visited@.len(),
                    frontier@.len(),
        {
            let ghost fr0 = frontier@;
            let idx = frontier.pop().unwrap();
            proof {
                assert(arena.len() == arena@.len());
                assert(idx == fr0.last());
                assert(frontier@ == fr0.drop_last());
                assert(fr0[fr0.len() - 1] == idx);
                assert(arena@[idx as int].g < nodes + 1);
                assert forall|i: int, j: int|
                    #![trigger frontier@[i], frontier@[j]]
                    0 <= i <= j < frontier@.len() implies arena@[frontier@[i] as int].f >= arena@[
                    frontier@[j] as int
                ].f by {
                    assert(frontier@[i] == fr0[i] && frontier@[j] == fr0[j]);
                }
            }
            nodes = nodes + 1;

            if arena[idx].puzzle == goal {
                let path = Self::reconstruct_path(&arena, idx);
                proof {
                    lemma_chain_len(arena@, idx as int);
                    lemma_chain_ok(arena@, idx as int, initial, dim);
                    assert(node_move_ok(arena@, idx as int, initial, dim));
                    assert(link_ok(arena@, idx as int));
                    if initial@ == goal_seq(N as int) {
                        assert(idx == 0);
                    }
                    if arena@[idx as int].g == 0 {
                        assert(arena@[idx as int].puzzle@ == initial@);
                    }
                }
                return (path, nodes);
            }

            proof {
                assert(node_move_ok(arena@, idx as int, initial, dim));
            }
            let h = arena[idx].puzzle.hash_u64();
            if !visited.contains(&h) {
                let ghost vis0 = visited@;
                visited.insert(h);
                let current = arena[idx].puzzle.clone();
                let neighbors = current.on_neighbors();
                proof {
                    assert(node_move_ok(arena@, idx as int, initial, dim));
                    assert(current@ != goal_seq(N as int));
                    crate::puzzle::lemma_goal_wf(N as int);
                    if hash_of(current@) == hash_of(goal_seq(N as int)) {
                        lemma_hash_injective(current@, goal_seq(N as int));
                        assert(false);
                    }
                    let fb0 = arena_fboards(fr0, arena@);
                    let fb1 = arena_fboards(frontier@, arena@);
                    assert(fb0[fr0.len() - 1] == arena@[idx as int].puzzle@);
                    assert forall|k: int|
                        0 <= k < fb0.len() implies covered(#[trigger] fb0[k], visited@, fb1) by {
                        if k < fb0.len() - 1 {
                            assert(fb1[k] == fb0[k]);
                            assert(hash_of(fb1[k]) == hash_of(fb0[k]));
                        } else {
                            assert(visited@.contains(hash_of(fb0[k])));
                        }
                    }
                    lemma_covered_migrate(initial@, vis0, fb0, visited@, fb1);
                    lemma_closure_insert(vis0, fb0, fb1, h, N as int, dim);
                    assert(visited@ == vis0.insert(h));
                }
                let mut ni: usize = 0;
                while ni < neighbors.len()
                    invariant
                        valid_size(N as int),
                        wf_board(initial@, N as int),
                        dim == dim_of(N as int),
                        goal@ == goal_seq(N as int),
                        initial@ != goal_seq(N as int),
                        arena@.len() >= 1,
                        links_ok(arena@),
                        moves_ok(arena@, initial, dim),
                        forall|k: int|
                            0 <= k < frontier@.len() ==> (#[trigger] frontier@[k])
                                < arena@.len(),
                        nodes as int + frontier@.len() == arena@.len(),
                        visited@.finite(),
                        visited@.len() <= nodes,
                        1 <= nodes,
                        idx < arena@.len(),
                        current@ == arena@[idx as int].puzzle@,
                        wf_board(current@, N as int),
                        arena@[idx as int].g < nodes,
                        forall|k: int|
                            0 <= k < frontier@.len() ==> arena@[(#[trigger] frontier@[k]) as int].g
                                <= nodes,
                        arena_frontier_sorted(frontier@, arena@),
                        h == hash_of(current@),
                        visited@.contains(h),
                        covered(initial@, visited@, arena_fboards(frontier@, arena@)),
                        expansion_closed_except(
                            visited@,
                            arena_fboards(frontier@, arena@),
                            h,
                            N as int,
                            dim,
                        ),
                        !visited@.contains(hash_of(goal_seq(N as int))),
                        forall|k: int|
                            0 <= k < ni ==> covered(
                                (#[trigger] neighbors@[k])@,
                                visited@,
                                arena_fboards(frontier@, arena@),
                            ),
                        ni <= neighbors@.len(),
                        forall|k: int|
                            0 <= k < neighbors@.len() ==> is_move(
                                current@,
                                (#[trigger] neighbors@[k])@,
                                neighbors@[k].action,
                                N as int,
                                dim,
                            ) && wf_board(neighbors@[k]@, N as int),
                    decreases neighbors@.len() - ni,
                {
                    let nb = &neighbors[ni];
                    let hh = nb.hash_u64();
                    if !visited.contains(&hh) {
                        proof {
                            assert(node_move_ok(arena@, idx as int, initial, dim));
                            assert(arena.len() == arena@.len());
                            assert(arena@[idx as int].g < u64::MAX);
                        }
                        let ghost frp = frontier@;
                        let ghost ap = arena@;
                        let child = Node::new_child(nb.clone(), &arena[idx], idx);
                        proof {
                            lemma_arena_push(arena@, child, initial, dim, idx as int);
                        }
                        arena.push(child);
                        let new_idx = arena.len() - 1;
                        proof {
                            assert forall|i: int, j: int|
                                #![trigger frontier@[i], frontier@[j]]
                                0 <= i <= j < frontier@.len() implies arena@[frontier@[i] as int].f
                                >= arena@[frontier@[j] as int].f by {
                                assert(arena@[frontier@[i] as int] == ap[frontier@[i] as int]);
                                assert(arena@[frontier@[j] as int] == ap[frontier@[j] as int]);
                            }
                        }
                        insert_by_f(&mut frontier, &arena, new_idx);
                        proof {
                            assert forall|k: int|
                                0 <= k < frontier@.len() implies (#[trigger] frontier@[k])
                                < arena@.len() by {
                            }
                            assert forall|k: int|
                                0 <= k < frontier@.len() implies arena@[(#[trigger] frontier@[k]) as int].g
                                <= nodes by {
                                if frontier@[k] != new_idx {
                                    assert(frp.contains(frontier@[k]));
                                    let m = choose|m: int|
                                        0 <= m < frp.len() && frp[m] == frontier@[k];
                                    assert(ap[frp[m] as int].g <= nodes);
                                    assert(arena@[frp[m] as int] == ap[frp[m] as int]);
                                }
                            }
                            let fbp = arena_fboards(frp, ap);
                            let fbn = arena_fboards(frontier@, arena@);
                            assert forall|k: int|
                                0 <= k < fbp.len() implies covered(
                                #[trigger] fbp[k],
                                visited@,
                                fbn,
                            ) by {
                                assert(frontier@.contains(frp[k]));
                                let m = choose|m: int|
                                    0 <= m < frontier@.len() && frontier@[m] == frp[k];
                                assert(frp[k] < ap.len());
                                assert(arena@[frp[k] as int] == ap[frp[k] as int]);
                                assert(fbn[m] == fbp[k]);
                                assert(hash_of(fbn[m]) == hash_of(fbp[k]));
                            }
                            lemma_covered_migrate(initial@, visited@, fbp, visited@, fbn);
                            lemma_closure_except_grow(visited@, fbp, fbn, h, N as int, dim);
                            assert forall|k: int|
                                0 <= k < ni implies covered(
                                (#[trigger] neighbors@[k])@,
                                visited@,
                                fbn,
                            ) by {
                                lemma_covered_migrate(
                                    neighbors@[k]@,
                                    visited@,
                                    fbp,
                                    visited@,
                                    fbn,
                                );
                            }
                            assert(frontier@.contains(new_idx));
                            let m2 = choose|m: int|
                                0 <= m < frontier@.len() && frontier@[m] == new_idx;
                            assert(fbn[m2] == arena@[new_idx as int].puzzle@);
                            assert(arena@[new_idx as int].puzzle@ == neighbors@[ni as int]@);
                            assert(hash_of(fbn[m2]) == hash_of(neighbors@[ni as int]@));
                            assert(covered(neighbors@[ni as int]@, visited@, fbn));
                        }
                    } else {
                        proof {
                            assert(visited@.contains(hash_of(neighbors@[ni as int]@)));
                            assert(covered(
                                neighbors@[ni as int]@,
                                visited@,
                                arena_fboards(frontier@, arena@),
                            ));
                        }
                    }
                    ni = ni + 1;
                }
                proof {
                    let fbe = arena_fboards(frontier@, arena@);
                    assert forall|s: Seq<u8>, act: Action|
                        #![trigger visited@.contains(hash_of(s)), can_move(blank_index(s), act, dim)]
                        (wf_board(s, N as int) && visited@.contains(hash_of(s)) && act
                            != Action::Start && can_move(
                            blank_index(s),
                            act,
                            dim,
                        )) implies covered(
                        moved_board(s, blank_index(s), act, dim),
                        visited@,
                        fbe,
                    ) by {
                        if hash_of(s) != h {
                            assert(covered(moved_board(s, blank_index(s), act, dim), visited@, fbe));
                        } else {
                            assert(N <= 16);
                            lemma_hash_injective(s, current@);
                            assert(s == current@);
                            lemma_avail_complete(blank_index(current@), dim, act);
                            let k = choose|k: int|
                                0 <= k < avail_dirs(blank_index(current@), dim).len() && avail_dirs(
                                    blank_index(current@),
                                    dim,
                                )[k] == act;
                            assert(neighbors@[k].action == act);
                            assert(is_move(current@, neighbors@[k]@, act, N as int, dim));
                            assert(neighbors@[k]@ == moved_board(
                                current@,
                                blank_index(current@),
                                act,
                                dim,
                            ));
                            assert(covered(neighbors@[k]@, visited@, fbe));
                        }
                    }
                    assert(expansion_closed(visited@, fbe, N as int, dim));
                }
            } else {
                proof {
                    let fb0 = arena_fboards(fr0, arena@);
                    let fb1 = arena_fboards(frontier@, arena@);
                    assert(fb0[fr0.len() - 1] == arena@[idx as int].puzzle@);
                    assert(visited@.contains(hash_of(fb0[fr0.len() - 1])));
                    assert forall|k: int|
                        0 <= k < fb0.len() implies covered(#[trigger] fb0[k], visited@, fb1) by {
                        if k < fb0.len() - 1 {
                            assert(fb1[k] == fb0[k]);
                            assert(hash_of(fb1[k]) == hash_of(fb0[k]));
                        }
                    }
                    lemma_covered_migrate(initial@, visited@, fb0, visited@, fb1);
                    lemma_closure_grow(visited@, fb0, fb1, N as int, dim);
                }
            }
        }
        proof {
            assert(arena_fboards(frontier@, arena@) =~= Seq::<Seq<u8>>::empty());
            assert(visited@.contains(hash_of(initial@)));
            if reachable(initial@, goal_seq(N as int), dim) {
                let kk = choose|kk: nat|
                    #[trigger] reachable_in(initial@, goal_seq(N as int), dim, kk);
                crate::puzzle::lemma_goal_wf(N as int);
                lemma_closed_reaches(visited@, initial@, goal_seq(N as int), N as int, dim, kk);
                assert(false);
            }
            lemma_exhausted_count(visited@, initial@, N as int, dim);
        }
        (Vec::new(), nodes)
    }
}

/// A search-tree node under shared ownership: the parent link is a strong
/// reference-counted handle, so a node, and with it the retained solution
/// path, may outlive the search that built it.
pub struct NodeRc<const N: usize> {
    pub prev: Option<Rc<NodeRc<N>>>,
    pub puzzle: Puzzle<N>,
    pub g: u64,
    pub f: u128,
}

/// Relies on std's `Rc::clone`: cloning a reference-counted handle yields
/// another handle to the same allocation, hence to the same value.
#[verifier::external_body]
fn rc_clone<T>(rc: &Rc<T>) -> (res: Rc<T>)
    ensures
        res == *rc,
{
    rc.clone()
}

impl<const N: usize> NodeRc<N> {
    /// The root node of a search tree: depth zero, so its cost is
    /// f = 0 + heuristic(board).
    pub fn new_root(puzzle: Puzzle<N>) -> (n: NodeRc<N>)
        requires
            valid_size(N as int),
            puzzle@.len() == N,
        ensures
            n.prev.is_none(),
            n.puzzle == puzzle,
            n.g == 0,
            n.f == n.g + heuristic_spec(puzzle@, dim_of(N as int)),
    {
        let h = puzzle.heuristic();
        NodeRc { puzzle, prev: None, g: 0, f: h as u128 }
    }

    /// A child node one step below the shared node `prev`, which it retains:
    /// its cost is f = g + h with g the path length so far.
    pub fn new_child(puzzle: Puzzle<N>, prev: Rc<NodeRc<N>>) -> (n: NodeRc<N>)
        requires
            valid_size(N as int),
            puzzle@.len() == N,
            prev.g < u64::MAX,
        ensures
            n.prev == Some(prev),
            n.puzzle == puzzle,
            n.g == prev.g + 1,
            n.f == n.g + heuristic_spec(puzzle@, dim_of(N as int)),
    {
        let h = puzzle.heuristic();
        let g = prev.g + 1;
        NodeRc { puzzle, prev: Some(prev), g, f: g as u128 + h as u128 }
    }
}

/// The chain of boards from the root node down to `n`, following the shared
/// parent links.
pub open spec fn rc_chain<const N: usize>(n: &NodeRc<N>) -> Seq<(Seq<u8>, Action)>
    decreases n,
{
    match n.prev {
        Option::None => seq![(n.puzzle@, n.puzzle.action)],
        Option::Some(p) => rc_chain(&*p).push((n.puzzle@, n.puzzle.action)),
    }
}

/// The parent links of `n`'s chain are depth-labelled: `g` counts the steps
/// to the root.
pub open spec fn rc_links_ok<const N: usize>(n: &NodeRc<N>) -> bool
    decreases n,
{
    match n.prev {
        Option::None => n.g == 0,
        Option::Some(p) => n.g == p.g + 1 && rc_links_ok(&*p),
    }
}

/// Every node on `n`'s chain carries a well-formed board, the root carries
/// the initial board, and each link is one legal slide.
pub open spec fn rc_node_ok<const N: usize>(n: &NodeRc<N>, initial: Puzzle<N>, dim: int) -> bool
    decreases n,
{
    &&& wf_board(n.puzzle@, N as int)
    &&& match n.prev {
        Option::None => n.puzzle@ == initial@ && n.puzzle.action == initial.action && n.g == 0,
        Option::Some(p) => {
            &&& rc_node_ok(&*p, initial, dim)
            &&& is_move(p.puzzle@, n.puzzle@, n.puzzle.action, N as int, dim)
            &&& n.g == p.g + 1
        },
    }
}

/// A sound shared-ownership node's chain is a valid search path of `g + 1`
/// boards from the initial board down to the node's own.
proof fn lemma_rc_chain_ok<const N: usize>(n: &NodeRc<N>, initial: Puzzle<N>, dim: int)
    requires
        rc_node_ok(n, initial, dim),
    ensures
        rc_links_ok(n),
        path_ok(rc_chain(n), (initial@, initial.action), N as int, dim),
        rc_chain(n).len() == n.g + 1,
        rc_chain(n).last() == (n.puzzle@, n.puzzle.action),
    decreases n,
{
    match &n.prev {
        Option::None => {},
        Option::Some(p) => {
            lemma_rc_chain_ok(&**p, initial, dim);
            let sub = rc_chain(&**p);
            lemma_path_push(
                sub,
                (n.puzzle@, n.puzzle.action),
                (initial@, initial.action),
                N as int,
                dim,
            );
        },
    }
}

/// In a depth-labelled chain, node `n`'s chain has `g + 1` entries and ends
/// at `n`'s own board.
proof fn lemma_rc_chain_len<const N: usize>(n: &NodeRc<N>)
    requires
        rc_links_ok(n),
    ensures
        rc_chain(n).len() == n.g + 1,
        rc_chain(n).last() == (n.puzzle@, n.puzzle.action),
    decreases n,
{
    match &n.prev {
        Option::None => {},
        Option::Some(p) => {
            lemma_rc_chain_len(&**p);
        },
    }
}

/// Every entry of a shared-ownership frontier is a sound node whose depth is
/// bounded by the number of states expanded so far.
pub open spec fn rc_frontier_ok<const N: usize>(
    fr: Seq<Rc<NodeRc<N>>>,
    initial: Puzzle<N>,
    dim: int,
    expanded: nat,
) -> bool {
    forall|k: int|
        0 <= k < fr.len() ==> {
            &&& rc_node_ok(&fr[k], initial, dim)
            &&& (#[trigger] fr[k]).g <= expanded
        }
}

/// The boards held by a shared-ownership frontier, by frontier position.
pub open spec fn rc_fboards<const N: usize>(fr: Seq<Rc<NodeRc<N>>>) -> Seq<Seq<u8>> {
    fr.map_values(|e: Rc<NodeRc<N>>| e.puzzle@)
}

/// A shared-ownership frontier ordered by descending f-cost: the vector's
/// last entry carries a minimal f, so popping from the end is best-first.
pub open spec fn rc_frontier_sorted<const N: usize>(fr: Seq<Rc<NodeRc<N>>>) -> bool {
    forall|i: int, j: int|
        #![trigger fr[i], fr[j]]
        0 <= i <= j < fr.len() ==> fr[i].f >= fr[j].f
}

/// Inserts a shared node into the frontier, keeping it ordered by descending
/// f-cost so that the cheapest node pops from the vector's end first.  The
/// insertion position places the new node before every entry of f-cost at
/// most its own: among equal-f nodes the earliest-inserted pops first, so
/// ties go by neighbor-generation order.
fn insert_rc_by_f<const N: usize>(frontier: &mut Vec<Rc<NodeRc<N>>>, node: Rc<NodeRc<N>>)
    requires
        rc_frontier_sorted(old(frontier)@),
    ensures
        final(frontier)@.len() == old(frontier)@.len() + 1,
        forall|k: int|
            0 <= k < final(frontier)@.len() ==> ((#[trigger] final(frontier)@[k]) == node || old(
                frontier,
            )@.contains(final(frontier)@[k])),
        final(frontier)@.contains(node),
        forall|k: int|
            0 <= k < old(frontier)@.len() ==> final(frontier)@.contains(
                #[trigger] old(frontier)@[k],
            ),
        rc_frontier_sorted(final(frontier)@),
        exists|p: int|
            {
                &&& 0 <= p <= old(frontier)@.len()
                &&& final(frontier)@ == #[trigger] old(frontier)@.insert(p, node)
                &&& forall|m: int|
                    p <= m < old(frontier)@.len() ==> (#[trigger] old(frontier)@[m]).f <= node.f
                &&& (p == 0 || old(frontier)@[p - 1].f > node.f)
            },
{
    let f = node.f;
    let mut k = frontier.len();
    while k > 0
        invariant
            frontier@ == old(frontier)@,
            k <= frontier@.len(),
            f == node.f,
            forall|m: int| k <= m < frontier@.len() ==> (#[trigger] frontier@[m]).f <= f,
        ensures
            frontier@ == old(frontier)@,
            k <= frontier@.len(),
            forall|m: int| k <= m < frontier@.len() ==> (#[trigger] frontier@[m]).f <= f,
            k == 0 || frontier@[k - 1].f > f,
        decreases k,
    {
        if f < frontier[k - 1].f {
            break;
        }
        k -= 1;
    }
    frontier.insert(k, node);
    proof {
        old(frontier)@.insert_ensures(k as int, node);
        assert forall|m: int|
            0 <= m < frontier@.len() implies ((#[trigger] frontier@[m]) == node || old(
            frontier,
        )@.contains(frontier@[m])) by {
            if m < k {
                assert(frontier@[m] == old(frontier)@[m]);
            } else if m > k {
                assert(frontier@[m] == old(frontier)@[m - 1]);
            }
        }
        assert(frontier@[k as int] == node);
        assert forall|m: int|
            0 <= m < old(frontier)@.len() implies frontier@.contains(
            #[trigger] old(frontier)@[m],
        ) by {
            if m < k {
                assert(frontier@[m] == old(frontier)@[m]);
            } else {
                assert(frontier@[m + 1] == old(frontier)@[m]);
            }
        }
        assert forall|i: int, j: int|
            #![trigger frontier@[i], frontier@[j]]
            0 <= i <= j < frontier@.len() implies frontier@[i].f >= frontier@[j].f by {
            let pre = old(frontier)@;
            if i < k {
                assert(frontier@[i] == pre[i]);
            }
            if j < k {
                assert(frontier@[j] == pre[j]);
            }
            if i > k {
                assert(frontier@[i] == pre[i - 1]);
            }
            if j > k {
                assert(frontier@[j] == pre[j - 1]);
            }
            if i < k && j == k {
                assert(pre[i].f >= pre[k - 1].f);
            }
            if i == k && j > k {
                assert(pre[j - 1].f <= node.f);
            }
        }
        assert(frontier@ == old(frontier)@.insert(k as int, node));
    }
}

/// The search engine backed by shared ownership: nodes are reference-counted
/// and each child retains its parent, so a returned solution path keeps the
/// nodes it runs through alive beyond the search.
pub struct SolverRc {}

impl SolverRc {
    /// The boards from the root down to `root`'s node, in root-first order:
    /// the solution path, once the node is a goal node.  Its length is the
    /// node's g-cost plus one, the g-cost being the number of moves.
    pub fn reconstruct_path<const N: usize>(root: Rc<NodeRc<N>>) -> (path: Vec<Puzzle<N>>)
        requires
            rc_links_ok(&root),
        ensures
            path_view(path@) == rc_chain(&root),
            path@.len() == root.g + 1,
    {
        let ghost full = rc_chain(&root);
        proof {
            lemma_rc_chain_len(&*root);
        }
        let mut rev: Vec<Puzzle<N>> = Vec::new();
        let mut curr: Rc<NodeRc<N>> = root;
        loop
            invariant_except_break
                rc_links_ok(&curr),
                rc_chain(&curr) == full.take(full.len() - rev@.len()),
                curr.g + 1 + rev@.len() == full.len(),
                forall|m: int|
                    0 <= m < rev@.len() ==> ((#[trigger] rev@[m])@, rev@[m].action) == full[
                        full.len() - 1 - m
                    ],
            ensures
                rev@.len() == full.len(),
                forall|m: int|
                    0 <= m < rev@.len() ==> ((#[trigger] rev@[m])@, rev@[m].action) == full[
                        full.len() - 1 - m
                    ],
            decreases curr.g,
        {
            proof {
                lemma_rc_chain_len(&*curr);
                assert(full.take(full.len() - rev@.len()).last() == (
                    curr.puzzle@,
                    curr.puzzle.action,
                ));
            }
            rev.push(curr.puzzle.clone());
            let next: Option<Rc<NodeRc<N>>> = match &curr.prev {
                Option::Some(p) => Some(rc_clone(p)),
                Option::None => None,
            };
            match next {
                Option::Some(p) => {
                    proof {
                        assert(rc_chain(&curr) == rc_chain(&p).push(
                            (curr.puzzle@, curr.puzzle.action),
                        ));
                        lemma_rc_chain_len(&*p);
                        assert(rc_chain(&p) =~= full.take(full.len() - rev@.len()));
                    }
                    curr = p;
                },
                Option::None => {
                    break;
                },
            }
        }
        let total = rev.len();
        let mut path: Vec<Puzzle<N>> = Vec::new();
        for k in 0..total
            invariant
                total == rev@.len() == full.len(),
                forall|m: int|
                    0 <= m < rev@.len() ==> ((#[trigger] rev@[m])@, rev@[m].action) == full[
                        full.len() - 1 - m
                    ],
                path@.len() == k,
                forall|m: int|
                    0 <= m < k ==> ((#[trigger] path@[m])@, path@[m].action) == full[m],
        {
            path.push(rev[total - 1 - k].clone());
        }
        proof {
            assert forall|m: int| 0 <= m < path@.len() implies path_view(path@)[m] == full[m] by {
                assert((path@[m]@, path@[m].action) == full[m]);
            }
            assert(path_view(path@) =~= full);
        }
        path
    }

    /// A* search from `initial` to the canonical goal under shared
    /// ownership.  Returns the path of boards from `initial` to the goal
    /// inclusive, or the empty path when the goal is unreachable, together
    /// with the number of nodes taken off the frontier; the counter
    /// saturates at `u64::MAX` rather than wrapping.
    pub fn find_path<const N: usize>(initial: Puzzle<N>) -> (r: (Vec<Puzzle<N>>, u64))
        requires
            valid_size(N as int),
            wf_board(initial@, N as int),
        ensures
            solver_post(initial, r.0@, r.1),
    {
        let ghost dim = dim_of(N as int);
        let mut visited: HashSet<u64> = HashSet::new();
        let mut frontier: Vec<Rc<NodeRc<N>>> = Vec::new();

        let root = NodeRc::new_root(initial.clone());
        frontier.push(Rc::new(root));

        let goal = Puzzle::<N>::goal();
        let mut nodes: u64 = 0;

        proof {
            assert(vstd::std_specs::hash::obeys_key_model::<u64>());
            assert(rc_node_ok(&frontier@[0], initial, dim));
            assert(rc_fboards(frontier@)[0] == initial@);
            assert(covered(initial@, visited@, rc_fboards(frontier@)));
        }

        while frontier.len() != 0
            invariant
                valid_size(N as int),
                wf_board(initial@, N as int),
                dim == dim_of(N as int),
                goal@ == goal_seq(N as int),
                rc_frontier_ok(frontier@, initial, dim, visited@.len()),
                rc_frontier_sorted(frontier@),
                visited@.finite(),
                visited@.len() <= nodes,
                visited@.len() <= usize::MAX,
                nodes == 0 ==> frontier@.len() >= 1,
                initial@ == goal_seq(N as int) ==> nodes == 0,
                covered(initial@, visited@, rc_fboards(frontier@)),
                expansion_closed(visited@, rc_fboards(frontier@), N as int, dim),
                !visited@.contains(hash_of(goal_seq(N as int))),
            decreases
                    0x1_0000_0000_0000_0000 - visited@.len(),
                    frontier@.len(),
        {
            let ghost fr0 = frontier@;
            let n: Rc<NodeRc<N>> = frontier.pop().unwrap();
            if nodes < u64::MAX {
                nodes = nodes + 1;
            }
            proof {
                assert(rc_node_ok(&n, initial, dim));
                assert(n == fr0.last());
                assert(frontier@ == fr0.drop_last());
                assert forall|i: int, j: int|
                    #![trigger frontier@[i], frontier@[j]]
                    0 <= i <= j < frontier@.len() implies frontier@[i].f >= frontier@[j].f by {
                    assert(frontier@[i] == fr0[i] && frontier@[j] == fr0[j]);
                }
            }

            if n.puzzle == goal {
                proof {
                    lemma_rc_chain_ok(&*n, initial, dim);
                    if initial@ == goal_seq(N as int) || n.g == 0 {
                        assert(n.g <= visited@.len());
                        match &n.prev {
                            Option::Some(_) => {
                                assert(false);
                            },
                            Option::None => {},
                        }
                    }
                }
                let path = Self::reconstruct_path(n);
                return (path, nodes);
            }

            let h = n.puzzle.hash_u64();
            if !visited.contains(&h) {
                let ghost vis0 = visited@;
                visited.insert(h);
                proof {
                    assert(vstd::std_specs::hash::spec_hash_set_len(&visited) == visited@.len());
                    assert(n.g < u64::MAX);
                    assert(n.puzzle@ != goal_seq(N as int));
                    crate::puzzle::lemma_goal_wf(N as int);
                    if hash_of(n.puzzle@) == hash_of(goal_seq(N as int)) {
                        lemma_hash_injective(n.puzzle@, goal_seq(N as int));
                        assert(false);
                    }
                    let fb0 = rc_fboards(fr0);
                    let fb1 = rc_fboards(frontier@);
                    assert(fb0[fr0.len() - 1] == n.puzzle@);
                    assert forall|k: int|
                        0 <= k < fb0.len() implies covered(#[trigger] fb0[k], visited@, fb1) by {
                        if k < fb0.len() - 1 {
                            assert(fb1[k] == fb0[k]);
                            assert(hash_of(fb1[k]) == hash_of(fb0[k]));
                        } else {
                            assert(visited@.contains(hash_of(fb0[k])));
                        }
                    }
                    lemma_covered_migrate(initial@, vis0, fb0, visited@, fb1);
                    lemma_closure_insert(vis0, fb0, fb1, h, N as int, dim);
                    assert(visited@ == vis0.insert(h));
                }
                let neighbors = n.puzzle.on_neighbors();
                let mut ni: usize = 0;
                while ni < neighbors.len()
                    invariant
                        valid_size(N as int),
                        wf_board(initial@, N as int),
                        dim == dim_of(N as int),
                        goal@ == goal_seq(N as int),
                        initial@ != goal_seq(N as int),
                        rc_frontier_ok(frontier@, initial, dim, visited@.len()),
                        visited@.finite(),
                        visited@.len() <= nodes,
                        visited@.len() <= usize::MAX,
                        1 <= nodes,
                        rc_node_ok(&n, initial, dim),
                        n.g < u64::MAX,
                        n.g + 1 <= visited@.len(),
                        h == hash_of(n.puzzle@),
                        visited@.contains(h),
                        rc_frontier_sorted(frontier@),
                        covered(initial@, visited@, rc_fboards(frontier@)),
                        expansion_closed_except(visited@, rc_fboards(frontier@), h, N as int, dim),
                        !visited@.contains(hash_of(goal_seq(N as int))),
                        forall|k: int|
                            0 <= k < ni ==> covered(
                                (#[trigger] neighbors@[k])@,
                                visited@,
                                rc_fboards(frontier@),
                            ),
                        ni <= neighbors@.len(),
                        forall|k: int|
                            0 <= k < neighbors@.len() ==> is_move(
                                n.puzzle@,
                                (#[trigger] neighbors@[k])@,
                                neighbors@[k].action,
                                N as int,
                                dim,
                            ) && wf_board(neighbors@[k]@, N as int),
                    decreases neighbors@.len() - ni,
                {
                    let nb = &neighbors[ni];
                    let hh = nb.hash_u64();
                    if !visited.contains(&hh) {
                        let ghost frp = frontier@;
                        let child = NodeRc::new_child(nb.clone(), rc_clone(&n));
                        let child_rc = Rc::new(child);
                        proof {
                            assert(rc_node_ok(&child_rc, initial, dim));
                        }
                        insert_rc_by_f(&mut frontier, child_rc);
                        proof {
                            let fbp = rc_fboards(frp);
                            let fbn = rc_fboards(frontier@);
                            assert forall|k: int|
                                0 <= k < fbp.len() implies covered(
                                #[trigger] fbp[k],
                                visited@,
                                fbn,
                            ) by {
                                assert(frontier@.contains(frp[k]));
                                let m = choose|m: int|
                                    0 <= m < frontier@.len() && frontier@[m] == frp[k];
                                assert(fbn[m] == fbp[k]);
                                assert(hash_of(fbn[m]) == hash_of(fbp[k]));
                            }
                            lemma_covered_migrate(initial@, visited@, fbp, visited@, fbn);
                            lemma_closure_except_grow(visited@, fbp, fbn, h, N as int, dim);
                            assert forall|k: int|
                                0 <= k < ni implies covered(
                                (#[trigger] neighbors@[k])@,
                                visited@,
                                fbn,
                            ) by {
                                lemma_covered_migrate(
                                    neighbors@[k]@,
                                    visited@,
                                    fbp,
                                    visited@,
                                    fbn,
                                );
                            }
                            assert(frontier@.contains(child_rc));
                            let m2 = choose|m: int|
                                0 <= m < frontier@.len() && frontier@[m] == child_rc;
                            assert(fbn[m2] == neighbors@[ni as int]@);
                            assert(hash_of(fbn[m2]) == hash_of(neighbors@[ni as int]@));
                            assert(covered(neighbors@[ni as int]@, visited@, fbn));
                        }
                    } else {
                        proof {
                            assert(visited@.contains(hash_of(neighbors@[ni as int]@)));
                            assert(covered(
                                neighbors@[ni as int]@,
                                visited@,
                                rc_fboards(frontier@),
                            ));
                        }
                    }
                    ni = ni + 1;
                }
                proof {
                    let fbe = rc_fboards(frontier@);
                    assert forall|s: Seq<u8>, act: Action|
                        #![trigger visited@.contains(hash_of(s)), can_move(blank_index(s), act, dim)]
                        (wf_board(s, N as int) && visited@.contains(hash_of(s)) && act
                            != Action::Start && can_move(
                            blank_index(s),
                            act,
                            dim,
                        )) implies covered(
                        moved_board(s, blank_index(s), act, dim),
                        visited@,
                        fbe,
                    ) by {
                        if hash_of(s) != h {
                            assert(covered(moved_board(s, blank_index(s), act, dim), visited@, fbe));
                        } else {
                            assert(N <= 16);
                            lemma_hash_injective(s, n.puzzle@);
                            assert(s == n.puzzle@);
                            lemma_avail_complete(blank_index(n.puzzle@), dim, act);
                            let k = choose|k: int|
                                0 <= k < avail_dirs(blank_index(n.puzzle@), dim).len()
                                    && avail_dirs(blank_index(n.puzzle@), dim)[k] == act;
                            assert(neighbors@[k].action == act);
                            assert(is_move(n.puzzle@, neighbors@[k]@, act, N as int, dim));
                            assert(neighbors@[k]@ == moved_board(
                                n.puzzle@,
                                blank_index(n.puzzle@),
                                act,
                                dim,
                            ));
                            assert(covered(neighbors@[k]@, visited@, fbe));
                        }
                    }
                    assert(expansion_closed(visited@, fbe, N as int, dim));
                }
            } else {
                proof {
                    let fb0 = rc_fboards(fr0);
                    let fb1 = rc_fboards(frontier@);
                    assert(fb0[fr0.len() - 1] == n.puzzle@);
                    assert(visited@.contains(hash_of(fb0[fr0.len() - 1])));
                    assert forall|k: int|
                        0 <= k < fb0.len() implies covered(#[trigger] fb0[k], visited@, fb1) by {
                        if k < fb0.len() - 1 {
                            assert(fb1[k] == fb0[k]);
                            assert(hash_of(fb1[k]) == hash_of(fb0[k]));
                        }
                    }
                    lemma_covered_migrate(initial@, visited@, fb0, visited@, fb1);
                    lemma_closure_grow(visited@, fb0, fb1, N as int, dim);
                }
            }
        }
        proof {
            assert(rc_fboards(frontier@) =~= Seq::<Seq<u8>>::empty());
            assert(visited@.contains(hash_of(initial@)));
            if reachable(initial@, goal_seq(N as int), dim) {
                let kk = choose|kk: nat|
                    #[trigger] reachable_in(initial@, goal_seq(N as int), dim, kk);
                crate::puzzle::lemma_goal_wf(N as int);
                lemma_closed_reaches(visited@, initial@, goal_seq(N as int), N as int, dim, kk);
                assert(false);
            }
            lemma_exhausted_count(visited@, initial@, N as int, dim);
        }
        (Vec::new(), nodes)
    }
}

/// Whether a plain vector of hashes holds `h`: the linear scan that stands
/// in for a hash-set lookup in the deliberately simple solver.
fn contains_hash(visited: &Vec<u64>, h: u64) -> (b: bool)
    ensures
        b == visited@.contains(h),
{
    let mut is_visited = false;
    let n = visited.len();
    for vi in 0..n
        invariant
            n == visited@.len(),
            is_visited == exists|q: int| 0 <= q < vi && visited@[q] == h,
    {
        if visited[vi] == h {
            is_visited = true;
        }
    }
    is_visited
}

/// The search engine built on nothing but plain vectors: shared-ownership
/// nodes, a linearly scanned visited list, and a frontier kept ordered by
/// scanning for the insertion point — a deliberately simple baseline that
/// shows what the arena and the hash set buy.
pub struct SolverSlow {}

impl SolverSlow {
    /// A* search from `initial` to the canonical goal over plain vectors.
    /// Returns the path of boards from `initial` to the goal inclusive, or
    /// the empty path when the goal is unreachable, together with the number
    /// of nodes taken off the frontier; the counter saturates at `u64::MAX`
    /// rather than wrapping.
    pub fn find_path<const N: usize>(initial: Puzzle<N>) -> (r: (Vec<Puzzle<N>>, u64))
        requires
            valid_size(N as int),
            wf_board(initial@, N as int),
        ensures
            solver_post(initial, r.0@, r.1),
    {
        let ghost dim = dim_of(N as int);
        let mut visited: Vec<u64> = Vec::new();
        let ghost mut vset = Set::<u64>::empty();
        let mut frontier: Vec<Rc<NodeRc<N>>> = Vec::new();

        let root = NodeRc::new_root(initial.clone());
        frontier.push(Rc::new(root));

        let goal = Puzzle::<N>::goal();
        let mut nodes: u64 = 0;

        proof {
            assert(rc_node_ok(&frontier@[0], initial, dim));
            assert(rc_fboards(frontier@)[0] == initial@);
            assert(covered(initial@, vset, rc_fboards(frontier@)));
        }

        while frontier.len() != 0
            invariant
                valid_size(N as int),
                wf_board(initial@, N as int),
                dim == dim_of(N as int),
                goal@ == goal_seq(N as int),
                rc_frontier_ok(frontier@, initial, dim, visited@.len()),
                rc_frontier_sorted(frontier@),
                visited@.len() <= nodes,
                nodes == 0 ==> frontier@.len() >= 1,
                initial@ == goal_seq(N as int) ==> nodes == 0,
                forall|x: u64| #[trigger] vset.contains(x) <==> visited@.contains(x),
                vset.finite(),
                vset.len() <= visited@.len(),
                covered(initial@, vset, rc_fboards(frontier@)),
                expansion_closed(vset, rc_fboards(frontier@), N as int, dim),
                !vset.contains(hash_of(goal_seq(N as int))),
            decreases
                    0x1_0000_0000_0000_0000 - visited@.len(),
                    frontier@.len(),
        {
            let ghost fr0 = frontier@;
            let n: Rc<NodeRc<N>> = frontier.pop().unwrap();
            if nodes < u64::MAX {
                nodes = nodes + 1;
            }
            proof {
                assert(rc_node_ok(&n, initial, dim));
                assert(n == fr0.last());
                assert(frontier@ == fr0.drop_last());
                assert forall|i: int, j: int|
                    #![trigger frontier@[i], frontier@[j]]
                    0 <= i <= j < frontier@.len() implies frontier@[i].f >= frontier@[j].f by {
                    assert(frontier@[i] == fr0[i] && frontier@[j] == fr0[j]);
                }
            }

            if n.puzzle == goal {
                proof {
                    lemma_rc_chain_ok(&*n, initial, dim);
                    if initial@ == goal_seq(N as int) || n.g == 0 {
                        assert(n.g <= visited@.len());
                        match &n.prev {
                            Option::Some(_) => {
                                assert(false);
                            },
                            Option::None => {},
                        }
                    }
                }
                let path = SolverRc::reconstruct_path(n);
                return (path, nodes);
            }

            let hash = n.puzzle.hash_u64();
            if !contains_hash(&visited, hash) {
                let ghost sv0 = visited@;
                let ghost vis0 = vset;
                visited.push(hash);
                proof {
                    assert(!vis0.contains(hash));
                    vset = vset.insert(hash);
                    assert(vset.len() == vis0.len() + 1);
                    assert(visited.len() == visited@.len());
                    assert(n.g < u64::MAX);
                    assert forall|x: u64| #[trigger] vset.contains(x) <==> visited@.contains(
                        x,
                    ) by {
                        if x == hash {
                            assert(visited@[visited@.len() - 1] == hash);
                        } else {
                            if visited@.contains(x) {
                                let i = choose|i: int|
                                    0 <= i < visited@.len() && visited@[i] == x;
                                assert(sv0[i] == x);
                            }
                            if sv0.contains(x) {
                                let i = choose|i: int| 0 <= i < sv0.len() && sv0[i] == x;
                                assert(visited@[i] == x);
                            }
                        }
                    }
                    assert(n.puzzle@ != goal_seq(N as int));
                    crate::puzzle::lemma_goal_wf(N as int);
                    if hash_of(n.puzzle@) == hash_of(goal_seq(N as int)) {
                        lemma_hash_injective(n.puzzle@, goal_seq(N as int));
                        assert(false);
                    }
                    let fb0 = rc_fboards(fr0);
                    let fb1 = rc_fboards(frontier@);
                    assert(fb0[fr0.len() - 1] == n.puzzle@);
                    assert forall|k: int|
                        0 <= k < fb0.len() implies covered(#[trigger] fb0[k], vset, fb1) by {
                        if k < fb0.len() - 1 {
                            assert(fb1[k] == fb0[k]);
                            assert(hash_of(fb1[k]) == hash_of(fb0[k]));
                        } else {
                            assert(vset.contains(hash_of(fb0[k])));
                        }
                    }
                    lemma_covered_migrate(initial@, vis0, fb0, vset, fb1);
                    lemma_closure_insert(vis0, fb0, fb1, hash, N as int, dim);
                    assert(vset == vis0.insert(hash));
                }
                let neighbors = n.puzzle.on_neighbors();
                let mut ni: usize = 0;
                while ni < neighbors.len()
                    invariant
                        valid_size(N as int),
                        wf_board(initial@, N as int),
                        dim == dim_of(N as int),
                        goal@ == goal_seq(N as int),
                        initial@ != goal_seq(N as int),
                        rc_frontier_ok(frontier@, initial, dim, visited@.len()),
                        visited@.len() <= nodes,
                        1 <= nodes,
                        rc_node_ok(&n, initial, dim),
                        n.g < u64::MAX,
                        n.g + 1 <= visited@.len(),
                        hash == hash_of(n.puzzle@),
                        vset.contains(hash),
                        rc_frontier_sorted(frontier@),
                        forall|x: u64| #[trigger] vset.contains(x) <==> visited@.contains(x),
                        covered(initial@, vset, rc_fboards(frontier@)),
                        expansion_closed_except(vset, rc_fboards(frontier@), hash, N as int, dim),
                        !vset.contains(hash_of(goal_seq(N as int))),
                        forall|k: int|
                            0 <= k < ni ==> covered(
                                (#[trigger] neighbors@[k])@,
                                vset,
                                rc_fboards(frontier@),
                            ),
                        ni <= neighbors@.len(),
                        forall|k: int|
                            0 <= k < neighbors@.len() ==> is_move(
                                n.puzzle@,
                                (#[trigger] neighbors@[k])@,
                                neighbors@[k].action,
                                N as int,
                                dim,
                            ) && wf_board(neighbors@[k]@, N as int),
                    decreases neighbors@.len() - ni,
                {
                    let nb = &neighbors[ni];
                    let hash2 = nb.hash_u64();
                    if !contains_hash(&visited, hash2) {
                        let child = NodeRc::new_child(nb.clone(), rc_clone(&n));
                        let child_rc = Rc::new(child);
                        proof {
                            assert(rc_node_ok(&child_rc, initial, dim));
                        }
                        let mut ins_index: Option<usize> = None;
                        let mut k = frontier.len();
                        while k > 0
                            invariant_except_break
                                ins_index.is_none(),
                            invariant
                                k <= frontier@.len(),
                                forall|m: int|
                                    k <= m < frontier@.len() ==> (#[trigger] frontier@[m]).f
                                        <= child_rc.f,
                            ensures
                                match ins_index {
                                    Option::Some(i) => {
                                        &&& 1 <= i <= frontier@.len()
                                        &&& frontier@[i - 1].f > child_rc.f
                                        &&& forall|m: int|
                                            i <= m < frontier@.len() ==> (#[trigger] frontier@[m]).f
                                                <= child_rc.f
                                    },
                                    Option::None => forall|m: int|
                                        0 <= m < frontier@.len() ==> (#[trigger] frontier@[m]).f
                                            <= child_rc.f,
                                },
                            decreases k,
                        {
                            if child_rc.f < frontier[k - 1].f {
                                ins_index = Some(k);
                                break;
                            }
                            k -= 1;
                        }
                        let ghost pre = frontier@;
                        let pos = match ins_index {
                            Option::None => 0,
                            Option::Some(i) => i,
                        };
                        frontier.insert(pos, child_rc);
                        proof {
                            pre.insert_ensures(pos as int, child_rc);
                            assert forall|m: int|
                                0 <= m < frontier@.len() implies ((#[trigger] frontier@[m])
                                == child_rc || pre.contains(frontier@[m])) by {
                                if m < pos {
                                    assert(frontier@[m] == pre[m]);
                                } else if m > pos {
                                    assert(frontier@[m] == pre[m - 1]);
                                }
                            }
                            assert forall|i: int, j: int|
                                #![trigger frontier@[i], frontier@[j]]
                                0 <= i <= j < frontier@.len() implies frontier@[i].f
                                >= frontier@[j].f by {
                                if i < pos {
                                    assert(frontier@[i] == pre[i]);
                                }
                                if j < pos {
                                    assert(frontier@[j] == pre[j]);
                                }
                                if i > pos {
                                    assert(frontier@[i] == pre[i - 1]);
                                }
                                if j > pos {
                                    assert(frontier@[j] == pre[j - 1]);
                                }
                                if i < pos && j == pos as int {
                                    assert(pre[i].f >= pre[pos - 1].f);
                                }
                                if i == pos as int && j > pos {
                                    assert(pre[j - 1].f <= child_rc.f);
                                }
                            }
                            assert forall|m: int|
                                0 <= m < pre.len() implies frontier@.contains(
                                #[trigger] pre[m],
                            ) by {
                                if m < pos {
                                    assert(frontier@[m] == pre[m]);
                                } else {
                                    assert(frontier@[m + 1] == pre[m]);
                                }
                            }
                            assert(frontier@[pos as int] == child_rc);
                            let fbp = rc_fboards(pre);
                            let fbn = rc_fboards(frontier@);
                            assert forall|k: int|
                                0 <= k < fbp.len() implies covered(
                                #[trigger] fbp[k],
                                vset,
                                fbn,
                            ) by {
                                assert(frontier@.contains(pre[k]));
                                let m = choose|m: int|
                                    0 <= m < frontier@.len() && frontier@[m] == pre[k];
                                assert(fbn[m] == fbp[k]);
                                assert(hash_of(fbn[m]) == hash_of(fbp[k]));
                            }
                            lemma_covered_migrate(initial@, vset, fbp, vset, fbn);
                            lemma_closure_except_grow(vset, fbp, fbn, hash, N as int, dim);
                            assert forall|k: int|
                                0 <= k < ni implies covered(
                                (#[trigger] neighbors@[k])@,
                                vset,
                                fbn,
                            ) by {
                                lemma_covered_migrate(neighbors@[k]@, vset, fbp, vset, fbn);
                            }
                            assert(fbn[pos as int] == neighbors@[ni as int]@);
                            assert(hash_of(fbn[pos as int]) == hash_of(neighbors@[ni as int]@));
                            assert(covered(neighbors@[ni as int]@, vset, fbn));
                        }
                    } else {
                        proof {
                            assert(vset.contains(hash_of(neighbors@[ni as int]@)));
                            assert(covered(neighbors@[ni as int]@, vset, rc_fboards(frontier@)));
                        }
                    }
                    ni = ni + 1;
                }
                proof {
                    let fbe = rc_fboards(frontier@);
                    assert forall|s: Seq<u8>, act: Action|
                        #![trigger vset.contains(hash_of(s)), can_move(blank_index(s), act, dim)]
                        (wf_board(s, N as int) && vset.contains(hash_of(s)) && act != Action::Start
                            && can_move(blank_index(s), act, dim)) implies covered(
                        moved_board(s, blank_index(s), act, dim),
                        vset,
                        fbe,
                    ) by {
                        if hash_of(s) != hash {
                            assert(covered(moved_board(s, blank_index(s), act, dim), vset, fbe));
                        } else {
                            assert(N <= 16);
                            lemma_hash_injective(s, n.puzzle@);
                            assert(s == n.puzzle@);
                            lemma_avail_complete(blank_index(n.puzzle@), dim, act);
                            let k = choose|k: int|
                                0 <= k < avail_dirs(blank_index(n.puzzle@), dim).len()
                                    && avail_dirs(blank_index(n.puzzle@), dim)[k] == act;
                            assert(neighbors@[k].action == act);
                            assert(is_move(n.puzzle@, neighbors@[k]@, act, N as int, dim));
                            assert(neighbors@[k]@ == moved_board(
                                n.puzzle@,
                                blank_index(n.puzzle@),
                                act,
                                dim,
                            ));
                            assert(covered(neighbors@[k]@, vset, fbe));
                        }
                    }
                    assert(expansion_closed(vset, fbe, N as int, dim));
                }
            } else {
                proof {
                    assert(vset.contains(hash));
                    let fb0 = rc_fboards(fr0);
                    let fb1 = rc_fboards(frontier@);
                    assert(fb0[fr0.len() - 1] == n.puzzle@);
                    assert(vset.contains(hash_of(fb0[fr0.len() - 1])));
                    assert forall|k: int|
                        0 <= k < fb0.len() implies covered(#[trigger] fb0[k], vset, fb1) by {
                        if k < fb0.len() - 1 {
                            assert(fb1[k] == fb0[k]);
                            assert(hash_of(fb1[k]) == hash_of(fb0[k]));
                        }
                    }
                    lemma_covered_migrate(initial@, vset, fb0, vset, fb1);
                    lemma_closure_grow(vset, fb0, fb1, N as int, dim);
                }
            }
        }
        proof {
            assert(rc_fboards(frontier@) =~= Seq::<Seq<u8>>::empty());
            assert(vset.contains(hash_of(initial@)));
            if reachable(initial@, goal_seq(N as int), dim) {
                let kk = choose|kk: nat|
                    #[trigger] reachable_in(initial@, goal_seq(N as int), dim, kk);
                crate::puzzle::lemma_goal_wf(N as int);
                lemma_closed_reaches(vset, initial@, goal_seq(N as int), N as int, dim, kk);
                assert(false);
            }
            lemma_exhausted_count(vset, initial@, N as int, dim);
        }
        (Vec::new(), nodes)
    }
}

} // verus!
