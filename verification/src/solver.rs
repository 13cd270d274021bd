use vstd::prelude::*;

use crate::board::{iset, lemma_board_determined, lemma_queens_bound, same_board, Board};
use crate::evaluator::Evaluator;
use crate::normalized::{
    canonical_choice, extendable, full_extension, in_range, lemma_extendable_shrink,
    lemma_rotate_extendable, lemma_rotate_extendable_n, lemma_rotate_monotone,
    lemma_rotation_cycle, rotate_set, rotate_set_n, NormalizedBoard,
};

verus! {

/// The fingerprints recorded in the dead-end store.
pub uninterp spec fn trie_keys(t: radix_trie::Trie<Vec<usize>, ()>) -> Set<Seq<usize>>;

#[verifier::external_type_specification]
#[verifier::external_body]
#[verifier::reject_recursive_types(K)]
#[verifier::reject_recursive_types(V)]
pub struct ExTrie<K, V>(radix_trie::Trie<K, V>);

/// Relies on radix_trie::Trie::new: a new trie holds no key.
#[verifier::external_body]
fn trie_new() -> (t: radix_trie::Trie<Vec<usize>, ()>)
    ensures
        trie_keys(t) == Set::<Seq<usize>>::empty(),
{
    radix_trie::Trie::new()
}

/// Relies on radix_trie::Trie::get, which finds exactly the keys that were
/// inserted: the answer says whether this exact key is recorded.  Keys are
/// encoded element-wise in fixed-width big-endian bytes, so distinct key
/// vectors never collide.
#[verifier::external_body]
fn trie_contains(t: &radix_trie::Trie<Vec<usize>, ()>, key: &Vec<usize>) -> (r: bool)
    ensures
        r == trie_keys(*t).contains(key@),
{
    t.get(key).is_some()
}

/// Relies on radix_trie::Trie::insert: afterwards the key is recorded and
/// every other key is as before.
#[verifier::external_body]
fn trie_insert(t: &mut radix_trie::Trie<Vec<usize>, ()>, key: Vec<usize>)
    ensures
        trie_keys(*final(t)) == trie_keys(*old(t)).insert(key@),
{
    t.insert(key, ());
}

/// Inserting a value into a sequence adds exactly that value to its
/// multiset of entries.
proof fn lemma_insert_multiset<A>(s1: Seq<A>, s2: Seq<A>, pos: int, x: A)
    requires
        0 <= pos <= s1.len(),
        s2 == s1.insert(pos, x),
    ensures
        s2.to_multiset() == s1.to_multiset().insert(x),
{
    broadcast use vstd::seq_lib::group_to_multiset_ensures;
    broadcast use vstd::multiset::group_multiset_axioms;

    let a = s1.subrange(0, pos);
    let b = s1.subrange(pos, s1.len() as int);
    assert(s1 =~= a + b);
    assert(s2 =~= a.push(x) + b);
    vstd::seq_lib::lemma_multiset_commutative(a, b);
    vstd::seq_lib::lemma_multiset_commutative(a.push(x), b);
    assert(a.push(x).to_multiset() =~= a.to_multiset().insert(x));
    assert(a.to_multiset().insert(x).add(b.to_multiset()) =~= a.to_multiset().add(
        b.to_multiset(),
    ).insert(x));
    assert(s2.to_multiset() =~= s1.to_multiset().insert(x));
}

/// Every fingerprint the store holds marks a dead position at width `w`:
/// no complete placement extends the queens it lists.
pub open spec fn store_sound(keys: Set<Seq<usize>>, w: int) -> bool {
    forall|f: Seq<usize>| #[trigger] keys.contains(f) ==> !extendable(iset(f), w)
}

/// Entries never decrease.
pub open spec fn sorted_nondec(s: Seq<usize>) -> bool {
    forall|a: int, b: int| 0 <= a < b < s.len() ==> s[a] <= s[b]
}

/// Insert a value into an ascending vector, after any equal entries.
fn insert_value(out: &mut Vec<usize>, x: usize)
    requires
        sorted_nondec(old(out)@),
    ensures
        final(out)@.len() == old(out)@.len() + 1,
        sorted_nondec(final(out)@),
        final(out)@.to_multiset() == old(out)@.to_multiset().insert(x),
        forall|y: usize| final(out)@.contains(y) <==> (old(out)@.contains(y) || y == x),
{
    let total = out.len();
    let mut pos: usize = 0;
    while pos < total && out[pos] <= x
        invariant
            total as int == out@.len(),
            pos <= total,
            out@ == old(out)@,
            forall|k: int| 0 <= k < pos as int ==> out@[k] <= x,
        decreases total as int - pos as int,
    {
        pos = pos + 1;
    }
    proof {
        assert(pos as int == out@.len() || out@[pos as int] > x);
    }
    out.insert(pos, x);
    proof {
        let s1 = old(out)@;
        let s2 = out@;
        lemma_insert_multiset(s1, s2, pos as int, x);
        assert forall|a: int, b: int| 0 <= a < b < s2.len() implies s2[a] <= s2[b] by {
            if b < pos as int {
                assert(s2[a] == s1[a] && s2[b] == s1[b]);
            } else if a > pos as int {
                assert(s2[a] == s1[a - 1] && s2[b] == s1[b - 1]);
            } else if a == pos as int && b > pos as int {
                assert(s2[b] == s1[b - 1] && s1[b - 1] > x);
            } else if a < pos as int && b == pos as int {
                assert(s2[a] == s1[a]);
            } else {
                assert(a < pos as int && b > pos as int);
                assert(s2[a] == s1[a] && s2[b] == s1[b - 1]);
                assert(s1[b - 1] > x);
            }
        }
        assert forall|y: usize| s2.contains(y) implies (s1.contains(y) || y == x) by {
            let k = choose|k: int| 0 <= k < s2.len() && s2[k] == y;
            if k < pos as int {
                assert(s1[k] == y);
            } else if k > pos as int {
                assert(s1[k - 1] == y);
            }
        }
        assert forall|y: usize| (s1.contains(y) || y == x) implies s2.contains(y) by {
            if y == x {
                assert(s2[pos as int] == y);
            } else {
                let k = choose|k: int| 0 <= k < s1.len() && s1[k] == y;
                if k < pos as int {
                    assert(s2[k] == y);
                } else {
                    assert(s2[k + 1] == y);
                }
            }
        }
    }
}

/// Copy of `v` with the same entries in ascending order: the fingerprint
/// under which a dead path is looked up.
fn sort_ascending(v: &Vec<usize>) -> (r: Vec<usize>)
    ensures
        r@.len() == v@.len(),
        sorted_nondec(r@),
        r@.to_multiset() == v@.to_multiset(),
        forall|x: usize| r@.contains(x) <==> v@.contains(x),
{
    let total = v.len();
    let mut out: Vec<usize> = Vec::new();
    proof {
        assert(v@.subrange(0, 0) =~= out@);
    }
    let mut i: usize = 0;
    while i < total
        invariant
            total as int == v@.len(),
            i <= total,
            out@.len() == i as int,
            sorted_nondec(out@),
            out@.to_multiset() == v@.subrange(0, i as int).to_multiset(),
            forall|x: usize| out@.contains(x) <==> v@.subrange(0, i as int).contains(x),
        decreases total as int - i as int,
    {
        let ghost prev = out@;
        insert_value(&mut out, v[i]);
        proof {
            let sub1 = v@.subrange(0, i as int);
            let sub2 = v@.subrange(0, i as int + 1);
            assert(sub2 =~= sub1.push(v@[i as int]));
            assert(sub2.to_multiset() =~= sub1.to_multiset().insert(v@[i as int])) by {
                broadcast use vstd::seq_lib::group_to_multiset_ensures;

            }
            assert forall|x: usize| out@.contains(x) implies sub2.contains(x) by {
                if x == v@[i as int] {
                    assert(sub2[sub2.len() - 1] == x);
                } else {
                    assert(prev.contains(x));
                    let k = choose|k: int| 0 <= k < sub1.len() && sub1[k] == x;
                    assert(sub2[k] == x);
                }
            }
            assert forall|x: usize| sub2.contains(x) implies out@.contains(x) by {
                let k = choose|k: int| 0 <= k < sub2.len() && sub2[k] == x;
                if k < sub1.len() {
                    assert(sub1[k] == x);
                    assert(prev.contains(x));
                }
            }
        }
        i = i + 1;
    }
    proof {
        assert(v@.subrange(0, total as int) =~= v@);
    }
    out
}

/// Insert a scored candidate into a score-ascending vector, after any
/// equally scored entries, so equal scores keep their relative order.
fn insert_scored(out: &mut Vec<(usize, u64)>, e: (usize, u64))
    requires
        forall|a: int, b: int| 0 <= a < b < old(out)@.len() ==> old(out)@[a].1 <= old(out)@[b].1,
    ensures
        final(out)@.len() == old(out)@.len() + 1,
        forall|a: int, b: int|
            0 <= a < b < final(out)@.len() ==> (#[trigger] final(out)@[a]).1
                <= (#[trigger] final(out)@[b]).1,
        final(out)@.to_multiset() == old(out)@.to_multiset().insert(e),
        forall|k: int|
            0 <= k < final(out)@.len() ==> ((#[trigger] final(out)@[k]) == e
                || old(out)@.contains(final(out)@[k])),
{
    let total = out.len();
    let mut pos: usize = 0;
    while pos < total && out[pos].1 <= e.1
        invariant
            total as int == out@.len(),
            pos <= total,
            out@ == old(out)@,
            forall|k: int| 0 <= k < pos as int ==> out@[k].1 <= e.1,
        decreases total as int - pos as int,
    {
        pos = pos + 1;
    }
    proof {
        assert(pos as int == out@.len() || out@[pos as int].1 > e.1);
    }
    out.insert(pos, e);
    proof {
        let s1 = old(out)@;
        let s2 = out@;
        lemma_insert_multiset(s1, s2, pos as int, e);
        assert forall|a: int, b: int| 0 <= a < b < s2.len() implies s2[a].1 <= s2[b].1 by {
            if b < pos as int {
                assert(s2[a] == s1[a] && s2[b] == s1[b]);
            } else if a > pos as int {
                assert(s2[a] == s1[a - 1] && s2[b] == s1[b - 1]);
            } else if a == pos as int && b > pos as int {
                assert(s2[b] == s1[b - 1] && s1[b - 1].1 > e.1);
            } else if a < pos as int && b == pos as int {
                assert(s2[a] == s1[a]);
            } else {
                assert(a < pos as int && b > pos as int);
                assert(s2[a] == s1[a] && s2[b] == s1[b - 1]);
                assert(s1[b - 1].1 > e.1);
            }
        }
        assert forall|k: int| 0 <= k < s2.len() implies ((#[trigger] s2[k]) == e || s1.contains(
            s2[k],
        )) by {
            if k < pos as int {
                assert(s2[k] == s1[k]);
            } else if k > pos as int {
                assert(s2[k] == s1[k - 1]);
            }
        }
    }
}

/// Candidates ordered by ascending score; every entry of the result comes
/// from the input.
fn sort_by_score(v: &Vec<(usize, u64)>) -> (r: Vec<(usize, u64)>)
    ensures
        r@.len() == v@.len(),
        r@.to_multiset() == v@.to_multiset(),
        forall|a: int, b: int| 0 <= a < b < r@.len() ==> r@[a].1 <= r@[b].1,
        forall|k: int| 0 <= k < r@.len() ==> v@.contains(#[trigger] r@[k]),
        forall|e: (usize, u64)| v@.contains(e) ==> r@.contains(e),
{
    let total = v.len();
    let mut out: Vec<(usize, u64)> = Vec::new();
    proof {
        assert(v@.subrange(0, 0) =~= out@);
    }
    let mut i: usize = 0;
    while i < total
        invariant
            total as int == v@.len(),
            i <= total,
            out@.len() == i as int,
            out@.to_multiset() == v@.subrange(0, i as int).to_multiset(),
            forall|a: int, b: int| 0 <= a < b < out@.len() ==> out@[a].1 <= out@[b].1,
            forall|k: int| 0 <= k < out@.len() ==> v@.contains(#[trigger] out@[k]),
        decreases total as int - i as int,
    {
        let ghost prev = out@;
        insert_scored(&mut out, v[i]);
        proof {
            assert(v@.contains(v@[i as int]));
            let sub1 = v@.subrange(0, i as int);
            let sub2 = v@.subrange(0, i as int + 1);
            assert(sub2 =~= sub1.push(v@[i as int]));
            assert(sub2.to_multiset() =~= sub1.to_multiset().insert(v@[i as int])) by {
                broadcast use vstd::seq_lib::group_to_multiset_ensures;

            }
            assert forall|k: int| 0 <= k < out@.len() implies v@.contains(
                #[trigger] out@[k],
            ) by {
                if out@[k] != v@[i as int] {
                    assert(prev.contains(out@[k]));
                }
            }
        }
        i = i + 1;
    }
    proof {
        assert(v@.subrange(0, total as int) =~= v@);
        assert forall|e: (usize, u64)| v@.contains(e) implies out@.contains(e) by {
            broadcast use vstd::seq_lib::group_to_multiset_ensures;

            assert(v@.to_multiset().count(e) > 0);
            assert(out@.to_multiset().count(e) > 0);
        }
    }
    out
}

/// Outcome of a `solve` call: the terminal board in the caller's original
/// orientation, whether it is solved, and how many nodes the search
/// expanded.
#[derive(Debug, Clone, PartialEq, Eq)]
pub struct Solution {
    pub board: Board,
    pub success: bool,
    pub jumps: usize,
}

/// Heuristic-guided backtracking search over canonicalized boards, with a
/// persistent store of queen-set fingerprints known to admit no solution.
/// The store and the expansion counter live as long as the solver.  A
/// fingerprint only means "dead" for the board width it was recorded at,
/// so the contracts carry the store's soundness per width: a fresh solver
/// starts sound for every width, and solving keeps it sound for the width
/// it was used at.
pub struct Solver<E> {
    depleted: radix_trie::Trie<Vec<usize>, ()>,
    evaluator: E,
    jumps: usize,
}

impl<E: Evaluator> Solver<E> {
    /// Nodes expanded so far, over all calls.
    pub closed spec fn spec_jumps(self) -> int {
        self.jumps as int
    }

    /// The fingerprints the dead-end store holds.
    pub closed spec fn spec_depleted(self) -> Set<Seq<usize>> {
        trie_keys(self.depleted)
    }

    pub fn new(evaluator: E) -> (r: Solver<E>)
        ensures
            r.spec_jumps() == 0,
            r.spec_depleted() == Set::<Seq<usize>>::empty(),
    {
        Solver { depleted: trie_new(), evaluator, jumps: 0 }
    }

    /// Search for a completion of `board` to a full non-attacking
    /// placement.  On success the result extends the given queens to a
    /// solved board; on failure the board comes back exactly as it went
    /// in.  When the dead-end store is sound for this width - as a fresh
    /// solver's empty store trivially is - the search is complete: a
    /// winnable non-empty board is always solved, and an empty board is
    /// solved whenever some solution holds the probe square the search
    /// seeds (index 0; a one-wide board is the lone degenerate exception).
    /// The expansion counter only grows (it saturates at the machine
    /// limit).
    pub fn solve(&mut self, board: Board) -> (sol: Solution)
        requires
            board.wf(),
            board.spec_width() >= 1,
        ensures
            sol.board.wf(),
            sol.board.spec_width() == board.spec_width(),
            sol.success ==> sol.board.spec_queens().len() == board.spec_width(),
            sol.success ==> board.qset().subset_of(sol.board.qset()),
            !sol.success ==> same_board(sol.board, board),
            board.spec_queens().len() == board.spec_width() ==> sol.success && same_board(
                sol.board,
                board,
            ),
            sol.jumps as int == final(self).spec_jumps(),
            final(self).spec_jumps() >= old(self).spec_jumps(),
            store_sound(old(self).spec_depleted(), board.spec_width()) && (
            board.spec_queens().len() > 0 || board.spec_width() >= 2) ==> store_sound(
                final(self).spec_depleted(),
                board.spec_width(),
            ),
            store_sound(old(self).spec_depleted(), board.spec_width())
                && board.spec_queens().len() > 0 && extendable(board.qset(), board.spec_width())
                ==> sol.success,
            store_sound(old(self).spec_depleted(), board.spec_width())
                && board.spec_queens().len() == 0 && board.spec_width() >= 2 && extendable(
                Set::<int>::empty().insert(0),
                board.spec_width(),
            ) ==> sol.success,
    {
        let ghost pre = board;
        let mut normalized = NormalizedBoard::new(board);
        let ghost nb0 = normalized;
        let ghost w = nb0.spec_board().spec_width();
        let ghost u0 = ((4 - nb0.spec_rotations()) % 4) as nat;
        let mut path: Vec<usize> = Vec::new();
        let was_empty = normalized.is_empty();
        proof {
            assert(iset(path@) =~= Set::<int>::empty());
        }
        let result = self.solve_rec(&mut normalized, &mut path);
        let ghost nb_rec = normalized;
        proof {
            if !result.0 && store_sound(old(self).spec_depleted(), w) {
                if pre.spec_queens().len() > 0 {
                    // the failed canonical board is dead, so the input is
                    assert(nb_rec.spec_board().spec_queens().len() != w);
                    assert(!extendable(nb0.spec_board().qset(), w)) by {
                        assert(nb_rec.spec_board().qset() == nb0.spec_board().qset());
                    }
                    let rr = choose|rr: int|
                        canonical_choice(pre.qset(), w, rr) && nb0.spec_rotations() == rr
                            && nb0.spec_board().qset() == #[trigger] rotate_set_n(
                            pre.qset(),
                            w,
                            rr as nat,
                        );
                    assert(in_range(pre.qset(), w)) by {
                        assert(forall|q: int|
                            pre.qset().contains(q) ==> 0 <= q < pre.spec_cells().len());
                    }
                    lemma_rotate_extendable_n(pre.qset(), w, rr as nat);
                    assert(!extendable(pre.qset(), w));
                } else if w >= 2 {
                    // the seeded board is dead, so no completion holds the
                    // probe square
                    assert(nb_rec.spec_board().spec_queens().len() == 1);
                    assert(!extendable(nb_rec.spec_board().qset(), w));
                    assert(nb_rec.spec_board().qset() =~= Set::<int>::empty().insert(0)) by {
                        assert(nb0.spec_board().qset() =~= Set::<int>::empty());
                    }
                }
            }
        }
        if !result.0 && was_empty {
            // the search seeds an empty board with one probe queen; a
            // failed call hands the board back unchanged, so take the
            // probe out again
            proof {
                assert(normalized.spec_board().qset().contains(0));
                assert(normalized.spec_board().spec_cells().len() >= 1) by (nonlinear_arith)
                    requires
                        normalized.spec_board().spec_cells().len() == w * w,
                        1 <= w,
                ;
                assert(normalized.spec_board().spec_cells()[0].spec_queen());
            }
            let ghost before = normalized.spec_board();
            normalized.toggle(0);
            proof {
                assert(normalized.spec_board().qset() =~= nb0.spec_board().qset()) by {
                    assert(before.qset() == nb0.spec_board().qset().insert(0));
                    assert(normalized.spec_board().qset() == before.qset().remove(0));
                    assert(!nb0.spec_board().qset().contains(0)) by {
                        assert(nb0.spec_board().qset() =~= Set::<int>::empty());
                    }
                }
            }
        }
        let ghost nb1 = normalized;
        let out = normalized.to_board();
        proof {
            assert(nb1.spec_rotations() == nb0.spec_rotations());
            assert(out.qset() == rotate_set_n(nb1.spec_board().qset(), w, u0));
            assert(pre.qset() == rotate_set_n(nb0.spec_board().qset(), w, u0));
            if result.0 {
                lemma_rotate_monotone(nb0.spec_board().qset(), nb1.spec_board().qset(), w, u0);
            }
            if pre.spec_queens().len() == pre.spec_width() {
                assert(nb1.spec_board().qset() == nb0.spec_board().qset());
                assert(out.qset() == pre.qset());
                lemma_board_determined(out, pre);
            }
            if !result.0 {
                assert(nb1.spec_board().qset() == nb0.spec_board().qset());
                assert(out.qset() == pre.qset());
                lemma_board_determined(out, pre);
            }
        }
        Solution { board: out, success: result.0, jumps: result.1 }
    }

    /// One node of the search: seed an empty board, stop on a solved or
    /// memoized one, otherwise score every free square, try them from the
    /// best down, and record a four-fold rotation fingerprint of any node
    /// whose children all fail.
    fn solve_rec(&mut self, board: &mut NormalizedBoard, path: &mut Vec<usize>) -> (r: (
        bool,
        usize,
    ))
        requires
            old(board).wf(),
            old(board).spec_board().spec_width() >= 1,
            iset(old(path)@).subset_of(old(board).spec_board().qset()),
        ensures
            final(board).wf(),
            final(board).spec_board().spec_width() == old(board).spec_board().spec_width(),
            final(board).spec_board().spec_cells().len()
                == old(board).spec_board().spec_cells().len(),
            final(board).spec_rotations() == old(board).spec_rotations(),
            r.0 ==> final(board).spec_board().spec_queens().len()
                == old(board).spec_board().spec_width(),
            r.0 ==> old(board).spec_board().qset().subset_of(final(board).spec_board().qset()),
            old(board).spec_board().spec_queens().len() == old(board).spec_board().spec_width()
                && old(board).spec_board().spec_queens().len() > 0 ==> r.0 && same_board(
                final(board).spec_board(),
                old(board).spec_board(),
            ),
            !r.0 && old(board).spec_board().spec_queens().len() > 0 ==> same_board(
                final(board).spec_board(),
                old(board).spec_board(),
            ),
            !r.0 && old(board).spec_board().spec_queens().len() == 0
                ==> final(board).spec_board().qset() == old(board).spec_board().qset().insert(0)
                && final(board).spec_board().spec_queens().len() == 1,
            !r.0 ==> final(path)@ == old(path)@,
            r.1 as int == final(self).spec_jumps(),
            final(self).spec_jumps() >= old(self).spec_jumps(),
            store_sound(old(self).spec_depleted(), old(board).spec_board().spec_width()) && (old(
                board,
            ).spec_board().spec_queens().len() > 0 || old(board).spec_board().spec_width() >= 2)
                ==> store_sound(
                final(self).spec_depleted(),
                old(board).spec_board().spec_width(),
            ),
            store_sound(old(self).spec_depleted(), old(board).spec_board().spec_width()) && !r.0
                && final(board).spec_board().spec_queens().len() != old(
                board,
            ).spec_board().spec_width() ==> !extendable(
                final(board).spec_board().qset(),
                old(board).spec_board().spec_width(),
            ),
        decreases old(board).spec_board().spec_cells().len() - old(
            board,
        ).spec_board().spec_queens().len(),
    {
        let ghost entry = *board;
        let ghost w = entry.spec_board().spec_width();
        let ghost n = entry.spec_board().spec_cells().len() as int;
        let _cell_total = board.board().cell_count();
        proof {
            lemma_queens_bound(entry.spec_board());
            assert(n <= usize::MAX as int);
            assert(1 <= n) by (nonlinear_arith)
                requires
                    1 <= w,
                    n == w * w,
            ;
        }
        if board.is_empty() {
            proof {
                assert(crate::board::free_square(entry.spec_board().qset(), 0, w)) by {
                    assert(forall|q: int| !entry.spec_board().qset().contains(q));
                }
            }
            board.toggle(0);
            proof {
                crate::board::lemma_queen_count(entry.spec_board());
                crate::board::lemma_queen_count(board.spec_board());
                assert(board.spec_board().qset() == entry.spec_board().qset().insert(0));
                assert(board.spec_board().qset().len() == 1) by {
                    assert(entry.spec_board().qset().len() == 0);
                }
            }
        } else if board.is_solved() {
            return (true, self.jumps);
        }
        let ghost sb = board.spec_board();
        let ghost rot_s = board.spec_rotations();
        let ghost s_len = sb.spec_queens().len() as int;
        proof {
            assert(s_len >= 1);
            lemma_queens_bound(sb);
        }
        let sorted = sort_ascending(path);
        if trie_contains(&self.depleted, &sorted) {
            proof {
                if store_sound(old(self).spec_depleted(), w) {
                    assert(!extendable(iset(sorted@), w));
                    assert(iset(sorted@) =~= iset(path@)) by {
                        assert forall|q: int| iset(sorted@).contains(q) implies iset(
                            path@,
                        ).contains(q) by {
                            let k = choose|k: int|
                                0 <= k < sorted@.len() && sorted@[k] as int == q;
                            assert(sorted@.contains(sorted@[k]));
                            assert(path@.contains(sorted@[k]));
                            let m = choose|m: int| 0 <= m < path@.len() && path@[m] == sorted@[k];
                            assert(path@[m] as int == q);
                        }
                        assert forall|q: int| iset(path@).contains(q) implies iset(
                            sorted@,
                        ).contains(q) by {
                            let k = choose|k: int| 0 <= k < path@.len() && path@[k] as int == q;
                            assert(path@.contains(path@[k]));
                            assert(sorted@.contains(path@[k]));
                            let m = choose|m: int|
                                0 <= m < sorted@.len() && sorted@[m] == path@[k];
                            assert(sorted@[m] as int == q);
                        }
                    }
                    assert(iset(path@).subset_of(board.spec_board().qset())) by {
                        assert forall|q: int| iset(path@).contains(q) implies board.spec_board(
                        ).qset().contains(q) by {
                            assert(entry.spec_board().qset().contains(q));
                        }
                    }
                    assert(!extendable(board.spec_board().qset(), w)) by {
                        if extendable(board.spec_board().qset(), w) {
                            lemma_extendable_shrink(
                                iset(path@),
                                board.spec_board().qset(),
                                w,
                            );
                        }
                    }
                }
            }
            return (false, self.jumps);
        }
        if self.jumps < usize::MAX {
            self.jumps = self.jumps + 1;
        }
        let last_move = if path.len() > 0 {
            path[path.len() - 1]
        } else {
            0
        };
        let avail = board.available();
        let mut frontier: Vec<(usize, u64)> = Vec::new();
        let mut idx: usize = 0;
        while idx < avail.len()
            invariant
                idx <= avail@.len(),
                board.wf(),
                sb.wf(),
                same_board(board.spec_board(), sb),
                board.spec_rotations() == rot_s,
                board.spec_board().spec_width() == w,
                1 <= w,
                n == w * w,
                sb.spec_width() == w,
                sb.spec_cells().len() == n,
                forall|k: int|
                    0 <= k < avail@.len() ==> (#[trigger] avail@[k] as int) < n
                        && sb.spec_cells()[avail@[k] as int].spec_free(),
                frontier@.len() == idx as int,
                self.spec_depleted() == old(self).spec_depleted(),
                forall|k: int|
                    0 <= k < frontier@.len() ==> (#[trigger] frontier@[k]).0 == avail@[k],
                forall|k: int|
                    0 <= k < frontier@.len() ==> (#[trigger] frontier@[k].0 as int) < n
                        && sb.spec_cells()[frontier@[k].0 as int].spec_free(),
            decreases avail@.len() - idx as int,
        {
            let cand = avail[idx];
            let ghost before = board.spec_board();
            proof {
                crate::board::lemma_free_iff(before, cand as int);
            }
            board.toggle(cand);
            let score = self.evaluator.score(board.board(), last_move);
            let ghost mid = board.spec_board();
            proof {
                assert(mid.spec_cells()[cand as int].spec_queen()) by {
                    assert(mid.qset() == before.qset().insert(cand as int));
                    assert(mid.qset().contains(cand as int));
                }
            }
            board.toggle(cand);
            proof {
                assert(!before.qset().contains(cand as int)) by {
                    crate::board::lemma_free_iff(before, cand as int);
                    assert(crate::geometry::aligned(cand as int, cand as int, w));
                }
                assert(board.spec_board().qset() =~= before.qset());
                lemma_board_determined(board.spec_board(), sb);
            }
            frontier.push((cand, score));
            idx = idx + 1;
        }
        let mut unexplored = sort_by_score(&frontier);
        proof {
            assert forall|q: usize|
                (q as int) < n && (#[trigger] sb.spec_cells()[q as int]).spec_free() implies
                exists|k: int| 0 <= k < unexplored@.len() && (#[trigger] unexplored@[k]).0
                == q by {
                assert(avail@.contains(q));
                let m = choose|m: int| 0 <= m < avail@.len() && avail@[m] == q;
                assert(frontier@[m].0 == q);
                assert(frontier@.contains(frontier@[m]));
                assert(unexplored@.contains(frontier@[m]));
                let k = choose|k: int|
                    0 <= k < unexplored@.len() && unexplored@[k] == frontier@[m];
                assert(unexplored@[k].0 == q);
            }
        }
        let ghost entry_path = path@;
        while unexplored.len() > 0
            invariant
                board.wf(),
                sb.wf(),
                same_board(board.spec_board(), sb),
                board.spec_rotations() == rot_s,
                board.spec_board().spec_width() == w,
                1 <= w,
                n == w * w,
                sb.spec_width() == w,
                sb.spec_cells().len() == n,
                sb.spec_queens().len() == s_len,
                old(board).spec_board().spec_cells().len() as int == n,
                old(board).spec_board().spec_queens().len() as int <= s_len,
                old(board).spec_board().spec_queens().len() == 0 ==> sb.qset() == old(
                    board,
                ).spec_board().qset().insert(0),
                old(board).spec_board().spec_queens().len() > 0 ==> sb == old(
                    board,
                ).spec_board(),
                old(board).spec_board().spec_width() == w,
                old(board).spec_rotations() == rot_s,
                old(board).spec_board().spec_queens().len() == 0 || old(
                    board,
                ).spec_board().spec_queens().len() != old(board).spec_board().spec_width(),
                path@ == entry_path,
                iset(entry_path).subset_of(sb.qset()),
                self.spec_jumps() >= old(self).spec_jumps(),
                store_sound(old(self).spec_depleted(), w) ==> store_sound(
                    self.spec_depleted(),
                    w,
                ),
                n <= usize::MAX as int,
                store_sound(old(self).spec_depleted(), w) ==> forall|q: usize|
                    (q as int) < n && (#[trigger] sb.spec_cells()[q as int]).spec_free() && !(
                    exists|k: int|
                        0 <= k < unexplored@.len() && (#[trigger] unexplored@[k]).0 == q)
                        ==> !extendable(sb.qset().insert(q as int), w),
                forall|k: int|
                    0 <= k < unexplored@.len() ==> (#[trigger] unexplored@[k].0 as int) < n
                        && sb.spec_cells()[unexplored@[k].0 as int].spec_free(),
            decreases unexplored@.len(),
        {
            let ghost pre_unexplored = unexplored@;
            let next = unexplored.pop().unwrap();
            let ghost before = board.spec_board();
            proof {
                crate::board::lemma_free_iff(before, next.0 as int);
            }
            path.push(next.0);
            board.toggle(next.0);
            proof {
                crate::board::lemma_queen_count(before);
                crate::board::lemma_queen_count(board.spec_board());
                assert(!before.qset().contains(next.0 as int)) by {
                    assert(crate::geometry::aligned(next.0 as int, next.0 as int, w));
                }
                assert(board.spec_board().qset().len() == s_len + 1);
                lemma_queens_bound(board.spec_board());
            }
            let ghost child_entry = *board;
            proof {
                assert(iset(path@).subset_of(board.spec_board().qset())) by {
                    assert(path@ =~= entry_path.push(next.0));
                    assert forall|q: int| iset(path@).contains(q) implies board.spec_board(
                    ).qset().contains(q) by {
                        let k = choose|k: int| 0 <= k < path@.len() && path@[k] as int == q;
                        if k < entry_path.len() {
                            assert(entry_path[k] as int == q);
                            assert(iset(entry_path).contains(q));
                            assert(sb.qset().contains(q));
                        } else {
                            assert(path@[k] == next.0);
                        }
                        assert(board.spec_board().qset() == sb.qset().insert(next.0 as int));
                    }
                }
            }
            let sol = self.solve_rec(board, path);
            if sol.0 {
                proof {
                    assert(old(board).spec_board().qset().subset_of(
                        board.spec_board().qset(),
                    )) by {
                        assert(child_entry.spec_board().qset() == sb.qset().insert(
                            next.0 as int,
                        ));
                    }
                }
                return sol;
            }
            path.pop();
            proof {
                assert(path@ =~= entry_path);
                assert(same_board(board.spec_board(), child_entry.spec_board()));
                assert(board.spec_board().qset().contains(next.0 as int)) by {
                    assert(board.spec_board().qset() == sb.qset().insert(next.0 as int));
                }
                assert(board.spec_board().spec_cells()[next.0 as int].spec_queen());
            }
            board.toggle(next.0);
            proof {
                assert(board.spec_board().qset() =~= sb.qset()) by {
                    assert(!sb.qset().contains(next.0 as int)) by {
                        crate::board::lemma_free_iff(sb, next.0 as int);
                        assert(crate::geometry::aligned(next.0 as int, next.0 as int, w));
                    }
                }
                lemma_board_determined(board.spec_board(), sb);
                if store_sound(old(self).spec_depleted(), w) {
                    // the child was a full node that failed, so it is dead
                    assert(child_entry.spec_board().spec_queens().len() != w);
                    assert(!extendable(sb.qset().insert(next.0 as int), w)) by {
                        assert(child_entry.spec_board().qset() == sb.qset().insert(
                            next.0 as int,
                        ));
                    }
                    assert forall|q: usize|
                        (q as int) < n && (#[trigger] sb.spec_cells()[q as int]).spec_free() && !(
                        exists|k: int|
                            0 <= k < unexplored@.len() && (#[trigger] unexplored@[k]).0 == q)
                            implies !extendable(sb.qset().insert(q as int), w) by {
                        if q != next.0 {
                            if exists|k: int|
                                0 <= k < pre_unexplored.len() && (
                                #[trigger] pre_unexplored[k]).0 == q {
                                let k = choose|k: int|
                                    0 <= k < pre_unexplored.len() && (
                                    #[trigger] pre_unexplored[k]).0 == q;
                                assert(k < pre_unexplored.len() - 1) by {
                                    if k == pre_unexplored.len() - 1 {
                                        assert(pre_unexplored[k] == next);
                                    }
                                }
                                assert(unexplored@[k].0 == q);
                            }
                        }
                    }
                }
            }
        }
        proof {
            if store_sound(old(self).spec_depleted(), w) && s_len != w {
                assert(!extendable(sb.qset(), w)) by {
                    if extendable(sb.qset(), w) {
                        let full = choose|full: Set<int>|
                            #[trigger] full_extension(sb.qset(), full, w);
                        crate::board::lemma_queen_count(sb);
                        assert(exists|x: int| full.contains(x) && !sb.qset().contains(x)) by {
                            if forall|x: int| full.contains(x) ==> sb.qset().contains(x) {
                                assert(full =~= sb.qset());
                                assert(full.len() == s_len);
                            }
                        }
                        let x = choose|x: int| full.contains(x) && !sb.qset().contains(x);
                        assert(0 <= x < n) by {
                            assert(full.contains(x));
                        }
                        assert(crate::board::free_square(sb.qset(), x, w)) by {
                            assert forall|p: int| #[trigger] sb.qset().contains(p) implies
                                !crate::geometry::aligned(p, x, w) by {
                                assert(full.contains(p) && full.contains(x) && p != x);
                            }
                        }
                        crate::board::lemma_free_iff(sb, x);
                        let xu = x as usize;
                        assert((xu as int) < n && sb.spec_cells()[xu as int].spec_free());
                        assert(!extendable(sb.qset().insert(x), w));
                        assert(full_extension(sb.qset().insert(x), full, w));
                    }
                }
            }
        }
        let mut t: usize = 0;
        while t < 4
            invariant
                t <= 4,
                board.wf(),
                sb.wf(),
                board.spec_rotations() == rot_s,
                board.spec_board().spec_width() == w,
                board.spec_board().spec_cells().len() == n,
                1 <= w,
                n == w * w,
                sb.spec_width() == w,
                sb.spec_cells().len() == n,
                s_len == sb.spec_queens().len() as int,
                path@ == entry_path,
                self.spec_jumps() >= old(self).spec_jumps(),
                store_sound(old(self).spec_depleted(), w) && s_len != w ==> store_sound(
                    self.spec_depleted(),
                    w,
                ) && !extendable(rotate_set_n(sb.qset(), w, t as nat), w),
                board.spec_board().qset() == rotate_set_n(sb.qset(), w, t as nat),
            decreases 4 - t as int,
        {
            let ghost before = board.spec_board().qset();
            board.rotate_clockwise();
            proof {
                assert(board.spec_board().qset() == rotate_set(before, w));
                assert(board.spec_board().qset() == rotate_set_n(sb.qset(), w, (t + 1) as nat));
                if store_sound(old(self).spec_depleted(), w) && s_len != w {
                    assert(in_range(before, w)) by {
                        assert(forall|q: int| before.contains(q) ==> 0 <= q < n);
                    }
                    lemma_rotate_extendable(before, w);
                    assert(!extendable(board.spec_board().qset(), w));
                }
            }
            let key = board.sorted_queens();
            proof {
                assert(iset(key@) == board.spec_board().qset());
            }
            let ghost store_before = self.spec_depleted();
            trie_insert(&mut self.depleted, key);
            proof {
                if store_sound(old(self).spec_depleted(), w) && s_len != w {
                    assert forall|f: Seq<usize>| #[trigger]
                        self.spec_depleted().contains(f) implies !extendable(iset(f), w) by {
                        if f != key@ {
                            assert(store_before.contains(f));
                        }
                    }
                }
            }
            t = t + 1;
        }
        proof {
            assert(in_range(sb.qset(), w)) by {
                assert(forall|q: int| sb.qset().contains(q) ==> 0 <= q < n);
            }
            lemma_rotation_cycle(sb.qset(), w);
            assert(board.spec_board().qset() == sb.qset());
            lemma_board_determined(board.spec_board(), sb);
        }
        (false, self.jumps)
    }
}

} // verus!
