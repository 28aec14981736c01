//! Placements: sequences of queens kept in row-major order, and the search
//! for the first free square that keeps them free of duplicates.

use crate::queen::Queen;
use vstd::prelude::*;

verus! {

/// Every queen is on the board, and the queens are strictly increasing in
/// row-major order; so no two of them share a square.
pub open spec fn sorted(s: Seq<Queen>, size: int) -> bool {
    &&& forall|i: int| 0 <= i < s.len() ==> (#[trigger] s[i]).on_board(size)
    &&& forall|i: int, j: int| 0 <= i < j < s.len() ==> (#[trigger] s[i]).precedes(#[trigger] s[j])
}

/// A placement for a board of the given size: as many queens as the board
/// has rows, on the board, strictly increasing in row-major order.
pub open spec fn valid_placement(s: Seq<Queen>, size: int) -> bool {
    s.len() == size && sorted(s, size)
}

/// The square reached from `start` by stepping to the successor while the
/// square is occupied, passing over at most `tries` occupied squares.
pub open spec fn probe(s: Seq<Queen>, size: int, start: Queen, tries: nat) -> Queen
    decreases tries,
{
    if tries == 0 || !s.contains(start) {
        start
    } else {
        probe(s, size, start.successor(size), (tries - 1) as nat)
    }
}

/// The first square at or after `start`, in row-major order continued from
/// the last square to the first, that no queen of `s` occupies. Each queen
/// is passed over at most once.
pub open spec fn first_free(s: Seq<Queen>, size: int, start: Queen) -> Queen {
    probe(s, size, start, s.len())
}

/// The number of queens of `s` that come before the square `q`.
pub open spec fn rank(s: Seq<Queen>, q: Queen) -> int
    decreases s.len(),
{
    if s.len() == 0 {
        0
    } else {
        rank(s.drop_last(), q) + if s.last().precedes(q) {
            1int
        } else {
            0int
        }
    }
}

/// The placement `s` with one more queen: on the first free square from
/// `q` on, at the place that keeps the order.
pub open spec fn inserted(s: Seq<Queen>, size: int, q: Queen) -> Seq<Queen> {
    let free = first_free(s, size, q);
    s.insert(rank(s, free), free)
}

/// The queen of `t` that leaves when a new queen was put at the index
/// `fresh`: the one at `pick` reduced modulo the length of `t`, or the next
/// one, the first after the last, where that would be the new queen.
pub open spec fn leaving(t: Seq<Queen>, fresh: int, pick: int) -> int {
    let n = pick % (t.len() as int);
    if n == fresh {
        (n + 1) % (t.len() as int)
    } else {
        n
    }
}

/// The placement that `s` becomes by one move: a new queen comes on the
/// first free square from `q` on, and one of the queens of `s`, chosen by
/// `pick`, leaves. On the board of one square no move is possible, and the
/// placement stays as it is.
pub open spec fn moved(s: Seq<Queen>, size: int, q: Queen, pick: int) -> Seq<Queen> {
    if size == 1 {
        s
    } else {
        let t = inserted(s, size, q);
        t.remove(leaving(t, rank(s, first_free(s, size, q)), pick))
    }
}

/// `b` is what `a` becomes by one move.
pub open spec fn is_neighbour(a: Seq<Queen>, b: Seq<Queen>, size: int) -> bool {
    exists|queen: Queen, pick: usize|
        queen.on_board(size) && b == #[trigger] moved(a, size, queen, pick as int)
}

/// `b` is what `a` becomes by at most `moves` moves, one after the other.
pub open spec fn reachable(a: Seq<Queen>, b: Seq<Queen>, size: int, moves: nat) -> bool
    decreases moves,
{
    a == b || (moves > 0 && exists|mid: Seq<Queen>|
        reachable(a, mid, size, (moves - 1) as nat) && #[trigger] is_neighbour(mid, b, size))
}

/// What is reached by some number of moves is reached by one more.
pub proof fn lemma_reachable_later(a: Seq<Queen>, b: Seq<Queen>, size: int, moves: nat)
    requires
        reachable(a, b, size, moves),
    ensures
        reachable(a, b, size, moves + 1),
    decreases moves,
{
    if a != b {
        let mid = choose|mid: Seq<Queen>|
            reachable(a, mid, size, (moves - 1) as nat) && #[trigger] is_neighbour(mid, b, size);
        lemma_reachable_later(a, mid, size, (moves - 1) as nat);
        assert(reachable(a, mid, size, ((moves + 1) - 1) as nat));
    }
}

/// No two queens of a sorted placement share a square.
pub proof fn lemma_sorted_no_duplicates(s: Seq<Queen>, size: int)
    requires
        sorted(s, size),
    ensures
        s.no_duplicates(),
        forall|i: int, j: int|
            0 <= i < s.len() && 0 <= j < s.len() && i != j ==> !(s[i].x == s[j].x && s[i].y
                == s[j].y),
{
    assert forall|i: int, j: int| 0 <= i < s.len() && 0 <= j < s.len() && i != j implies s[i]
        != s[j] && !(s[i].x == s[j].x && s[i].y == s[j].y) by {
        if i < j {
            assert(s[i].precedes(s[j]));
        } else {
            assert(s[j].precedes(s[i]));
        }
    }
}

/// Where the first `i` queens come before `q` and none of the others does,
/// the rank of `q` is `i`.
pub proof fn lemma_rank_at(s: Seq<Queen>, q: Queen, i: int)
    requires
        0 <= i <= s.len(),
        forall|k: int| 0 <= k < i ==> (#[trigger] s[k]).precedes(q),
        forall|k: int| i <= k < s.len() ==> !(#[trigger] s[k]).precedes(q),
    ensures
        rank(s, q) == i,
    decreases s.len(),
{
    if s.len() > 0 {
        let t = s.drop_last();
        if i == s.len() {
            lemma_rank_at(t, q, i - 1);
        } else {
            lemma_rank_at(t, q, i);
        }
    }
}

/// Putting a square between the queens before it and the queens after it
/// keeps a placement sorted.
pub proof fn lemma_insert_keeps_sorted(s: Seq<Queen>, size: int, q: Queen, i: int)
    requires
        sorted(s, size),
        q.on_board(size),
        0 <= i <= s.len(),
        forall|k: int| 0 <= k < i ==> (#[trigger] s[k]).precedes(q),
        forall|k: int| i <= k < s.len() ==> q.precedes(#[trigger] s[k]),
    ensures
        sorted(s.insert(i, q), size),
        !s.contains(q),
        rank(s, q) == i,
{
    lemma_rank_at(s, q, i);
    let t = s.insert(i, q);
    assert forall|a: int, b: int| 0 <= a < b < t.len() implies (#[trigger] t[a]).precedes(
        #[trigger] t[b],
    ) by {
        let ta = if a < i { s[a] } else if a == i { q } else { s[a - 1] };
        let tb = if b < i { s[b] } else if b == i { q } else { s[b - 1] };
        assert(t[a] == ta && t[b] == tb);
    }
    assert forall|a: int| 0 <= a < t.len() implies (#[trigger] t[a]).on_board(size) by {
        let ta = if a < i { s[a] } else if a == i { q } else { s[a - 1] };
        assert(t[a] == ta);
    }
}

/// Taking a queen out of a sorted placement leaves it sorted.
pub proof fn lemma_remove_keeps_sorted(s: Seq<Queen>, size: int, i: int)
    requires
        sorted(s, size),
        0 <= i < s.len(),
    ensures
        sorted(s.remove(i), size),
{
    let t = s.remove(i);
    assert forall|a: int, b: int| 0 <= a < b < t.len() implies (#[trigger] t[a]).precedes(
        #[trigger] t[b],
    ) by {
        let ta = if a < i { s[a] } else { s[a + 1] };
        let tb = if b < i { s[b] } else { s[b + 1] };
        assert(t[a] == ta && t[b] == tb);
    }
    assert forall|a: int| 0 <= a < t.len() implies (#[trigger] t[a]).on_board(size) by {
        let ta = if a < i { s[a] } else { s[a + 1] };
        assert(t[a] == ta);
    }
}

} // verus!
