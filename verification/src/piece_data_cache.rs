//! A piece data cache with adaptive replacement.
//!
//! [`PieceDataCache`] keeps verified piece bytes in memory so that pieces can
//! be served without a disk read. Resident pieces stand in two lists, most
//! recently used first: *T1* holds pieces seen once, *T2* pieces seen at least
//! twice. Two ghost lists, *B1* and *B2*, remember the indices of pieces that
//! were evicted from them. A hit in *B1* raises the target length of *T1*, a
//! hit in *B2* lowers it, and eviction takes from *T1* while it is longer than
//! its target. A sequential scan therefore runs through *T1* and leaves the
//! frequently used pieces in *T2* alone.
//!
//! The cache is a plain state machine; callers that share it between threads
//! put it behind a lock.

use std::collections::HashMap;
use std::collections::HashSet;
use std::collections::VecDeque;
use std::sync::Arc;

use vstd::prelude::*;

use crate::codec::low32;
use crate::text::decimal;
use crate::text::push_decimal;

verus! {

broadcast use vstd::std_specs::hash::group_hash_axioms;

/// Default cache budget: 32 MiB.
pub const DEFAULT_CACHE_BYTES: u64 = 33_554_432;

/// Piece size from which the length of the ghost lists is estimated: 256 KiB.
pub const ESTIMATED_PIECE_BYTES: u64 = 262_144;

/// Least length that the ghost lists may reach.
pub const MIN_GHOST_CAP: u64 = 16;

/// Hit and miss counters for observability.
#[derive(Debug, Clone, Copy, PartialEq, Eq, Structural)]
pub struct CacheStats {
    /// Number of `get` calls that found the piece in cache.
    pub hits: u64,
    /// Number of `get` calls that did not find the piece.
    pub misses: u64,
    /// Number of pieces evicted to stay within the byte budget.
    pub evictions: u64,
    /// Number of pieces currently resident.
    pub resident_pieces: u32,
    /// Total bytes currently used by cached piece data.
    pub resident_bytes: u64,
    /// Maximum byte budget.
    pub max_bytes: u64,
    /// Number of hits on pieces recently evicted from the recency list.
    pub ghost_hits_b1: u64,
    /// Number of hits on pieces recently evicted from the frequency list.
    pub ghost_hits_b2: u64,
    /// Current target number of pieces in the recency list.
    pub arc_target_t1: u32,
}

// ── Model ───────────────────────────────────────────────────────────

/// What the cache holds.
#[verifier::ext_equal]
pub struct CacheView {
    /// Pieces seen once, most recently used first.
    pub t1: Seq<u32>,
    /// Pieces seen at least twice, most recently used first.
    pub t2: Seq<u32>,
    /// Pieces evicted from `t1`, most recently evicted first.
    pub b1: Seq<u32>,
    /// Pieces evicted from `t2`, most recently evicted first.
    pub b2: Seq<u32>,
    /// The bytes of the resident pieces.
    pub entries: Map<u32, Seq<u8>>,
    /// Byte budget.
    pub max_bytes: u64,
    /// Length that a ghost list may reach.
    pub ghost_cap: u32,
    /// Target length of `t1`.
    pub p: u32,
    pub hits: u64,
    pub misses: u64,
    pub evictions: u64,
    pub ghost_hits_b1: u64,
    pub ghost_hits_b2: u64,
}

/// The bytes that the pieces of a list take.
pub open spec fn list_bytes(list: Seq<u32>, entries: Map<u32, Seq<u8>>) -> nat
    decreases list.len(),
{
    if list.len() == 0 {
        0
    } else {
        list_bytes(list.drop_last(), entries) + entries[list.last()].len()
    }
}

/// The length that the ghost lists may reach under a budget.
pub open spec fn ghost_cap_for(max_bytes: u64) -> u32 {
    let n = max_bytes / ESTIMATED_PIECE_BYTES;
    if n < MIN_GHOST_CAP {
        MIN_GHOST_CAP as u32
    } else if n > u32::MAX {
        u32::MAX
    } else {
        n as u32
    }
}

/// One more, unless the counter is full.
pub open spec fn counted(n: u64) -> u64 {
    if n < u64::MAX {
        (n + 1) as u64
    } else {
        n
    }
}

/// `list` with `x` in front.
pub open spec fn in_front(x: u32, list: Seq<u32>) -> Seq<u32> {
    seq![x] + list
}

/// `list` without `x`.
pub open spec fn without(list: Seq<u32>, x: u32) -> Seq<u32> {
    if list.contains(x) {
        list.remove(list.index_of(x))
    } else {
        list
    }
}

/// A ghost list with `x` in front, cut to `cap` from the back.
pub open spec fn haunted(ghosts: Seq<u32>, x: u32, cap: u32) -> Seq<u32> {
    in_front(
        x,
        if ghosts.len() < cap {
            ghosts
        } else {
            ghosts.take(cap - 1)
        },
    )
}

/// How far a ghost hit moves the target, given the lengths of the list that
/// was hit and of the other one.
pub open spec fn adaptation(hit_len: nat, other_len: nat) -> nat {
    if hit_len > 0 && other_len / hit_len > 1 {
        other_len / hit_len
    } else {
        1
    }
}

impl CacheView {
    /// The bytes that all resident pieces take.
    pub open spec fn resident_bytes(self) -> nat {
        list_bytes(self.t1, self.entries) + list_bytes(self.t2, self.entries)
    }

    /// No list names a piece twice and no piece stands in two lists; the
    /// pieces with data are those in `t1` and `t2`.
    pub open spec fn sound(self) -> bool {
        &&& self.t1.no_duplicates()
        &&& self.t2.no_duplicates()
        &&& self.b1.no_duplicates()
        &&& self.b2.no_duplicates()
        &&& forall|k: u32| #[trigger]
            self.entries.contains_key(k) <==> self.t1.contains(k) || self.t2.contains(k)
        &&& forall|k: u32| #[trigger]
            self.t1.contains(k) ==> !self.t2.contains(k) && !self.b1.contains(k)
                && !self.b2.contains(k)
        &&& forall|k: u32| #[trigger]
            self.t2.contains(k) ==> !self.b1.contains(k) && !self.b2.contains(k)
        &&& forall|k: u32| #[trigger] self.b1.contains(k) ==> !self.b2.contains(k)
        &&& self.b1.len() <= u32::MAX
        &&& self.b2.len() <= u32::MAX
        &&& self.ghost_cap == ghost_cap_for(self.max_bytes)
        &&& self.p <= self.ghost_cap
    }

    /// Sound and within the budget.
    pub open spec fn wf(self) -> bool {
        &&& self.sound()
        &&& self.resident_bytes() <= self.max_bytes
    }

    /// Whether eviction takes from `t1`: it does while `t1` is longer than its
    /// target, and where `t2` is empty.
    pub open spec fn evicts_recent(self) -> bool {
        self.t1.len() > 0 && (self.t2.len() == 0 || self.t1.len() > self.p)
    }

    /// The state after one eviction. The least recently used piece of a list
    /// leaves its index in the ghost list.
    pub open spec fn replaced(self) -> CacheView {
        if self.evicts_recent() {
            CacheView {
                t1: self.t1.drop_last(),
                b1: haunted(self.b1, self.t1.last(), self.ghost_cap),
                entries: self.entries.remove(self.t1.last()),
                evictions: counted(self.evictions),
                ..self
            }
        } else {
            CacheView {
                t2: self.t2.drop_last(),
                b2: haunted(self.b2, self.t2.last(), self.ghost_cap),
                entries: self.entries.remove(self.t2.last()),
                evictions: counted(self.evictions),
                ..self
            }
        }
    }

    /// The state after as many evictions as it takes until `need` more bytes
    /// fit.
    pub open spec fn with_room(self, need: nat) -> CacheView
        decreases self.t1.len() + self.t2.len(),
    {
        if self.resident_bytes() + need <= self.max_bytes || (self.t1.len() == 0 && self.t2.len()
            == 0) {
            self
        } else {
            self.replaced().with_room(need)
        }
    }

    /// The state after a use of a resident piece: it stands first in `t2`.
    pub open spec fn promoted(self, piece: u32) -> CacheView {
        CacheView {
            t1: without(self.t1, piece),
            t2: in_front(piece, without(self.t2, piece)),
            ..self
        }
    }

    /// The state after a lookup.
    pub open spec fn looked_up(self, piece: u32) -> CacheView {
        if self.entries.contains_key(piece) {
            CacheView { hits: counted(self.hits), ..self.promoted(piece) }
        } else {
            CacheView { misses: counted(self.misses), ..self }
        }
    }

    /// Whether an insertion is refused: the piece alone exceeds the budget, or
    /// caching is disabled.
    pub open spec fn refuses(self, data: Seq<u8>) -> bool {
        data.len() > self.max_bytes || self.max_bytes == 0
    }

    /// The state before a piece that was evicted from `t1` comes back.
    pub open spec fn after_hit_b1(self, piece: u32) -> CacheView {
        let raised = self.p + adaptation(self.b1.len(), self.b2.len());
        CacheView {
            b1: without(self.b1, piece),
            p: if raised < self.ghost_cap {
                raised as u32
            } else {
                self.ghost_cap
            },
            ghost_hits_b1: counted(self.ghost_hits_b1),
            ..self
        }
    }

    /// The state before a piece that was evicted from `t2` comes back.
    pub open spec fn after_hit_b2(self, piece: u32) -> CacheView {
        let step = adaptation(self.b2.len(), self.b1.len());
        CacheView {
            b2: without(self.b2, piece),
            p: if step < self.p {
                (self.p - step) as u32
            } else {
                0
            },
            ghost_hits_b2: counted(self.ghost_hits_b2),
            ..self
        }
    }

    /// The state with a piece that has not been resident in front of `t1`.
    pub open spec fn with_recent(self, piece: u32, data: Seq<u8>) -> CacheView {
        CacheView {
            t1: in_front(piece, self.t1),
            entries: self.entries.insert(piece, data),
            ..self
        }
    }

    /// The state with a piece that has not been resident in front of `t2`.
    pub open spec fn with_frequent(self, piece: u32, data: Seq<u8>) -> CacheView {
        CacheView {
            t2: in_front(piece, self.t2),
            entries: self.entries.insert(piece, data),
            ..self
        }
    }

    /// The state after an insertion.
    pub open spec fn inserted(self, piece: u32, data: Seq<u8>) -> CacheView {
        if self.refuses(data) {
            self
        } else if self.entries.contains_key(piece) {
            self.promoted(piece)
        } else if self.b1.contains(piece) {
            self.after_hit_b1(piece).with_room(data.len()).with_frequent(piece, data)
        } else if self.b2.contains(piece) {
            self.after_hit_b2(piece).with_room(data.len()).with_frequent(piece, data)
        } else {
            self.with_room(data.len()).with_recent(piece, data)
        }
    }

    /// The state after a removal. A piece that is not resident is forgotten.
    pub open spec fn removed(self, piece: u32) -> CacheView {
        if self.entries.contains_key(piece) {
            CacheView {
                t1: without(self.t1, piece),
                t2: without(self.t2, piece),
                entries: self.entries.remove(piece),
                ..self
            }
        } else {
            CacheView { b1: without(self.b1, piece), b2: without(self.b2, piece), ..self }
        }
    }

    /// The state under another budget, after the evictions that it takes.
    pub open spec fn resized(self, max_bytes: u64) -> CacheView {
        let ghost_cap = ghost_cap_for(max_bytes);
        CacheView {
            max_bytes,
            ghost_cap,
            p: if self.p < ghost_cap {
                self.p
            } else {
                ghost_cap
            },
            ..self
        }.with_room(0)
    }

    /// The state of an empty cache.
    pub open spec fn fresh(max_bytes: u64) -> CacheView {
        CacheView {
            t1: Seq::empty(),
            t2: Seq::empty(),
            b1: Seq::empty(),
            b2: Seq::empty(),
            entries: Map::empty(),
            max_bytes,
            ghost_cap: ghost_cap_for(max_bytes),
            p: 0,
            hits: 0,
            misses: 0,
            evictions: 0,
            ghost_hits_b1: 0,
            ghost_hits_b2: 0,
        }
    }
}

// ── List lemmas ─────────────────────────────────────────────────────

/// What a list holds with one more in front.
proof fn lemma_in_front(x: u32, list: Seq<u32>)
    ensures
        forall|k: u32| #[trigger] in_front(x, list).contains(k) <==> k == x || list.contains(k),
        list.no_duplicates() && !list.contains(x) ==> in_front(x, list).no_duplicates(),
{
    let all = in_front(x, list);
    assert forall|k: u32| #[trigger] all.contains(k) <==> k == x || list.contains(k) by {
        if k == x {
            assert(all[0] == x);
        }
        if list.contains(k) {
            let i = choose|i: int| 0 <= i < list.len() && list[i] == k;
            assert(all[i + 1] == k);
        }
        if all.contains(k) && k != x {
            let i = choose|i: int| 0 <= i < all.len() && all[i] == k;
            assert(list[i - 1] == k);
        }
    }
    if list.no_duplicates() && !list.contains(x) {
        assert forall|i: int, j: int|
            0 <= i < all.len() && 0 <= j < all.len() && i != j implies all[i] != all[j] by {
            if i > 0 {
                assert(all[i] == list[i - 1]);
            }
            if j > 0 {
                assert(all[j] == list[j - 1]);
            }
        }
    }
}

/// What a list holds without its last element.
proof fn lemma_drop_last(list: Seq<u32>)
    requires
        list.no_duplicates(),
        list.len() > 0,
    ensures
        list.contains(list.last()),
        list.drop_last().no_duplicates(),
        forall|k: u32| #[trigger]
            list.drop_last().contains(k) <==> list.contains(k) && k != list.last(),
{
    let rest = list.drop_last();
    assert(list[list.len() - 1] == list.last());
    assert forall|k: u32| #[trigger] rest.contains(k) <==> list.contains(k) && k != list.last() by {
        if rest.contains(k) {
            let i = choose|i: int| 0 <= i < rest.len() && rest[i] == k;
            assert(list[i] == k);
        }
        if list.contains(k) && k != list.last() {
            let i = choose|i: int| 0 <= i < list.len() && list[i] == k;
            assert(rest[i] == k);
        }
    }
}

/// What a list holds without one of its elements.
proof fn lemma_without(list: Seq<u32>, x: u32)
    requires
        list.no_duplicates(),
    ensures
        without(list, x).no_duplicates(),
        without(list, x).len() <= list.len(),
        forall|k: u32| #[trigger] without(list, x).contains(k) <==> list.contains(k) && k != x,
        forall|i: int| 0 <= i < list.len() && list[i] == x ==> without(list, x) == #[trigger] list.remove(i),
{
    let rest = without(list, x);
    if list.contains(x) {
        let at = list.index_of(x);
        assert(0 <= at < list.len() && list[at] == x);
        assert forall|i: int, j: int|
            0 <= i < rest.len() && 0 <= j < rest.len() && i != j implies rest[i] != rest[j] by {
            assert(rest[i] == list[if i < at { i } else { i + 1 }]);
            assert(rest[j] == list[if j < at { j } else { j + 1 }]);
        }
        assert forall|k: u32| #[trigger] rest.contains(k) <==> list.contains(k) && k != x by {
            if rest.contains(k) {
                let i = choose|i: int| 0 <= i < rest.len() && rest[i] == k;
                assert(rest[i] == list[if i < at { i } else { i + 1 }]);
            }
            if list.contains(k) && k != x {
                let i = choose|i: int| 0 <= i < list.len() && list[i] == k;
                assert(rest[if i < at { i } else { i - 1 }] == k);
            }
        }
    }
}

/// What a ghost list holds with one more in front.
proof fn lemma_haunted(ghosts: Seq<u32>, x: u32, cap: u32)
    requires
        ghosts.no_duplicates(),
        !ghosts.contains(x),
        cap > 0,
    ensures
        haunted(ghosts, x, cap).no_duplicates(),
        haunted(ghosts, x, cap).len() <= cap,
        forall|k: u32| #[trigger]
            haunted(ghosts, x, cap).contains(k) ==> k == x || ghosts.contains(k),
{
    let kept = if ghosts.len() < cap {
        ghosts
    } else {
        ghosts.take(cap - 1)
    };
    assert forall|k: u32| #[trigger] kept.contains(k) implies ghosts.contains(k) by {
        let i = choose|i: int| 0 <= i < kept.len() && kept[i] == k;
        assert(ghosts[i] == k);
    }
    lemma_in_front(x, kept);
}

/// The bytes of a list depend on the data of its pieces alone.
proof fn lemma_bytes_agree(list: Seq<u32>, a: Map<u32, Seq<u8>>, b: Map<u32, Seq<u8>>)
    requires
        forall|k: u32| #[trigger] list.contains(k) ==> a[k] == b[k],
    ensures
        list_bytes(list, a) == list_bytes(list, b),
    decreases list.len(),
{
    if list.len() > 0 {
        let rest = list.drop_last();
        assert forall|k: u32| #[trigger] rest.contains(k) implies a[k] == b[k] by {
            let i = choose|i: int| 0 <= i < rest.len() && rest[i] == k;
            assert(list[i] == k);
            assert(list.contains(k));
        }
        lemma_bytes_agree(rest, a, b);
        assert(list[list.len() - 1] == list.last());
        assert(list.contains(list.last()));
    }
}

/// The bytes of a list with one more piece in front.
proof fn lemma_bytes_in_front(x: u32, list: Seq<u32>, entries: Map<u32, Seq<u8>>)
    ensures
        list_bytes(in_front(x, list), entries) == entries[x].len() + list_bytes(list, entries),
    decreases list.len(),
{
    let all = in_front(x, list);
    if list.len() == 0 {
        assert(all.drop_last() == Seq::<u32>::empty());
        assert(list_bytes(all.drop_last(), entries) == 0);
        assert(all.last() == x);
    } else {
        assert(all.drop_last() == in_front(x, list.drop_last()));
        assert(all.last() == list.last());
        lemma_bytes_in_front(x, list.drop_last(), entries);
    }
}

/// The bytes of a list without one of its pieces.
proof fn lemma_bytes_remove(list: Seq<u32>, at: int, entries: Map<u32, Seq<u8>>)
    requires
        0 <= at < list.len(),
    ensures
        list_bytes(list.remove(at), entries) + entries[list[at]].len() == list_bytes(list, entries),
    decreases list.len(),
{
    if at == list.len() - 1 {
        assert(list.remove(at) == list.drop_last());
    } else {
        assert(list.remove(at).drop_last() == list.drop_last().remove(at));
        assert(list.remove(at).last() == list.last());
        assert(list.drop_last()[at] == list[at]);
        lemma_bytes_remove(list.drop_last(), at, entries);
    }
}

// ── State lemmas ────────────────────────────────────────────────────

impl CacheView {
    /// Whether a piece is known, resident or as a ghost.
    pub open spec fn knows(self, piece: u32) -> bool {
        ||| self.t1.contains(piece)
        ||| self.t2.contains(piece)
        ||| self.b1.contains(piece)
        ||| self.b2.contains(piece)
    }

    /// What `later` holds of resident pieces was held before, `later` knows no
    /// other pieces, and budget and target are the same.
    pub open spec fn shrank_to(self, later: CacheView) -> bool {
        &&& later.max_bytes == self.max_bytes
        &&& later.ghost_cap == self.ghost_cap
        &&& later.p == self.p
        &&& forall|k: u32| #[trigger]
            later.entries.contains_key(k) ==> self.entries.contains_key(k) && later.entries[k]
                == self.entries[k]
        &&& forall|k: u32| #[trigger] later.knows(k) ==> self.knows(k)
    }
}

/// An eviction keeps the lists sound and frees the bytes of one piece.
proof fn lemma_replaced(v: CacheView)
    requires
        v.sound(),
        v.t1.len() + v.t2.len() > 0,
    ensures
        v.replaced().sound(),
        v.shrank_to(v.replaced()),
        v.replaced().resident_bytes() + v.entries[if v.evicts_recent() {
            v.t1.last()
        } else {
            v.t2.last()
        }].len() == v.resident_bytes(),
{
    let r = v.replaced();
    if v.evicts_recent() {
        let gone = v.t1.last();
        lemma_drop_last(v.t1);
        lemma_haunted(v.b1, gone, v.ghost_cap);
        assert(v.t1.contains(gone));
        lemma_bytes_agree(r.t1, v.entries, r.entries);
        lemma_bytes_agree(r.t2, v.entries, r.entries);
    } else {
        let gone = v.t2.last();
        lemma_drop_last(v.t2);
        lemma_haunted(v.b2, gone, v.ghost_cap);
        assert(v.t2.contains(gone));
        lemma_bytes_agree(r.t1, v.entries, r.entries);
        lemma_bytes_agree(r.t2, v.entries, r.entries);
    }
}

/// Making room keeps the lists sound, and what fits the budget alone fits
/// after it.
proof fn lemma_with_room(v: CacheView, need: nat)
    requires
        v.sound(),
        need <= v.max_bytes,
    ensures
        v.with_room(need).sound(),
        v.shrank_to(v.with_room(need)),
        v.with_room(need).resident_bytes() + need <= v.max_bytes,
    decreases v.t1.len() + v.t2.len(),
{
    if v.resident_bytes() + need <= v.max_bytes {
    } else if v.t1.len() == 0 && v.t2.len() == 0 {
        assert(v.resident_bytes() == 0);
    } else {
        lemma_replaced(v);
        lemma_with_room(v.replaced(), need);
    }
}

/// A piece that nothing knows can be added.
proof fn lemma_added(v: CacheView, piece: u32, data: Seq<u8>)
    requires
        v.sound(),
        !v.knows(piece),
    ensures
        v.with_recent(piece, data).sound(),
        v.with_frequent(piece, data).sound(),
        v.with_recent(piece, data).resident_bytes() == v.resident_bytes() + data.len(),
        v.with_frequent(piece, data).resident_bytes() == v.resident_bytes() + data.len(),
{
    let entries = v.entries.insert(piece, data);
    lemma_in_front(piece, v.t1);
    lemma_in_front(piece, v.t2);
    lemma_bytes_agree(v.t1, v.entries, entries);
    lemma_bytes_agree(v.t2, v.entries, entries);
    lemma_bytes_in_front(piece, v.t1, entries);
    lemma_bytes_in_front(piece, v.t2, entries);
}

/// The bytes of a list without one of its pieces.
proof fn lemma_bytes_without(list: Seq<u32>, x: u32, entries: Map<u32, Seq<u8>>)
    ensures
        list.contains(x) ==> list_bytes(without(list, x), entries) + entries[x].len() == list_bytes(
            list,
            entries,
        ),
        !list.contains(x) ==> without(list, x) == list,
{
    if list.contains(x) {
        let at = list.index_of(x);
        assert(0 <= at < list.len() && list[at] == x);
        lemma_bytes_remove(list, at, entries);
    }
}

/// A use of a resident piece moves it and nothing else.
proof fn lemma_promoted(v: CacheView, piece: u32)
    requires
        v.sound(),
        v.entries.contains_key(piece),
    ensures
        v.promoted(piece).sound(),
        v.promoted(piece).resident_bytes() == v.resident_bytes(),
{
    lemma_without(v.t1, piece);
    lemma_without(v.t2, piece);
    lemma_in_front(piece, without(v.t2, piece));
    lemma_bytes_without(v.t1, piece, v.entries);
    lemma_bytes_without(v.t2, piece, v.entries);
    lemma_bytes_in_front(piece, without(v.t2, piece), v.entries);
}

/// A removal keeps the lists sound and frees the bytes of the piece.
proof fn lemma_removed(v: CacheView, piece: u32)
    requires
        v.sound(),
    ensures
        v.removed(piece).sound(),
        !v.removed(piece).knows(piece),
        v.entries.contains_key(piece) ==> v.removed(piece).resident_bytes()
            + v.entries[piece].len() == v.resident_bytes(),
        !v.entries.contains_key(piece) ==> v.removed(piece).resident_bytes() == v.resident_bytes(),
{
    let r = v.removed(piece);
    lemma_without(v.t1, piece);
    lemma_without(v.t2, piece);
    lemma_without(v.b1, piece);
    lemma_without(v.b2, piece);
    if v.entries.contains_key(piece) {
        lemma_bytes_without(v.t1, piece, v.entries);
        lemma_bytes_without(v.t2, piece, v.entries);
        lemma_bytes_agree(r.t1, v.entries, r.entries);
        lemma_bytes_agree(r.t2, v.entries, r.entries);
    }
}

/// A ghost hit keeps the lists sound and forgets the ghost.
proof fn lemma_ghost_hit(v: CacheView, piece: u32)
    requires
        v.sound(),
    ensures
        v.b1.contains(piece) ==> v.after_hit_b1(piece).sound() && !v.after_hit_b1(piece).knows(
            piece,
        ),
        v.b2.contains(piece) ==> v.after_hit_b2(piece).sound() && !v.after_hit_b2(piece).knows(
            piece,
        ),
        v.after_hit_b1(piece).resident_bytes() == v.resident_bytes(),
        v.after_hit_b2(piece).resident_bytes() == v.resident_bytes(),
{
    lemma_without(v.b1, piece);
    lemma_without(v.b2, piece);
}

/// An insertion keeps the cache sound and within its budget.
pub proof fn law_insert_keeps_budget(v: CacheView, piece: u32, data: Seq<u8>)
    requires
        v.wf(),
    ensures
        v.inserted(piece, data).wf(),
        v.inserted(piece, data).max_bytes == v.max_bytes,
{
    if v.refuses(data) {
    } else if v.entries.contains_key(piece) {
        lemma_promoted(v, piece);
    } else if v.b1.contains(piece) {
        lemma_ghost_hit(v, piece);
        lemma_with_room(v.after_hit_b1(piece), data.len());
        lemma_added(v.after_hit_b1(piece).with_room(data.len()), piece, data);
    } else if v.b2.contains(piece) {
        lemma_ghost_hit(v, piece);
        lemma_with_room(v.after_hit_b2(piece), data.len());
        lemma_added(v.after_hit_b2(piece).with_room(data.len()), piece, data);
    } else {
        lemma_with_room(v, data.len());
        lemma_added(v.with_room(data.len()), piece, data);
    }
}

/// Under any budget the cache ends up sound and within it.
pub proof fn law_resize_keeps_budget(v: CacheView, max_bytes: u64)
    requires
        v.wf(),
    ensures
        v.resized(max_bytes).wf(),
        v.resized(max_bytes).max_bytes == max_bytes,
{
    let cap = ghost_cap_for(max_bytes);
    let start = CacheView {
        max_bytes,
        ghost_cap: cap,
        p: if v.p < cap {
            v.p
        } else {
            cap
        },
        ..v
    };
    lemma_with_room(start, 0);
}

/// A lookup gives back what was inserted: an accepted piece that was not
/// resident is there with its bytes, and one that was resident keeps the bytes
/// it had.
pub proof fn law_lookup_after_insert(v: CacheView, piece: u32, data: Seq<u8>)
    requires
        v.wf(),
        !v.refuses(data),
    ensures
        v.inserted(piece, data).entries.contains_key(piece),
        v.inserted(piece, data).entries[piece] == (if v.entries.contains_key(piece) {
            v.entries[piece]
        } else {
            data
        }),
{
}

/// Inserting a piece again changes no data and takes no more bytes.
pub proof fn law_duplicate_insert_is_idempotent(
    v: CacheView,
    piece: u32,
    data: Seq<u8>,
    again: Seq<u8>,
)
    requires
        v.wf(),
        !v.refuses(data),
    ensures
        v.inserted(piece, data).inserted(piece, again).entries == v.inserted(piece, data).entries,
        v.inserted(piece, data).inserted(piece, again).resident_bytes() == v.inserted(
            piece,
            data,
        ).resident_bytes(),
{
    law_insert_keeps_budget(v, piece, data);
    law_lookup_after_insert(v, piece, data);
    lemma_promoted(v.inserted(piece, data), piece);
}

/// An insertion brings in one piece at most and changes the bytes of none: any
/// other piece that is resident afterwards was resident before, with the same
/// bytes.
pub proof fn law_insert_leaves_other_data(v: CacheView, piece: u32, data: Seq<u8>, other: u32)
    requires
        v.wf(),
        other != piece,
        v.inserted(piece, data).entries.contains_key(other),
    ensures
        v.entries.contains_key(other),
        v.inserted(piece, data).entries[other] == v.entries[other],
{
    if v.refuses(data) || v.entries.contains_key(piece) {
    } else if v.b1.contains(piece) {
        lemma_ghost_hit(v, piece);
        lemma_with_room(v.after_hit_b1(piece), data.len());
    } else if v.b2.contains(piece) {
        lemma_ghost_hit(v, piece);
        lemma_with_room(v.after_hit_b2(piece), data.len());
    } else {
        lemma_with_room(v, data.len());
    }
}

/// Where everything fits the budget nothing is evicted: an insertion that
/// leaves room keeps all other pieces.
pub proof fn law_no_eviction_within_budget(v: CacheView, piece: u32, data: Seq<u8>)
    requires
        v.wf(),
        !v.refuses(data),
        v.resident_bytes() + data.len() <= v.max_bytes,
    ensures
        v.inserted(piece, data).evictions == v.evictions,
        v.entries.contains_key(piece) ==> v.inserted(piece, data).entries == v.entries,
        !v.entries.contains_key(piece) ==> v.inserted(piece, data).entries == v.entries.insert(
            piece,
            data,
        ),
{
    lemma_ghost_hit(v, piece);
}

/// Scans leave frequently used pieces alone: as long as there are more pieces
/// seen once than the target, an eviction takes the least recently used of them,
/// drops its bytes and remembers it as the latest recency ghost.
pub proof fn law_scan_resistance(v: CacheView)
    requires
        v.sound(),
        v.t1.len() > v.p,
    ensures
        v.replaced().t2 == v.t2,
        forall|k: u32| #[trigger]
            v.t2.contains(k) ==> v.replaced().entries.contains_key(k) && v.replaced().entries[k]
                == v.entries[k],
        v.t1 == v.replaced().t1.push(v.t1[v.t1.len() - 1]),
        !v.replaced().entries.contains_key(v.t1[v.t1.len() - 1]),
        v.replaced().b1[0] == v.t1[v.t1.len() - 1],
        v.replaced().b2 == v.b2,
        v.replaced().p == v.p,
{
    lemma_drop_last(v.t1);
}

/// The target protects pieces seen once: where both lists hold pieces and there
/// are no more pieces seen once than the target, an eviction takes the least
/// recently used of the pieces seen twice, drops its bytes and remembers it as
/// the latest frequency ghost.
pub proof fn law_target_protects_recent_pieces(v: CacheView)
    requires
        v.sound(),
        v.t1.len() > 0,
        v.t2.len() > 0,
        v.t1.len() <= v.p,
    ensures
        v.replaced().t1 == v.t1,
        forall|k: u32| #[trigger]
            v.t1.contains(k) ==> v.replaced().entries.contains_key(k) && v.replaced().entries[k]
                == v.entries[k],
        v.t2 == v.replaced().t2.push(v.t2[v.t2.len() - 1]),
        !v.replaced().entries.contains_key(v.t2[v.t2.len() - 1]),
        v.replaced().b2[0] == v.t2[v.t2.len() - 1],
        v.replaced().b1 == v.b1,
        v.replaced().p == v.p,
{
    lemma_drop_last(v.t2);
}

/// Where only one list holds pieces, its least recently used piece is evicted,
/// whatever the target is.
pub proof fn law_eviction_finds_a_piece(v: CacheView)
    requires
        v.sound(),
    ensures
        v.t1.len() == 0 && v.t2.len() > 0 ==> v.t2 == v.replaced().t2.push(v.t2[v.t2.len() - 1])
            && v.replaced().t1 == v.t1 && !v.replaced().entries.contains_key(
            v.t2[v.t2.len() - 1],
        ),
        v.t2.len() == 0 && v.t1.len() > 0 ==> v.t1 == v.replaced().t1.push(v.t1[v.t1.len() - 1])
            && v.replaced().t2 == v.t2 && !v.replaced().entries.contains_key(
            v.t1[v.t1.len() - 1],
        ),
{
    if v.t1.len() == 0 && v.t2.len() > 0 {
        lemma_drop_last(v.t2);
    }
    if v.t2.len() == 0 && v.t1.len() > 0 {
        lemma_drop_last(v.t1);
    }
}

/// An eviction takes one piece and leaves the bytes of all others; it is
/// counted, and a ghost list keeps its latest pieces in order, up to its cap.
pub proof fn law_eviction_takes_one_piece(v: CacheView, k: u32)
    requires
        v.sound(),
        v.t1.len() + v.t2.len() > 0,
    ensures
        v.replaced().t1.len() + v.replaced().t2.len() + 1 == v.t1.len() + v.t2.len(),
        v.replaced().t1.contains(k) || v.replaced().t2.contains(k)
            ==> v.replaced().entries.contains_key(k) && v.replaced().entries[k] == v.entries[k],
        v.evictions < u64::MAX ==> v.replaced().evictions == v.evictions + 1,
        v.replaced().hits == v.hits && v.replaced().misses == v.misses,
        v.replaced().t1 != v.t1 ==> v.replaced().b1.drop_first() == v.b1.take(
            v.replaced().b1.len() - 1,
        ) && v.replaced().b1.len() == (if v.b1.len() < v.ghost_cap {
            v.b1.len() + 1
        } else {
            v.ghost_cap as nat
        }),
        v.replaced().t2 != v.t2 ==> v.replaced().b2.drop_first() == v.b2.take(
            v.replaced().b2.len() - 1,
        ) && v.replaced().b2.len() == (if v.b2.len() < v.ghost_cap {
            v.b2.len() + 1
        } else {
            v.ghost_cap as nat
        }),
{
    lemma_replaced(v);
    if v.evicts_recent() {
        lemma_drop_last(v.t1);
    } else {
        lemma_drop_last(v.t2);
    }
}

/// Room is made from the back of the lists: what stays are the most recently
/// used pieces of each, with their bytes, and no more is evicted than needed:
/// with some evicted piece back, the new bytes would not fit.
pub proof fn law_room_is_just_made(v: CacheView, need: nat)
    requires
        v.sound(),
        need <= v.max_bytes,
    ensures
        v.with_room(need).t1.len() <= v.t1.len(),
        v.with_room(need).t2.len() <= v.t2.len(),
        v.with_room(need).t1 == v.t1.take(v.with_room(need).t1.len() as int),
        v.with_room(need).t2 == v.t2.take(v.with_room(need).t2.len() as int),
        v.with_room(need).resident_bytes() + need <= v.max_bytes,
        v.with_room(need).t1.len() + v.with_room(need).t2.len() < v.t1.len() + v.t2.len()
            ==> exists|k: u32| #[trigger]
            v.entries.contains_key(k) && !v.with_room(need).entries.contains_key(k) && v.with_room(
                need,
            ).resident_bytes() + v.entries[k].len() + need > v.max_bytes,
        v.with_room(need).p == v.p,
        v.with_room(need).hits == v.hits && v.with_room(need).misses == v.misses,
    decreases v.t1.len() + v.t2.len(),
{
    lemma_with_room(v, need);
    if v.resident_bytes() + need <= v.max_bytes || (v.t1.len() == 0 && v.t2.len() == 0) {
        assert(v.t1.take(v.t1.len() as int) == v.t1);
        assert(v.t2.take(v.t2.len() as int) == v.t2);
    } else {
        let u = v.replaced();
        let w = v.with_room(need);
        lemma_replaced(v);
        law_room_is_just_made(u, need);
        let gone = if v.evicts_recent() {
            lemma_drop_last(v.t1);
            v.t1.last()
        } else {
            lemma_drop_last(v.t2);
            v.t2.last()
        };
        assert(v.entries.contains_key(gone));
        assert(w.t1 == v.t1.take(w.t1.len() as int));
        assert(w.t2 == v.t2.take(w.t2.len() as int));
        if w.t1.len() + w.t2.len() < u.t1.len() + u.t2.len() {
            let k = choose|k: u32| #[trigger]
                u.entries.contains_key(k) && !w.entries.contains_key(k) && w.resident_bytes()
                    + u.entries[k].len() + need > v.max_bytes;
            assert(v.entries.contains_key(k));
        } else {
            assert(u.t1.take(u.t1.len() as int) == u.t1);
            assert(u.t2.take(u.t2.len() as int) == u.t2);
            assert(w.t1 == u.t1 && w.t2 == u.t2);
            lemma_with_room(u, need);
            assert(!w.entries.contains_key(gone));
            assert forall|k: u32| #[trigger] w.t1.contains(k) implies w.entries[k]
                == u.entries[k] by {
                assert(w.entries.contains_key(k));
            }
            assert forall|k: u32| #[trigger] w.t2.contains(k) implies w.entries[k]
                == u.entries[k] by {
                assert(w.entries.contains_key(k));
            }
            lemma_bytes_agree(w.t1, w.entries, u.entries);
            lemma_bytes_agree(w.t2, w.entries, u.entries);
        }
    }
}

/// Bytes are counted piece by piece.
pub proof fn law_bytes_add_up(list: Seq<u32>, piece: u32, entries: Map<u32, Seq<u8>>)
    ensures
        list_bytes(Seq::empty(), entries) == 0,
        list_bytes(list.push(piece), entries) == list_bytes(list, entries) + entries[piece].len(),
{
    assert(list.push(piece).drop_last() == list);
}

/// What may be cached: a piece that alone exceeds the budget, or any piece
/// where caching is disabled, changes nothing; every other piece is resident
/// after its insertion.
pub proof fn law_what_fits_is_cached(v: CacheView, piece: u32, data: Seq<u8>)
    requires
        v.wf(),
    ensures
        v.max_bytes == 0 || data.len() > v.max_bytes ==> v.inserted(piece, data) == v,
        v.max_bytes > 0 && data.len() <= v.max_bytes ==> v.inserted(
            piece,
            data,
        ).entries.contains_key(piece),
{
}

/// A piece that was not known comes in as the most recent of the pieces seen
/// once; one that was known, resident or as a ghost, as the most recent of those
/// seen twice, and is no ghost any more.
pub proof fn law_insertion_place(v: CacheView, piece: u32, data: Seq<u8>)
    requires
        v.wf(),
        v.max_bytes > 0,
        data.len() <= v.max_bytes,
    ensures
        !v.t1.contains(piece) && !v.t2.contains(piece) && !v.b1.contains(piece) && !v.b2.contains(
            piece,
        ) ==> v.inserted(piece, data).t1[0] == piece && !v.inserted(piece, data).t2.contains(piece)
            && v.inserted(piece, data).p == v.p,
        v.t1.contains(piece) || v.t2.contains(piece) || v.b1.contains(piece) || v.b2.contains(piece)
            ==> v.inserted(piece, data).t2[0] == piece && !v.inserted(piece, data).t1.contains(
            piece,
        ),
        !v.inserted(piece, data).b1.contains(piece),
        !v.inserted(piece, data).b2.contains(piece),
{
    law_insert_keeps_budget(v, piece, data);
    let r = v.inserted(piece, data);
    lemma_ghost_hit(v, piece);
    if !v.entries.contains_key(piece) {
        lemma_with_room(v, data.len());
        if v.b1.contains(piece) {
            lemma_with_room(v.after_hit_b1(piece), data.len());
        }
        if v.b2.contains(piece) {
            lemma_with_room(v.after_hit_b2(piece), data.len());
        }
    }
    assert(v.entries.contains_key(piece) <==> v.t1.contains(piece) || v.t2.contains(piece));
    if r.t1.len() > 0 && r.t1[0] == piece {
        assert(r.t1.contains(piece));
    }
    if r.t2.len() > 0 && r.t2[0] == piece {
        assert(r.t2.contains(piece));
    }
}

/// A use of a resident piece makes it the most recent of those seen twice and
/// takes it from where it stood; all others keep their order, and no data, ghost
/// or target changes. A lookup counts a hit or a miss, never both.
pub proof fn law_lookup_promotes(v: CacheView, piece: u32, i: int)
    requires
        v.wf(),
    ensures
        0 <= i < v.t1.len() && v.t1[i] == piece ==> v.looked_up(piece).t1 == v.t1.take(i)
            + v.t1.skip(i + 1) && v.looked_up(piece).t2 == seq![piece] + v.t2,
        0 <= i < v.t2.len() && v.t2[i] == piece ==> v.looked_up(piece).t1 == v.t1 && v.looked_up(
            piece,
        ).t2 == seq![piece] + v.t2.take(i) + v.t2.skip(i + 1),
        v.looked_up(piece).entries == v.entries,
        v.looked_up(piece).b1 == v.b1 && v.looked_up(piece).b2 == v.b2,
        v.looked_up(piece).p == v.p && v.looked_up(piece).evictions == v.evictions,
        v.looked_up(piece).max_bytes == v.max_bytes,
        v.entries.contains_key(piece) ==> v.looked_up(piece).misses == v.misses && (v.hits
            < u64::MAX ==> v.looked_up(piece).hits == v.hits + 1),
        !v.entries.contains_key(piece) ==> v.looked_up(piece).hits == v.hits && (v.misses
            < u64::MAX ==> v.looked_up(piece).misses == v.misses + 1) && v.looked_up(piece).t1
            == v.t1 && v.looked_up(piece).t2 == v.t2,
{
    lemma_without(v.t1, piece);
    lemma_without(v.t2, piece);
    if 0 <= i < v.t1.len() && v.t1[i] == piece {
        assert(v.t1.contains(piece));
        assert(v.t1.remove(i) == v.t1.take(i) + v.t1.skip(i + 1));
        assert(without(v.t2, piece) == v.t2);
    }
    if 0 <= i < v.t2.len() && v.t2[i] == piece {
        assert(v.t2.contains(piece));
        assert(v.t2.remove(i) == v.t2.take(i) + v.t2.skip(i + 1));
        assert(without(v.t1, piece) == v.t1);
        assert(v.looked_up(piece).t2 == seq![piece] + (v.t2.take(i) + v.t2.skip(i + 1)));
    }
}

/// A hit on a ghost is counted once and moves the target by the ratio of the
/// other ghost list to the one that was hit, at least by one, within 0 and the
/// cap; the list that was hit loses the ghost and nothing else.
pub proof fn law_ghost_hit_step(v: CacheView, piece: u32, i: int)
    requires
        v.sound(),
    ensures
        0 <= i < v.b1.len() && v.b1[i] == piece ==> {
            let step = if v.b2.len() >= 2 * v.b1.len() {
                v.b2.len() / v.b1.len()
            } else {
                1
            };
            &&& v.after_hit_b1(piece).p == (if v.p + step <= v.ghost_cap {
                v.p + step
            } else {
                v.ghost_cap as int
            })
            &&& v.after_hit_b1(piece).b1 == v.b1.take(i) + v.b1.skip(i + 1)
            &&& v.after_hit_b1(piece).b2 == v.b2
        },
        0 <= i < v.b2.len() && v.b2[i] == piece ==> {
            let step = if v.b1.len() >= 2 * v.b2.len() {
                v.b1.len() / v.b2.len()
            } else {
                1
            };
            &&& v.after_hit_b2(piece).p == (if v.p >= step {
                v.p - step
            } else {
                0
            })
            &&& v.after_hit_b2(piece).b2 == v.b2.take(i) + v.b2.skip(i + 1)
            &&& v.after_hit_b2(piece).b1 == v.b1
        },
        v.ghost_hits_b1 < u64::MAX ==> v.after_hit_b1(piece).ghost_hits_b1 == v.ghost_hits_b1 + 1,
        v.ghost_hits_b2 < u64::MAX ==> v.after_hit_b2(piece).ghost_hits_b2 == v.ghost_hits_b2 + 1,
        v.after_hit_b1(piece).ghost_hits_b2 == v.ghost_hits_b2,
        v.after_hit_b2(piece).ghost_hits_b1 == v.ghost_hits_b1,
{
    lemma_without(v.b1, piece);
    lemma_without(v.b2, piece);
    if 0 <= i < v.b1.len() && v.b1[i] == piece {
        assert(v.b1.remove(i) == v.b1.take(i) + v.b1.skip(i + 1));
        lemma_ratio(v.b2.len(), v.b1.len());
    }
    if 0 <= i < v.b2.len() && v.b2[i] == piece {
        assert(v.b2.remove(i) == v.b2.take(i) + v.b2.skip(i + 1));
        lemma_ratio(v.b1.len(), v.b2.len());
    }
}

/// A ratio is above one exactly from the double on.
proof fn lemma_ratio(a: nat, b: nat)
    requires
        b > 0,
    ensures
        a / b > 1 <==> a >= 2 * b,
{
    assert(a / b > 1 <==> a >= 2 * b) by (nonlinear_arith)
        requires
            b > 0,
    ;
}

/// The target that a returning ghost leaves, and what it counts, is what an
/// insertion leaves: making room and placing the piece change neither.
pub proof fn law_ghost_hit_by_insertion(v: CacheView, piece: u32, data: Seq<u8>)
    requires
        v.wf(),
        v.max_bytes > 0,
        data.len() <= v.max_bytes,
    ensures
        v.b1.contains(piece) ==> v.inserted(piece, data).p == v.after_hit_b1(piece).p && v.inserted(
            piece,
            data,
        ).ghost_hits_b1 == v.after_hit_b1(piece).ghost_hits_b1,
        v.b2.contains(piece) ==> v.inserted(piece, data).p == v.after_hit_b2(piece).p && v.inserted(
            piece,
            data,
        ).ghost_hits_b2 == v.after_hit_b2(piece).ghost_hits_b2,
        !v.b1.contains(piece) ==> v.inserted(piece, data).ghost_hits_b1 == v.ghost_hits_b1,
        !v.b2.contains(piece) ==> v.inserted(piece, data).ghost_hits_b2 == v.ghost_hits_b2,
        !v.b1.contains(piece) && !v.b2.contains(piece) ==> v.inserted(piece, data).p == v.p,
        v.inserted(piece, data).hits == v.hits && v.inserted(piece, data).misses == v.misses,
{
    lemma_ghost_hit(v, piece);
    if !v.entries.contains_key(piece) {
        lemma_room_keeps_counts(v, data.len());
        if v.b1.contains(piece) {
            lemma_room_keeps_counts(v.after_hit_b1(piece), data.len());
        }
        if v.b2.contains(piece) {
            lemma_room_keeps_counts(v.after_hit_b2(piece), data.len());
        }
    } else {
        assert(v.t1.contains(piece) || v.t2.contains(piece));
    }
}

/// Making room counts no hits.
proof fn lemma_room_keeps_counts(v: CacheView, need: nat)
    ensures
        v.with_room(need).p == v.p,
        v.with_room(need).hits == v.hits,
        v.with_room(need).misses == v.misses,
        v.with_room(need).ghost_hits_b1 == v.ghost_hits_b1,
        v.with_room(need).ghost_hits_b2 == v.ghost_hits_b2,
    decreases v.t1.len() + v.t2.len(),
{
    if v.resident_bytes() + need <= v.max_bytes || (v.t1.len() == 0 && v.t2.len() == 0) {
    } else {
        lemma_room_keeps_counts(v.replaced(), need);
    }
}

/// A removal forgets one piece, resident or ghost, and touches no other: what is
/// left keeps its order, data and counts, and a removed piece leaves no ghost.
pub proof fn law_removal_forgets_one_piece(v: CacheView, piece: u32, other: u32)
    requires
        v.wf(),
    ensures
        v.removed(piece).wf(),
        !v.removed(piece).entries.contains_key(piece),
        !v.removed(piece).t1.contains(piece) && !v.removed(piece).t2.contains(piece),
        v.entries.contains_key(piece) ==> v.removed(piece).b1 == v.b1 && v.removed(piece).b2
            == v.b2,
        !v.entries.contains_key(piece) ==> !v.removed(piece).b1.contains(piece) && !v.removed(
            piece,
        ).b2.contains(piece) && v.removed(piece).t1 == v.t1 && v.removed(piece).t2 == v.t2,
        other != piece ==> {
            &&& v.removed(piece).entries.contains_key(other) == v.entries.contains_key(other)
            &&& v.entries.contains_key(other) ==> v.removed(piece).entries[other]
                == v.entries[other]
            &&& v.removed(piece).t1.contains(other) == v.t1.contains(other)
            &&& v.removed(piece).t2.contains(other) == v.t2.contains(other)
            &&& v.removed(piece).b1.contains(other) == v.b1.contains(other)
            &&& v.removed(piece).b2.contains(other) == v.b2.contains(other)
        },
        v.entries.contains_key(piece) ==> v.removed(piece).resident_bytes()
            + v.entries[piece].len() == v.resident_bytes(),
        v.removed(piece).p == v.p,
        v.removed(piece).evictions == v.evictions,
        v.removed(piece).hits == v.hits && v.removed(piece).misses == v.misses,
{
    lemma_removed(v, piece);
    lemma_without(v.t1, piece);
    lemma_without(v.t2, piece);
    lemma_without(v.b1, piece);
    lemma_without(v.b2, piece);
    assert(v.removed(piece).t1.contains(other) ==> v.t1.contains(other));
}

/// A new budget that holds everything evicts nothing; a smaller one keeps the
/// most recently used pieces of each list. The target stays where it is, unless
/// the new cap is below it.
pub proof fn law_resize_keeps_what_fits(v: CacheView, max_bytes: u64)
    requires
        v.wf(),
    ensures
        v.resident_bytes() <= max_bytes ==> v.resized(max_bytes).entries == v.entries && v.resized(
            max_bytes,
        ).t1 == v.t1 && v.resized(max_bytes).t2 == v.t2 && v.resized(max_bytes).evictions
            == v.evictions,
        v.resized(max_bytes).t1 == v.t1.take(v.resized(max_bytes).t1.len() as int),
        v.resized(max_bytes).t2 == v.t2.take(v.resized(max_bytes).t2.len() as int),
        v.resized(max_bytes).resident_bytes() <= max_bytes,
        v.p <= v.resized(max_bytes).ghost_cap ==> v.resized(max_bytes).p == v.p,
        v.p > v.resized(max_bytes).ghost_cap ==> v.resized(max_bytes).p == v.resized(
            max_bytes,
        ).ghost_cap,
        v.resized(max_bytes).hits == v.hits && v.resized(max_bytes).misses == v.misses,
{
    let cap = ghost_cap_for(max_bytes);
    let start = CacheView {
        max_bytes,
        ghost_cap: cap,
        p: if v.p < cap {
            v.p
        } else {
            cap
        },
        ..v
    };
    law_room_is_just_made(start, 0);
    lemma_with_room(start, 0);
}

/// A ghost list may hold one piece for each 256 KiB of the budget, but at least
/// 16, as far as a count of 32 bits goes.
pub proof fn law_ghost_cap(max_bytes: u64)
    ensures
        ghost_cap_for(max_bytes) >= 16,
        ghost_cap_for(max_bytes) > 16 ==> ghost_cap_for(max_bytes) * 262_144 <= max_bytes,
        ghost_cap_for(max_bytes) < u32::MAX ==> max_bytes < (ghost_cap_for(max_bytes) + 1)
            * 262_144,
{
}

/// A new cache is empty, with nothing counted and no room set aside for pieces
/// seen once.
pub proof fn law_new_cache_is_empty(max_bytes: u64)
    ensures
        CacheView::fresh(max_bytes).entries == Map::<u32, Seq<u8>>::empty(),
        CacheView::fresh(max_bytes).t1.len() + CacheView::fresh(max_bytes).t2.len() == 0,
        CacheView::fresh(max_bytes).b1.len() + CacheView::fresh(max_bytes).b2.len() == 0,
        CacheView::fresh(max_bytes).max_bytes == max_bytes,
        CacheView::fresh(max_bytes).p == 0,
        CacheView::fresh(max_bytes).hits == 0 && CacheView::fresh(max_bytes).misses == 0,
        CacheView::fresh(max_bytes).evictions == 0,
        CacheView::fresh(max_bytes).ghost_hits_b1 == 0 && CacheView::fresh(max_bytes).ghost_hits_b2
            == 0,
{
}

/// Ghosts hold no data: the resident bytes do not depend on the ghost lists.
pub proof fn law_ghosts_take_no_bytes(v: CacheView, b1: Seq<u32>, b2: Seq<u32>)
    ensures
        (CacheView { b1, b2, ..v }).resident_bytes() == v.resident_bytes(),
{
}

/// The target length of the recency list never leaves its range: a hit on a
/// ghost of that list does not lower it, a hit on a ghost of the other does not
/// raise it.
pub proof fn law_ghost_hits_move_target(v: CacheView, piece: u32)
    requires
        v.sound(),
    ensures
        v.p <= v.after_hit_b1(piece).p <= v.ghost_cap,
        v.p < v.ghost_cap ==> v.p < v.after_hit_b1(piece).p,
        v.after_hit_b2(piece).p <= v.p,
        v.p > 0 ==> v.after_hit_b2(piece).p < v.p,
{
}

// ── The cache ───────────────────────────────────────────────────────

/// Moves bytes into a shared buffer.
///
/// Calls `Arc::<[u8]>::from` on a `Vec<u8>` and claims that the buffer holds
/// the bytes of the vector.
#[verifier::external_body]
fn shared_bytes(data: Vec<u8>) -> (r: Arc<[u8]>)
    ensures
        r@ == data@,
{
    Arc::from(data)
}

/// Finds a piece in a list.
fn position(list: &VecDeque<u32>, piece: u32) -> (r: Option<usize>)
    ensures
        match r {
            Some(i) => i < list@.len() && list@[i as int] == piece,
            None => !list@.contains(piece),
        },
{
    let mut i: usize = 0;
    while i < list.len()
        invariant
            i <= list@.len(),
            forall|k: int| 0 <= k < i ==> list@[k] != piece,
        decreases list@.len() - i,
    {
        if list[i] == piece {
            return Some(i);
        }
        i += 1;
    }
    None
}

/// Takes a piece out of a list.
fn take_out(list: &mut VecDeque<u32>, piece: u32) -> (r: bool)
    requires
        old(list)@.no_duplicates(),
    ensures
        final(list)@ == without(old(list)@, piece),
        r == old(list)@.contains(piece),
{
    match position(list, piece) {
        Some(i) => {
            proof {
                lemma_without(list@, piece);
            }
            list.remove(i);
            true
        },
        None => false,
    }
}

/// The length that the ghost lists may reach under a budget.
fn ghost_cap(max_bytes: u64) -> (r: u32)
    ensures
        r == ghost_cap_for(max_bytes),
{
    let n: u64 = max_bytes / ESTIMATED_PIECE_BYTES;
    if n < MIN_GHOST_CAP {
        16
    } else if n > 0xffff_ffff {
        0xffff_ffff
    } else {
        n as u32
    }
}

/// Piece data cache with adaptive replacement.
pub struct PieceDataCache {
    t1: VecDeque<u32>,
    t2: VecDeque<u32>,
    b1: VecDeque<u32>,
    b2: VecDeque<u32>,
    b1_set: HashSet<u32>,
    b2_set: HashSet<u32>,
    entries: HashMap<u32, Arc<[u8]>>,
    current_bytes: u64,
    max_bytes: u64,
    ghost_cap: u32,
    p: u32,
    hits: u64,
    misses: u64,
    evictions: u64,
    ghost_hits_b1: u64,
    ghost_hits_b2: u64,
}

/// The bytes behind shared buffers.
spec fn contents(entries: Map<u32, Arc<[u8]>>) -> Map<u32, Seq<u8>> {
    entries.map_values(|data: Arc<[u8]>| data@)
}

impl View for PieceDataCache {
    type V = CacheView;

    closed spec fn view(&self) -> CacheView {
        CacheView {
            t1: self.t1@,
            t2: self.t2@,
            b1: self.b1@,
            b2: self.b2@,
            entries: contents(self.entries@),
            max_bytes: self.max_bytes,
            ghost_cap: self.ghost_cap,
            p: self.p,
            hits: self.hits,
            misses: self.misses,
            evictions: self.evictions,
            ghost_hits_b1: self.ghost_hits_b1,
            ghost_hits_b2: self.ghost_hits_b2,
        }
    }
}

impl PieceDataCache {
    /// The lookup sets mirror the ghost lists, and the byte counter is the sum
    /// of what is resident.
    pub closed spec fn mirrors(self) -> bool {
        &&& forall|k: u32| #[trigger] self.b1_set@.contains(k) <==> self.b1@.contains(k)
        &&& forall|k: u32| #[trigger] self.b2_set@.contains(k) <==> self.b2@.contains(k)
        &&& self.current_bytes == self@.resident_bytes()
    }

    /// Sound, within its budget, and consistent inside.
    pub open spec fn wf(self) -> bool {
        self.mirrors() && self@.wf()
    }

    /// Creates a cache with the given byte budget.
    ///
    /// A budget of `0` disables caching: all inserts are rejected.
    pub fn new(max_bytes: u64) -> (r: PieceDataCache)
        ensures
            r.wf(),
            r@ == CacheView::fresh(max_bytes),
    {
        let r = PieceDataCache {
            t1: VecDeque::new(),
            t2: VecDeque::new(),
            b1: VecDeque::new(),
            b2: VecDeque::new(),
            b1_set: HashSet::new(),
            b2_set: HashSet::new(),
            entries: HashMap::new(),
            current_bytes: 0,
            max_bytes,
            ghost_cap: ghost_cap(max_bytes),
            p: 0,
            hits: 0,
            misses: 0,
            evictions: 0,
            ghost_hits_b1: 0,
            ghost_hits_b2: 0,
        };
        assert(r@.entries == Map::<u32, Seq<u8>>::empty());
        r
    }

    /// Creates a cache with the default 32 MiB budget.
    pub fn with_default_budget() -> (r: PieceDataCache)
        ensures
            r.wf(),
            r@ == CacheView::fresh(DEFAULT_CACHE_BYTES),
    {
        PieceDataCache::new(DEFAULT_CACHE_BYTES)
    }

    /// Adds an evicted piece to the recency ghosts.
    fn add_to_ghost_b1(&mut self, piece_index: u32)
        requires
            old(self).ghost_cap > 0,
            old(self).b1@.no_duplicates(),
            forall|k: u32| #[trigger]
                old(self).b1_set@.contains(k) <==> old(self).b1@.contains(k),
        ensures
            final(self)@ == (CacheView {
                b1: haunted(old(self).b1@, piece_index, old(self).ghost_cap),
                ..old(self)@
            }),
            final(self).current_bytes == old(self).current_bytes,
            final(self).b2_set@ == old(self).b2_set@,
            forall|k: u32| #[trigger]
                final(self).b1_set@.contains(k) <==> final(self).b1@.contains(k),
    {
        let ghost start = *self;
        let cap: usize = self.ghost_cap as usize;
        while self.b1.len() >= cap
            invariant
                cap == start.ghost_cap,
                cap > 0,
                self.b1@.len() <= start.b1@.len(),
                self.b1@ == start.b1@.take(self.b1@.len() as int),
                start.b1@.len() < cap ==> self.b1@.len() == start.b1@.len(),
                start.b1@.len() >= cap ==> self.b1@.len() >= cap - 1,
                self.b1@.no_duplicates(),
                self@ == (CacheView { b1: self.b1@, ..start@ }),
                self.current_bytes == start.current_bytes,
                self.b2_set@ == start.b2_set@,
                forall|k: u32| #[trigger] self.b1_set@.contains(k) <==> self.b1@.contains(k),
            decreases self.b1@.len(),
        {
            let ghost before = self.b1@;
            match self.b1.pop_back() {
                Some(old_piece) => {
                    self.b1_set.remove(&old_piece);
                    proof {
                        lemma_drop_last(before);
                        assert(self.b1@ == before.drop_last());
                    }
                },
                None => {},
            }
        }
        let ghost kept = self.b1@;
        self.b1.push_front(piece_index);
        self.b1_set.insert(piece_index);
        proof {
            lemma_in_front(piece_index, kept);
            assert(self.b1@ == in_front(piece_index, kept));
            assert(self.b1@ == haunted(start.b1@, piece_index, start.ghost_cap));
        }
    }

    /// Adds an evicted piece to the frequency ghosts.
    fn add_to_ghost_b2(&mut self, piece_index: u32)
        requires
            old(self).ghost_cap > 0,
            old(self).b2@.no_duplicates(),
            forall|k: u32| #[trigger]
                old(self).b2_set@.contains(k) <==> old(self).b2@.contains(k),
        ensures
            final(self)@ == (CacheView {
                b2: haunted(old(self).b2@, piece_index, old(self).ghost_cap),
                ..old(self)@
            }),
            final(self).current_bytes == old(self).current_bytes,
            final(self).b1_set@ == old(self).b1_set@,
            forall|k: u32| #[trigger]
                final(self).b2_set@.contains(k) <==> final(self).b2@.contains(k),
    {
        let ghost start = *self;
        let cap: usize = self.ghost_cap as usize;
        while self.b2.len() >= cap
            invariant
                cap == start.ghost_cap,
                cap > 0,
                self.b2@.len() <= start.b2@.len(),
                self.b2@ == start.b2@.take(self.b2@.len() as int),
                start.b2@.len() < cap ==> self.b2@.len() == start.b2@.len(),
                start.b2@.len() >= cap ==> self.b2@.len() >= cap - 1,
                self.b2@.no_duplicates(),
                self@ == (CacheView { b2: self.b2@, ..start@ }),
                self.current_bytes == start.current_bytes,
                self.b1_set@ == start.b1_set@,
                forall|k: u32| #[trigger] self.b2_set@.contains(k) <==> self.b2@.contains(k),
            decreases self.b2@.len(),
        {
            let ghost before = self.b2@;
            match self.b2.pop_back() {
                Some(old_piece) => {
                    self.b2_set.remove(&old_piece);
                    proof {
                        lemma_drop_last(before);
                        assert(self.b2@ == before.drop_last());
                    }
                },
                None => {},
            }
        }
        let ghost kept = self.b2@;
        self.b2.push_front(piece_index);
        self.b2_set.insert(piece_index);
        proof {
            lemma_in_front(piece_index, kept);
            assert(self.b2@ == in_front(piece_index, kept));
            assert(self.b2@ == haunted(start.b2@, piece_index, start.ghost_cap));
        }
    }

    /// Evicts the least recently used piece of the recency list.
    fn evict_from_t1(&mut self) -> (r: bool)
        requires
            old(self).mirrors(),
            old(self)@.sound(),
            old(self).t1@.len() > 0 ==> old(self)@.evicts_recent(),
        ensures
            r == (old(self).t1@.len() > 0),
            !r ==> final(self)@ == old(self)@ && final(self).mirrors(),
            r ==> final(self)@ == old(self)@.replaced() && final(self).mirrors()
                && final(self)@.sound(),
    {
        let ghost start = self@;
        match self.t1.pop_back() {
            None => false,
            Some(evicted) => {
                proof {
                    lemma_replaced(start);
                    assert(start.t1.contains(evicted));
                    assert(start.entries.contains_key(evicted));
                }
                match self.entries.remove(&evicted) {
                    Some(data) => {
                        assert(data@ == start.entries[evicted]);
                        self.current_bytes = self.current_bytes - data.len() as u64;
                    },
                    None => {},
                }
                self.evictions = self.evictions.saturating_add(1);
                assert(self@.entries == start.entries.remove(evicted));
                self.add_to_ghost_b1(evicted);
                assert(self@ == start.replaced());
                true
            },
        }
    }

    /// Evicts the least recently used piece of the frequency list.
    fn evict_from_t2(&mut self) -> (r: bool)
        requires
            old(self).mirrors(),
            old(self)@.sound(),
            !old(self)@.evicts_recent(),
        ensures
            r == (old(self).t2@.len() > 0),
            !r ==> final(self)@ == old(self)@ && final(self).mirrors(),
            r ==> final(self)@ == old(self)@.replaced() && final(self).mirrors()
                && final(self)@.sound(),
    {
        let ghost start = self@;
        match self.t2.pop_back() {
            None => false,
            Some(evicted) => {
                proof {
                    lemma_replaced(start);
                    assert(start.t2.contains(evicted));
                    assert(start.entries.contains_key(evicted));
                }
                match self.entries.remove(&evicted) {
                    Some(data) => {
                        assert(data@ == start.entries[evicted]);
                        self.current_bytes = self.current_bytes - data.len() as u64;
                    },
                    None => {},
                }
                self.evictions = self.evictions.saturating_add(1);
                assert(self@.entries == start.entries.remove(evicted));
                self.add_to_ghost_b2(evicted);
                assert(self@ == start.replaced());
                true
            },
        }
    }

    /// Evicts one piece. Returns `false` if there is none.
    fn replace(&mut self) -> (r: bool)
        requires
            old(self).mirrors(),
            old(self)@.sound(),
        ensures
            r == (old(self)@.t1.len() + old(self)@.t2.len() > 0),
            !r ==> final(self)@ == old(self)@ && final(self).mirrors(),
            r ==> final(self)@ == old(self)@.replaced() && final(self).mirrors()
                && final(self)@.sound(),
    {
        let evict_recent = if self.t1.len() == 0 {
            false
        } else if self.t2.len() == 0 {
            true
        } else {
            self.t1.len() > self.p as usize
        };
        if evict_recent {
            self.evict_from_t1()
        } else {
            self.evict_from_t2()
        }
    }

    /// Evicts until `piece_bytes` more bytes fit.
    fn ensure_room(&mut self, piece_bytes: u64)
        requires
            old(self).mirrors(),
            old(self)@.sound(),
            piece_bytes <= old(self)@.max_bytes,
        ensures
            final(self).mirrors(),
            final(self)@ == old(self)@.with_room(piece_bytes as nat),
            final(self)@.sound(),
            old(self)@.shrank_to(final(self)@),
            final(self)@.resident_bytes() + piece_bytes <= old(self)@.max_bytes,
    {
        let ghost start = self@;
        proof {
            lemma_with_room(start, piece_bytes as nat);
        }
        while self.current_bytes > self.max_bytes - piece_bytes
            invariant
                self.mirrors(),
                self@.sound(),
                self@.max_bytes == start.max_bytes,
                piece_bytes <= start.max_bytes,
                self@.with_room(piece_bytes as nat) == start.with_room(piece_bytes as nat),
            decreases self@.t1.len() + self@.t2.len(),
        {
            proof {
                if self@.t1.len() + self@.t2.len() > 0 {
                    lemma_replaced(self@);
                }
                assert(self@.t1.len() == 0 && self@.t2.len() == 0 ==> self@.resident_bytes() == 0);
            }
            self.replace();
        }
    }

    /// Puts a resident piece in front of the frequency list.
    fn promote_to_t2(&mut self, piece_index: u32)
        requires
            old(self).mirrors(),
            old(self)@.sound(),
            old(self)@.entries.contains_key(piece_index),
        ensures
            final(self).mirrors(),
            final(self)@ == old(self)@.promoted(piece_index),
            final(self)@.sound(),
            final(self)@.resident_bytes() == old(self)@.resident_bytes(),
    {
        let ghost start = self@;
        proof {
            lemma_promoted(start, piece_index);
            lemma_bytes_without(start.t1, piece_index, start.entries);
            lemma_bytes_without(start.t2, piece_index, start.entries);
        }
        if !take_out(&mut self.t1, piece_index) {
            take_out(&mut self.t2, piece_index);
        }
        self.t2.push_front(piece_index);
        assert(self@ == start.promoted(piece_index));
    }

    /// Adds a piece that is not known to the frequency list.
    fn add_frequent(&mut self, piece_index: u32, data: Arc<[u8]>)
        requires
            old(self).mirrors(),
            old(self)@.sound(),
            !old(self)@.knows(piece_index),
            old(self)@.resident_bytes() + data@.len() <= old(self)@.max_bytes,
        ensures
            final(self).wf(),
            final(self)@ == old(self)@.with_frequent(piece_index, data@),
    {
        let ghost start = self@;
        proof {
            lemma_added(start, piece_index, data@);
        }
        let ghost bytes = data@;
        self.current_bytes = self.current_bytes + data.len() as u64;
        self.entries.insert(piece_index, data);
        self.t2.push_front(piece_index);
        assert(self@.entries == start.entries.insert(piece_index, bytes));
        assert(self@ == start.with_frequent(piece_index, bytes));
    }

    /// Adds a piece that is not known to the recency list.
    fn add_recent(&mut self, piece_index: u32, data: Arc<[u8]>)
        requires
            old(self).mirrors(),
            old(self)@.sound(),
            !old(self)@.knows(piece_index),
            old(self)@.resident_bytes() + data@.len() <= old(self)@.max_bytes,
        ensures
            final(self).wf(),
            final(self)@ == old(self)@.with_recent(piece_index, data@),
    {
        let ghost start = self@;
        proof {
            lemma_added(start, piece_index, data@);
        }
        let ghost bytes = data@;
        self.current_bytes = self.current_bytes + data.len() as u64;
        self.entries.insert(piece_index, data);
        self.t1.push_front(piece_index);
        assert(self@.entries == start.entries.insert(piece_index, bytes));
        assert(self@ == start.with_recent(piece_index, bytes));
    }

    /// Forgets a recency ghost.
    fn remove_from_ghost_b1(&mut self, piece_index: u32)
        requires
            old(self).mirrors(),
            old(self)@.sound(),
        ensures
            final(self).mirrors(),
            final(self)@ == (CacheView {
                b1: without(old(self)@.b1, piece_index),
                ..old(self)@
            }),
    {
        proof {
            lemma_without(self.b1@, piece_index);
        }
        self.b1_set.remove(&piece_index);
        take_out(&mut self.b1, piece_index);
    }

    /// Forgets a frequency ghost.
    fn remove_from_ghost_b2(&mut self, piece_index: u32)
        requires
            old(self).mirrors(),
            old(self)@.b2.no_duplicates(),
        ensures
            final(self).mirrors(),
            final(self)@ == (CacheView {
                b2: without(old(self)@.b2, piece_index),
                ..old(self)@
            }),
    {
        proof {
            lemma_without(self.b2@, piece_index);
        }
        self.b2_set.remove(&piece_index);
        take_out(&mut self.b2, piece_index);
    }

    /// Inserts verified piece data into the cache.
    ///
    /// A resident piece moves to the front of the frequency list and keeps its
    /// data. A piece that was evicted not long ago moves the target of the
    /// recency list and comes back into the frequency list. Any other piece
    /// goes to the recency list. Other pieces are evicted as needed to stay
    /// within the byte budget.
    pub fn insert(&mut self, piece_index: u32, data: Vec<u8>)
        requires
            old(self).wf(),
        ensures
            final(self).wf(),
            final(self)@ == old(self)@.inserted(piece_index, data@),
    {
        let ghost start = self@;
        let ghost bytes = data@;
        let data = shared_bytes(data);
        let piece_bytes: u64 = data.len() as u64;
        if piece_bytes > self.max_bytes || self.max_bytes == 0 {
            return;
        }
        if self.entries.contains_key(&piece_index) {
            assert(start.entries.contains_key(piece_index));
            self.promote_to_t2(piece_index);
            return;
        }
        assert(!start.entries.contains_key(piece_index));
        proof {
            lemma_ghost_hit(start, piece_index);
        }
        if self.b1_set.contains(&piece_index) {
            self.ghost_hits_b1 = self.ghost_hits_b1.saturating_add(1);
            let delta = ghost_step(self.b1.len(), self.b2.len());
            self.p = if delta < self.ghost_cap - self.p {
                self.p + delta
            } else {
                self.ghost_cap
            };
            self.remove_from_ghost_b1(piece_index);
            assert(self@ == start.after_hit_b1(piece_index));
            self.ensure_room(piece_bytes);
            self.add_frequent(piece_index, data);
            return;
        }
        if self.b2_set.contains(&piece_index) {
            self.ghost_hits_b2 = self.ghost_hits_b2.saturating_add(1);
            let delta = ghost_step(self.b2.len(), self.b1.len());
            self.p = self.p.saturating_sub(delta);
            self.remove_from_ghost_b2(piece_index);
            assert(self@ == start.after_hit_b2(piece_index));
            self.ensure_room(piece_bytes);
            self.add_frequent(piece_index, data);
            return;
        }
        self.ensure_room(piece_bytes);
        self.add_recent(piece_index, data);
    }

    /// Retrieves cached piece data without a disk read.
    ///
    /// On a hit the piece moves to the front of the frequency list.
    pub fn get(&mut self, piece_index: u32) -> (r: Option<Arc<[u8]>>)
        requires
            old(self).wf(),
        ensures
            final(self).wf(),
            final(self)@ == old(self)@.looked_up(piece_index),
            match r {
                Some(data) => old(self)@.entries.contains_key(piece_index) && data@ == old(
                    self,
                )@.entries[piece_index],
                None => !old(self)@.entries.contains_key(piece_index),
            },
    {
        let ghost start = self@;
        let found = match self.entries.get(&piece_index) {
            Some(data) => Some(Arc::clone(data)),
            None => None,
        };
        assert(found is Some <==> start.entries.contains_key(piece_index));
        if found.is_some() {
            self.promote_to_t2(piece_index);
            self.hits = self.hits.saturating_add(1);
        } else {
            self.misses = self.misses.saturating_add(1);
        }
        assert(self@ == start.looked_up(piece_index));
        found
    }

    /// Removes a specific piece from the cache. Returns whether it was
    /// resident.
    pub fn remove(&mut self, piece_index: u32) -> (r: bool)
        requires
            old(self).wf(),
        ensures
            final(self).wf(),
            final(self)@ == old(self)@.removed(piece_index),
            r == old(self)@.entries.contains_key(piece_index),
    {
        let ghost start = self@;
        proof {
            lemma_removed(start, piece_index);
            lemma_bytes_without(start.t1, piece_index, start.entries);
            lemma_bytes_without(start.t2, piece_index, start.entries);
        }
        match self.entries.remove(&piece_index) {
            Some(data) => {
                assert(start.entries.contains_key(piece_index));
                assert(data@ == start.entries[piece_index]);
                self.current_bytes = self.current_bytes - data.len() as u64;
                if !take_out(&mut self.t1, piece_index) {
                    take_out(&mut self.t2, piece_index);
                }
                assert(self@.entries == start.entries.remove(piece_index));
                assert(self@ == start.removed(piece_index));
                true
            },
            None => {
                assert(!start.entries.contains_key(piece_index));
                assert(self@.entries == start.entries);
                assert(self@ == start);
                self.remove_from_ghost_b1(piece_index);
                self.remove_from_ghost_b2(piece_index);
                assert(self@ == start.removed(piece_index));
                false
            },
        }
    }

    /// Drops all cached data and ghost lists, and resets the counters. The
    /// budget stays.
    pub fn clear(&mut self)
        requires
            old(self).wf(),
        ensures
            final(self).wf(),
            final(self)@ == CacheView::fresh(old(self)@.max_bytes),
    {
        self.entries.clear();
        self.t1.clear();
        self.t2.clear();
        self.b1.clear();
        self.b2.clear();
        self.b1_set.clear();
        self.b2_set.clear();
        self.current_bytes = 0;
        self.p = 0;
        self.hits = 0;
        self.misses = 0;
        self.evictions = 0;
        self.ghost_hits_b1 = 0;
        self.ghost_hits_b2 = 0;
        assert(self@.entries == Map::<u32, Seq<u8>>::empty());
    }

    /// Returns a snapshot of cache statistics.
    pub fn stats(&self) -> (r: CacheStats)
        requires
            self.wf(),
        ensures
            r.hits == self@.hits,
            r.misses == self@.misses,
            r.evictions == self@.evictions,
            r.resident_pieces == self@.entries.dom().len() % 0x1_0000_0000,
            r.resident_bytes == self@.resident_bytes(),
            r.max_bytes == self@.max_bytes,
            r.ghost_hits_b1 == self@.ghost_hits_b1,
            r.ghost_hits_b2 == self@.ghost_hits_b2,
            r.arc_target_t1 == self@.p,
    {
        assert(self@.entries.dom() == self.entries@.dom());
        CacheStats {
            hits: self.hits,
            misses: self.misses,
            evictions: self.evictions,
            resident_pieces: low32(self.entries.len()),
            resident_bytes: self.current_bytes,
            max_bytes: self.max_bytes,
            ghost_hits_b1: self.ghost_hits_b1,
            ghost_hits_b2: self.ghost_hits_b2,
            arc_target_t1: self.p,
        }
    }

    /// The cache for diagnostics. `hit_ratio` is the share of lookups that hit,
    /// as text.
    pub fn debug_text(&self, hit_ratio: &str) -> (r: String)
        requires
            self.wf(),
        ensures
            r@ == "PieceDataCache { resident_pieces: "@ + decimal(
                self@.entries.dom().len() % 0x1_0000_0000,
            ) + ", resident_bytes: "@ + decimal(self@.resident_bytes()) + ", max_bytes: "@ + decimal(
                self@.max_bytes as nat,
            ) + ", hit_ratio: \""@ + hit_ratio@ + "\" }"@,
    {
        let stats = self.stats();
        let mut out = String::new();
        out.append("PieceDataCache { resident_pieces: ");
        push_decimal(&mut out, stats.resident_pieces as u64);
        out.append(", resident_bytes: ");
        push_decimal(&mut out, stats.resident_bytes);
        out.append(", max_bytes: ");
        push_decimal(&mut out, stats.max_bytes);
        out.append(", hit_ratio: \"");
        out.append(hit_ratio);
        out.append("\" }");
        out
    }

    /// Adjusts the byte budget.
    ///
    /// If the new budget is smaller than current usage, pieces are evicted
    /// until usage fits.
    pub fn set_max_bytes(&mut self, new_max: u64)
        requires
            old(self).wf(),
        ensures
            final(self).wf(),
            final(self)@ == old(self)@.resized(new_max),
    {
        self.max_bytes = new_max;
        self.ghost_cap = ghost_cap(new_max);
        if self.p > self.ghost_cap {
            self.p = self.ghost_cap;
        }
        self.ensure_room(0);
    }

    /// Returns the current byte budget.
    pub fn max_bytes(&self) -> (r: u64)
        ensures
            r == self@.max_bytes,
    {
        self.max_bytes
    }
}

impl Default for PieceDataCache {
    fn default() -> (r: PieceDataCache)
        ensures
            r.wf(),
            r@ == CacheView::fresh(DEFAULT_CACHE_BYTES),
    {
        PieceDataCache::with_default_budget()
    }
}

/// How far a ghost hit moves the target.
fn ghost_step(hit_len: usize, other_len: usize) -> (r: u32)
    requires
        hit_len <= u32::MAX,
        other_len <= u32::MAX,
    ensures
        r == adaptation(hit_len as nat, other_len as nat),
{
    if hit_len > 0 {
        let ratio: usize = other_len / hit_len;
        assert(ratio <= other_len) by (nonlinear_arith)
            requires
                ratio == other_len / hit_len,
                hit_len > 0,
        ;
        if ratio > 1 {
            return ratio as u32;
        }
    }
    1
}

/// The usual budget of a cache is 32 MiB.
pub proof fn law_limits()
    ensures
        DEFAULT_CACHE_BYTES == 33_554_432,
{
}

} // verus!
