//! Tracks the download state of every piece.
//!
//! A piece is claimed before it is fetched, and only a piece that is needed
//! can be claimed, so of all peers that ask for it one gets it. Those that
//! share a map between threads take a lock around each operation.

use vstd::prelude::*;

verus! {

/// State of a single piece.
///
/// ```text
/// Needed ──→ InFlight ──→ Done
///                │
///                └──→ Failed ──→ Needed (retry)
/// ```
#[derive(Debug, Clone, Copy, PartialEq, Eq, Structural)]
pub enum PieceState {
    /// Piece has not been downloaded yet.
    Needed,
    /// Piece is currently being fetched by a peer.
    InFlight,
    /// Piece has been downloaded and verified.
    Done,
    /// Piece download or verification failed, eligible for retry.
    Failed,
}

impl PieceState {
    /// The byte that stands for a state.
    pub open spec fn code(self) -> u8 {
        match self {
            PieceState::Needed => 0,
            PieceState::InFlight => 1,
            PieceState::Done => 2,
            PieceState::Failed => 3,
        }
    }

    /// Convert from a raw value, defaulting to `Needed` for unknown values.
    pub fn from_u8(v: u8) -> (r: PieceState)
        ensures
            v <= 3 ==> r.code() == v,
            v > 3 ==> r == PieceState::Needed,
    {
        match v {
            1 => PieceState::InFlight,
            2 => PieceState::Done,
            3 => PieceState::Failed,
            _ => PieceState::Needed,
        }
    }

    /// The raw value of a state.
    pub fn to_u8(self) -> (r: u8)
        ensures
            r == self.code(),
    {
        match self {
            PieceState::Needed => 0,
            PieceState::InFlight => 1,
            PieceState::Done => 2,
            PieceState::Failed => 3,
        }
    }
}

// ── Model ───────────────────────────────────────────────────────────

/// How many pieces are in a state.
pub open spec fn count_in(states: Seq<PieceState>, state: PieceState) -> nat
    decreases states.len(),
{
    if states.len() == 0 {
        0
    } else {
        count_in(states.drop_last(), state) + if states.last() == state {
            1nat
        } else {
            0nat
        }
    }
}

/// The states after piece `index` went from `from` to `to`, if it exists and
/// was in `from`.
pub open spec fn moved(
    states: Seq<PieceState>,
    index: u32,
    from: PieceState,
    to: PieceState,
) -> Seq<PieceState> {
    if is_in(states, index, from) {
        states.update(index as int, to)
    } else {
        states
    }
}

/// Whether a piece exists and is in a state.
pub open spec fn is_in(states: Seq<PieceState>, index: u32, state: PieceState) -> bool {
    index < states.len() && states[index as int] == state
}

/// The states after piece `index` was put in a state, if it exists.
pub open spec fn put(states: Seq<PieceState>, index: u32, state: PieceState) -> Seq<PieceState> {
    if index < states.len() {
        states.update(index as int, state)
    } else {
        states
    }
}

/// Counting stops at the number of pieces, and reaches it only if all are in
/// the state.
proof fn lemma_count(states: Seq<PieceState>, state: PieceState)
    ensures
        count_in(states, state) <= states.len(),
        count_in(states, state) == states.len() <==> forall|i: int|
            0 <= i < states.len() ==> states[i] == state,
    decreases states.len(),
{
    if states.len() > 0 {
        let front = states.drop_last();
        lemma_count(front, state);
        if forall|i: int| 0 <= i < states.len() ==> states[i] == state {
            assert forall|i: int| 0 <= i < front.len() implies front[i] == state by {
                assert(states[i] == state);
            }
            assert(states[states.len() - 1] == state);
        }
        if count_in(states, state) == states.len() {
            assert(states.last() == state);
            assert forall|i: int| 0 <= i < states.len() implies states[i] == state by {
                if i < front.len() {
                    assert(front[i] == state);
                }
            }
        }
    }
}

// ── SharedPieceMap ──────────────────────────────────────────────────

/// Piece state tracker.
pub struct SharedPieceMap {
    states: Vec<PieceState>,
    piece_count: u32,
}

/// The state of each piece.
impl View for SharedPieceMap {
    type V = Seq<PieceState>;

    closed spec fn view(&self) -> Seq<PieceState> {
        self.states@
    }
}

impl SharedPieceMap {
    /// There is one state for each piece.
    pub closed spec fn wf(self) -> bool {
        self.states@.len() == self.piece_count
    }

    /// Creates a new piece map with all pieces in `Needed` state.
    pub fn new(piece_count: u32) -> (r: SharedPieceMap)
        ensures
            r.wf(),
            r@ == Seq::new(piece_count as nat, |i: int| PieceState::Needed),
    {
        let mut states: Vec<PieceState> = Vec::new();
        let mut i: u32 = 0;
        while i < piece_count
            invariant
                i <= piece_count,
                states@ == Seq::new(i as nat, |k: int| PieceState::Needed),
            decreases piece_count - i,
        {
            states.push(PieceState::Needed);
            i += 1;
        }
        SharedPieceMap { states, piece_count }
    }

    /// Creates a piece map with pre-verified pieces already marked `Done`.
    ///
    /// Piece `i` is `Done` where `verified_pieces[i]` is true. All other pieces,
    /// also those past the end of the list, start as `Needed`. This lets an
    /// interrupted download go on where it stopped.
    pub fn from_verified(piece_count: u32, verified_pieces: &[bool]) -> (r: SharedPieceMap)
        ensures
            r.wf(),
            r@ == Seq::new(
                piece_count as nat,
                |i: int|
                    if i < verified_pieces@.len() && verified_pieces@[i] {
                        PieceState::Done
                    } else {
                        PieceState::Needed
                    },
            ),
    {
        let mut states: Vec<PieceState> = Vec::new();
        let mut i: u32 = 0;
        while i < piece_count
            invariant
                i <= piece_count,
                states@.len() == i,
                forall|k: int|
                    0 <= k < i ==> #[trigger] states@[k] == (if k < verified_pieces@.len()
                        && verified_pieces@[k] {
                        PieceState::Done
                    } else {
                        PieceState::Needed
                    }),
            decreases piece_count - i,
        {
            let at: usize = i as usize;
            if at < verified_pieces.len() && verified_pieces[at] {
                states.push(PieceState::Done);
            } else {
                states.push(PieceState::Needed);
            }
            i += 1;
        }
        SharedPieceMap { states, piece_count }
    }

    /// Returns the total number of pieces.
    pub fn piece_count(&self) -> (r: u32)
        requires
            self.wf(),
        ensures
            r == self@.len(),
    {
        self.piece_count
    }

    /// Gets the current state of a piece, `Needed` for one that does not exist.
    pub fn get(&self, index: u32) -> (r: PieceState)
        ensures
            r == (if index < self@.len() {
                self@[index as int]
            } else {
                PieceState::Needed
            }),
    {
        let at: usize = index as usize;
        if at < self.states.len() {
            self.states[at]
        } else {
            PieceState::Needed
        }
    }

    /// Takes a piece from `Needed` to `InFlight`.
    ///
    /// Returns `true` if the caller has claimed the piece, `false` if it was
    /// already `InFlight`, `Done` or `Failed`, or does not exist.
    pub fn try_claim(&mut self, index: u32) -> (r: bool)
        requires
            old(self).wf(),
        ensures
            final(self).wf(),
            r == is_in(old(self)@, index, PieceState::Needed),
            final(self)@ == moved(
                old(self)@,
                index,
                PieceState::Needed,
                PieceState::InFlight,
            ),
    {
        self.exchange(index, PieceState::Needed, PieceState::InFlight)
    }

    /// Takes a piece from one state to another if it is in the first.
    fn exchange(&mut self, index: u32, from: PieceState, to: PieceState) -> (r: bool)
        requires
            old(self).wf(),
        ensures
            final(self).wf(),
            r == is_in(old(self)@, index, from),
            final(self)@ == moved(old(self)@, index, from, to),
    {
        let at: usize = index as usize;
        if at < self.states.len() && self.states[at] == from {
            self.states.set(at, to);
            true
        } else {
            false
        }
    }

    /// Marks a piece as `Done` (successfully downloaded and verified).
    pub fn mark_done(&mut self, index: u32)
        requires
            old(self).wf(),
        ensures
            final(self).wf(),
            final(self)@ == put(old(self)@, index, PieceState::Done),
    {
        let at: usize = index as usize;
        if at < self.states.len() {
            self.states.set(at, PieceState::Done);
        }
    }

    /// Marks a piece as `Failed` (download or verification error).
    pub fn mark_failed(&mut self, index: u32)
        requires
            old(self).wf(),
        ensures
            final(self).wf(),
            final(self)@ == put(old(self)@, index, PieceState::Failed),
    {
        let at: usize = index as usize;
        if at < self.states.len() {
            self.states.set(at, PieceState::Failed);
        }
    }

    /// Resets a `Failed` piece back to `Needed` for retry.
    ///
    /// Returns `true` if the piece was `Failed` and was reset.
    pub fn retry_failed(&mut self, index: u32) -> (r: bool)
        requires
            old(self).wf(),
        ensures
            final(self).wf(),
            r == is_in(old(self)@, index, PieceState::Failed),
            final(self)@ == moved(old(self)@, index, PieceState::Failed, PieceState::Needed),
    {
        self.exchange(index, PieceState::Failed, PieceState::Needed)
    }

    /// Returns the number of pieces in `Done` state.
    pub fn done_count(&self) -> (r: u32)
        requires
            self.wf(),
        ensures
            r == count_in(self@, PieceState::Done),
    {
        let mut count: u32 = 0;
        let mut i: usize = 0;
        assert(self@.take(0) == Seq::<PieceState>::empty());
        while i < self.states.len()
            invariant
                self.wf(),
                i <= self@.len(),
                count <= i,
                count == count_in(self@.take(i as int), PieceState::Done),
            decreases self@.len() - i,
        {
            assert(self@.take(i + 1).drop_last() == self@.take(i as int));
            if self.states[i] == PieceState::Done {
                count += 1;
            }
            i += 1;
        }
        assert(self@.take(i as int) == self@);
        count
    }

    /// Returns `true` when all pieces are `Done`.
    pub fn is_complete(&self) -> (r: bool)
        requires
            self.wf(),
        ensures
            r == (forall|i: int| 0 <= i < self@.len() ==> self@[i] == PieceState::Done),
    {
        proof {
            lemma_count(self@, PieceState::Done);
        }
        self.done_count() == self.piece_count
    }

    /// Returns the index of the first `Needed` piece, if any.
    pub fn next_needed(&self) -> (r: Option<u32>)
        requires
            self.wf(),
        ensures
            match r {
                Some(index) => {
                    &&& is_in(self@, index, PieceState::Needed)
                    &&& forall|i: int| 0 <= i < index ==> self@[i] != PieceState::Needed
                },
                None => forall|i: int| 0 <= i < self@.len() ==> self@[i] != PieceState::Needed,
            },
    {
        let mut i: u32 = 0;
        while i < self.piece_count
            invariant
                self.wf(),
                i <= self@.len(),
                forall|k: int| 0 <= k < i ==> self@[k] != PieceState::Needed,
            decreases self@.len() - i,
        {
            if self.states[i as usize] == PieceState::Needed {
                return Some(i);
            }
            i += 1;
        }
        None
    }
}

// ── Laws ────────────────────────────────────────────────────────────

/// Each state has a value of its own, none above 3.
pub proof fn law_codes_are_distinct(a: PieceState, b: PieceState)
    ensures
        a.code() == b.code() ==> a == b,
        a.code() <= 3,
{
}

/// A piece that was claimed cannot be claimed again, until it failed and was
/// reset.
pub proof fn law_claimed_once(states: Seq<PieceState>, index: u32)
    requires
        is_in(states, index, PieceState::Needed),
    ensures
        ({
            let claimed = moved(states, index, PieceState::Needed, PieceState::InFlight);
            let failed = put(claimed, index, PieceState::Failed);
            let reset = moved(failed, index, PieceState::Failed, PieceState::Needed);
            &&& !is_in(claimed, index, PieceState::Needed)
            &&& !is_in(failed, index, PieceState::Needed)
            &&& is_in(failed, index, PieceState::Failed)
            &&& is_in(reset, index, PieceState::Needed)
            &&& reset == states
        }),
{
    let claimed = moved(states, index, PieceState::Needed, PieceState::InFlight);
    let failed = put(claimed, index, PieceState::Failed);
    let reset = moved(failed, index, PieceState::Failed, PieceState::Needed);
    assert(reset == states);
}

/// The states after pieces were claimed in this order.
pub open spec fn after_claims(states: Seq<PieceState>, claims: Seq<u32>) -> Seq<PieceState>
    decreases claims.len(),
{
    if claims.len() == 0 {
        states
    } else {
        moved(
            after_claims(states, claims.drop_last()),
            claims.last(),
            PieceState::Needed,
            PieceState::InFlight,
        )
    }
}

/// How many of these claims on piece `index` succeed.
pub open spec fn claims_won(states: Seq<PieceState>, claims: Seq<u32>, index: u32) -> nat
    decreases claims.len(),
{
    if claims.len() == 0 {
        0
    } else {
        let earlier = claims.drop_last();
        claims_won(states, earlier, index) + if claims.last() == index && is_in(
            after_claims(states, earlier),
            index,
            PieceState::Needed,
        ) {
            1nat
        } else {
            0nat
        }
    }
}

/// Of any number of claims exactly one gets a needed piece, in whatever order
/// they take effect and whatever other pieces are claimed in between. Claims on
/// any other piece fail, and only claimed pieces change.
pub proof fn law_one_claim_wins(states: Seq<PieceState>, claims: Seq<u32>, index: u32)
    ensures
        claims_won(states, claims, index) == (if claims.contains(index) && is_in(
            states,
            index,
            PieceState::Needed,
        ) {
            1nat
        } else {
            0nat
        }),
        after_claims(states, claims).len() == states.len(),
        index < states.len() ==> after_claims(states, claims)[index as int] == (if claims.contains(
            index,
        ) && states[index as int] == PieceState::Needed {
            PieceState::InFlight
        } else {
            states[index as int]
        }),
    decreases claims.len(),
{
    if claims.len() > 0 {
        let earlier = claims.drop_last();
        law_one_claim_wins(states, earlier, index);
        assert(claims[claims.len() - 1] == claims.last());
        if earlier.contains(index) {
            let k = choose|k: int| 0 <= k < earlier.len() && earlier[k] == index;
            assert(claims[k] == index);
        }
        if claims.contains(index) && claims.last() != index {
            let k = choose|k: int| 0 <= k < claims.len() && claims[k] == index;
            assert(earlier[k] == index);
        }
    }
}

/// What happens to one piece leaves the others, and their number, as they are.
pub proof fn law_pieces_are_independent(
    states: Seq<PieceState>,
    index: u32,
    other: u32,
    from: PieceState,
    to: PieceState,
)
    requires
        index != other,
    ensures
        moved(states, index, from, to).len() == states.len(),
        put(states, index, to).len() == states.len(),
        forall|state: PieceState|
            #![trigger is_in(states, other, state)]
            {
                &&& is_in(moved(states, index, from, to), other, state) == is_in(
                    states,
                    other,
                    state,
                )
                &&& is_in(put(states, index, to), other, state) == is_in(states, other, state)
            },
{
}

/// A map is complete exactly if the number of `Done` pieces is that of all
/// pieces.
pub proof fn law_complete_means_all_done(states: Seq<PieceState>)
    ensures
        count_in(states, PieceState::Done) == states.len() <==> forall|i: int|
            0 <= i < states.len() ==> states[i] == PieceState::Done,
{
    lemma_count(states, PieceState::Done);
}

/// What the bytes mean: 0 needed, 1 in flight, 2 done, 3 failed.
pub proof fn law_codes()
    ensures
        PieceState::Needed.code() == 0,
        PieceState::InFlight.code() == 1,
        PieceState::Done.code() == 2,
        PieceState::Failed.code() == 3,
{
}

/// A piece that is moved out of one state into another was in the first and is
/// in the second; one that was elsewhere stays there. A piece that is put into a
/// state is in it.
pub proof fn law_moved_piece(
    states: Seq<PieceState>,
    index: u32,
    from: PieceState,
    to: PieceState,
    i: int,
)
    requires
        0 <= i < states.len(),
    ensures
        moved(states, index, from, to).len() == states.len(),
        moved(states, index, from, to)[i] == (if i == index && states[i] == from {
            to
        } else {
            states[i]
        }),
        put(states, index, to).len() == states.len(),
        put(states, index, to)[i] == (if i == index {
            to
        } else {
            states[i]
        }),
        is_in(states, index, from) ==> index < states.len(),
        i == index ==> (is_in(states, index, from) <==> states[i] == from),
{
}

/// Pieces are counted one by one, and a piece that comes into a state adds one.
pub proof fn law_counting(states: Seq<PieceState>, last: PieceState, state: PieceState, index: u32)
    ensures
        count_in(Seq::empty(), state) == 0,
        count_in(states.push(last), state) == count_in(states, state) + (if last == state {
            1int
        } else {
            0
        }),
        index < states.len() && states[index as int] != state ==> count_in(
            put(states, index, state),
            state,
        ) == count_in(states, state) + 1,
{
    assert(states.push(last).drop_last() == states);
    if index < states.len() && states[index as int] != state {
        lemma_count_put(states, index as int, state);
    }
}

/// A piece that comes into a state adds one to their number.
proof fn lemma_count_put(states: Seq<PieceState>, i: int, state: PieceState)
    requires
        0 <= i < states.len(),
        states[i] != state,
    ensures
        count_in(states.update(i, state), state) == count_in(states, state) + 1,
    decreases states.len(),
{
    let after = states.update(i, state);
    if i == states.len() - 1 {
        assert(after.drop_last() == states.drop_last());
    } else {
        lemma_count_put(states.drop_last(), i, state);
        assert(after.drop_last() == states.drop_last().update(i, state));
    }
}

} // verus!
