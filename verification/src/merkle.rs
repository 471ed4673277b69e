//! Sub-piece Merkle tree: finds corrupt regions of a piece without
//! downloading the whole piece again.
//!
//! A piece is cut into leaves of 256 KiB. The tree holds the SHA-256 hash of
//! each leaf and combines pairs of hashes level by level up to a root; an odd
//! node at the end of a level moves up as it is. A leaf can be checked on its
//! own, and an inclusion proof shows that a leaf belongs to a root without the
//! rest of the tree.

use vstd::prelude::*;

use crate::codec::arrays_equal;
use crate::codec::push_bytes;
use crate::digest::sha256;
use crate::digest::sha256_digest;

verus! {

/// Leaf size for the sub-piece Merkle tree: 256 KiB.
pub const LEAF_SIZE: usize = 262_144;

/// Minimum piece size (in bytes) for which sub-piece verification is
/// worthwhile.
pub const MIN_PIECE_SIZE_FOR_MERKLE: usize = 1_048_576;

// ── Model ───────────────────────────────────────────────────────────

/// Number of leaves of data of this length.
pub open spec fn leaf_total(len: int) -> int {
    (len + LEAF_SIZE - 1) / LEAF_SIZE as int
}

/// The bytes of one leaf. The last may be shorter than the others.
pub open spec fn leaf_of(data: Seq<u8>, i: int) -> Seq<u8> {
    let start = i * LEAF_SIZE;
    let end = if start + LEAF_SIZE < data.len() {
        start + LEAF_SIZE
    } else {
        data.len() as int
    };
    data.subrange(start, end)
}

/// The hashes of all leaves.
pub open spec fn leaf_hashes(data: Seq<u8>) -> Seq<Seq<u8>> {
    Seq::new(leaf_total(data.len() as int) as nat, |i: int| sha256_digest(leaf_of(data, i)))
}

/// The hash of a pair of nodes.
pub open spec fn combined(left: Seq<u8>, right: Seq<u8>) -> Seq<u8> {
    sha256_digest(left + right)
}

/// The level above a level.
pub open spec fn level_above(level: Seq<Seq<u8>>) -> Seq<Seq<u8>> {
    Seq::new(
        (level.len() + 1) / 2,
        |i: int|
            if 2 * i + 1 < level.len() {
                combined(level[2 * i], level[2 * i + 1])
            } else {
                level[2 * i]
            },
    )
}

/// All levels from this one up.
pub open spec fn levels_from(level: Seq<Seq<u8>>) -> Seq<Seq<Seq<u8>>>
    decreases level.len(),
{
    if level.len() <= 1 {
        seq![level]
    } else {
        seq![level] + levels_from(level_above(level))
    }
}

/// The root above a level. Nothing has the hash of nothing as its root.
pub open spec fn root_above(level: Seq<Seq<u8>>) -> Seq<u8>
    decreases level.len(),
{
    if level.len() == 0 {
        sha256_digest(Seq::empty())
    } else if level.len() == 1 {
        level[0]
    } else {
        root_above(level_above(level))
    }
}

/// One step of an inclusion proof.
#[verifier::ext_equal]
pub struct ProofStep {
    /// Hash of the sibling node.
    pub hash: Seq<u8>,
    /// Whether the sibling is the left one of the pair.
    pub is_left: bool,
}

/// The position of the other node of a pair.
pub open spec fn sibling(i: int) -> int {
    if i % 2 == 0 {
        i + 1
    } else {
        i - 1
    }
}

/// The siblings from node `i` of a level up to the root.
pub open spec fn path_from(level: Seq<Seq<u8>>, i: int) -> Seq<ProofStep>
    decreases level.len(),
{
    if level.len() <= 1 {
        Seq::empty()
    } else {
        let above = path_from(level_above(level), i / 2);
        if sibling(i) < level.len() {
            seq![ProofStep { hash: level[sibling(i)], is_left: sibling(i) < i }] + above
        } else {
            above
        }
    }
}

/// The pair of hashes that one step hashes.
pub open spec fn paired(hash: Seq<u8>, step: ProofStep) -> Seq<u8> {
    if step.is_left {
        step.hash + hash
    } else {
        hash + step.hash
    }
}

/// The hash after one step.
pub open spec fn stepped(hash: Seq<u8>, step: ProofStep) -> Seq<u8> {
    sha256_digest(paired(hash, step))
}

/// The hash that a proof leads to.
pub open spec fn climbed(hash: Seq<u8>, steps: Seq<ProofStep>) -> Seq<u8>
    decreases steps.len(),
{
    if steps.len() == 0 {
        hash
    } else {
        climbed(stepped(hash, steps[0]), steps.drop_first())
    }
}

/// The pairs that are hashed on the way from a hash up, in order.
pub open spec fn pairs_on_climb(hash: Seq<u8>, steps: Seq<ProofStep>) -> Seq<Seq<u8>>
    decreases steps.len(),
{
    if steps.len() == 0 {
        Seq::empty()
    } else {
        seq![paired(hash, steps[0])] + pairs_on_climb(
            stepped(hash, steps[0]),
            steps.drop_first(),
        )
    }
}

/// Everything that is hashed on the way from the bytes of a leaf up, in order.
pub open spec fn hashed_on_climb(leaf: Seq<u8>, steps: Seq<ProofStep>) -> Seq<Seq<u8>> {
    seq![leaf] + pairs_on_climb(sha256_digest(leaf), steps)
}

/// No two values at the same height of two climbs have the same hash without
/// being equal.
pub open spec fn no_collision(a: Seq<Seq<u8>>, b: Seq<Seq<u8>>) -> bool {
    forall|i: int|
        #![trigger a[i], b[i]]
        0 <= i < a.len() && i < b.len() && sha256_digest(a[i]) == sha256_digest(b[i]) ==> a[i]
            == b[i]
}

/// Two proofs for the same place: as many steps, siblings on the same sides,
/// hashes of the same length.
pub open spec fn same_place(a: Seq<ProofStep>, b: Seq<ProofStep>) -> bool {
    &&& a.len() == b.len()
    &&& forall|i: int|
        #![trigger a[i], b[i]]
        0 <= i < a.len() ==> a[i].is_left == b[i].is_left && a[i].hash.len() == b[i].hash.len()
}

/// Leaf `i` is in the data and does not have the hash that the tree has.
pub open spec fn is_corrupt(leaves: Seq<Seq<u8>>, data: Seq<u8>, i: int) -> bool {
    &&& 0 <= i < leaves.len()
    &&& i < leaf_total(data.len() as int)
    &&& sha256_digest(leaf_of(data, i)) != leaves[i]
}

// ── Laws ────────────────────────────────────────────────────────────

/// An inclusion proof leads from its node to the root.
pub proof fn law_proof_leads_to_root(level: Seq<Seq<u8>>, i: int)
    requires
        0 <= i < level.len(),
    ensures
        climbed(level[i], path_from(level, i)) == root_above(level),
    decreases level.len(),
{
    if level.len() > 1 {
        let up = level_above(level);
        let above = path_from(up, i / 2);
        law_proof_leads_to_root(up, i / 2);
        if sibling(i) < level.len() {
            let step = ProofStep { hash: level[sibling(i)], is_left: sibling(i) < i };
            let all = path_from(level, i);
            assert(all[0] == step);
            assert(all.drop_first() == above);
            assert(up[i / 2] == stepped(level[i], step));
        } else {
            assert(up[i / 2] == level[i]);
        }
    }
}

/// Climbs for the same place that end in the same hash begin with the same hash
/// and take the same steps.
proof fn lemma_climb_determines_start(
    x: Seq<u8>,
    a: Seq<ProofStep>,
    y: Seq<u8>,
    b: Seq<ProofStep>,
)
    requires
        same_place(a, b),
        no_collision(pairs_on_climb(x, a), pairs_on_climb(y, b)),
        climbed(x, a) == climbed(y, b),
    ensures
        x == y,
        a == b,
    decreases a.len(),
{
    if a.len() > 0 {
        let p = pairs_on_climb(x, a);
        let q = pairs_on_climb(y, b);
        let p_rest = pairs_on_climb(stepped(x, a[0]), a.drop_first());
        let q_rest = pairs_on_climb(stepped(y, b[0]), b.drop_first());
        assert forall|i: int|
            #![trigger p_rest[i], q_rest[i]]
            0 <= i < p_rest.len() && i < q_rest.len() && sha256_digest(p_rest[i])
                == sha256_digest(q_rest[i]) implies p_rest[i] == q_rest[i] by {
            assert(p[i + 1] == p_rest[i] && q[i + 1] == q_rest[i]);
        }
        assert forall|i: int|
            #![trigger a.drop_first()[i], b.drop_first()[i]]
            0 <= i < a.drop_first().len() implies a.drop_first()[i].is_left
            == b.drop_first()[i].is_left && a.drop_first()[i].hash.len()
            == b.drop_first()[i].hash.len() by {
            assert(a[i + 1] == a.drop_first()[i] && b[i + 1] == b.drop_first()[i]);
        }
        lemma_climb_determines_start(
            stepped(x, a[0]),
            a.drop_first(),
            stepped(y, b[0]),
            b.drop_first(),
        );
        let u = paired(x, a[0]);
        let v = paired(y, b[0]);
        assert(p[0] == u && q[0] == v);
        assert(u == v);
        assert(a[0].is_left == b[0].is_left && a[0].hash.len() == b[0].hash.len());
        let n = a[0].hash.len() as int;
        let m = x.len() as int;
        assert(u.len() == n + m && v.len() == n + y.len());
        if a[0].is_left {
            assert(u.take(n) == a[0].hash && v.take(n) == b[0].hash);
            assert(u.skip(n) == x && v.skip(n) == y);
        } else {
            assert(u.take(m) == x && v.take(m) == y);
            assert(u.skip(m) == a[0].hash && v.skip(m) == b[0].hash);
        }
        assert(a == seq![a[0]] + a.drop_first());
        assert(b == seq![b[0]] + b.drop_first());
    }
}

/// A root and a place determine the leaf and its proof: where no two values
/// hashed on the two climbs collide, climbs that end alike begin with the same
/// bytes.
pub proof fn law_root_determines_leaf(
    leaf: Seq<u8>,
    a: Seq<ProofStep>,
    other: Seq<u8>,
    b: Seq<ProofStep>,
)
    requires
        same_place(a, b),
        no_collision(hashed_on_climb(leaf, a), hashed_on_climb(other, b)),
        climbed(sha256_digest(leaf), a) == climbed(sha256_digest(other), b),
    ensures
        leaf == other,
        a == b,
{
    let p = hashed_on_climb(leaf, a);
    let q = hashed_on_climb(other, b);
    let p_rest = pairs_on_climb(sha256_digest(leaf), a);
    let q_rest = pairs_on_climb(sha256_digest(other), b);
    assert forall|i: int|
        #![trigger p_rest[i], q_rest[i]]
        0 <= i < p_rest.len() && i < q_rest.len() && sha256_digest(p_rest[i]) == sha256_digest(
            q_rest[i],
        ) implies p_rest[i] == q_rest[i] by {
        assert(p[i + 1] == p_rest[i] && q[i + 1] == q_rest[i]);
    }
    lemma_climb_determines_start(sha256_digest(leaf), a, sha256_digest(other), b);
    assert(p[0] == leaf && q[0] == other);
}

/// The inclusion proof of a leaf refuses other bytes, unless two values hashed
/// on the two climbs collide.
pub proof fn law_proof_refuses_other_bytes(data: Seq<u8>, i: int, other: Seq<u8>)
    requires
        0 <= i < leaf_total(data.len() as int),
        other != leaf_of(data, i),
        no_collision(
            hashed_on_climb(leaf_of(data, i), path_from(leaf_hashes(data), i)),
            hashed_on_climb(other, path_from(leaf_hashes(data), i)),
        ),
    ensures
        climbed(sha256_digest(other), path_from(leaf_hashes(data), i)) != root_above(
            leaf_hashes(data),
        ),
{
    let path = path_from(leaf_hashes(data), i);
    law_proof_leads_to_root(leaf_hashes(data), i);
    if climbed(sha256_digest(other), path) == root_above(leaf_hashes(data)) {
        law_root_determines_leaf(leaf_of(data, i), path, other, path);
    }
}

/// Intact data has no corrupt leaf.
pub proof fn law_intact_data_is_not_corrupt(data: Seq<u8>, i: int)
    ensures
        !is_corrupt(leaf_hashes(data), data, i),
{
}

/// The root of one leaf is its hash; that of two leaves is the hash of the
/// pair; an odd third leaf moves up and is paired with the first two.
pub proof fn law_small_roots(a: Seq<u8>, b: Seq<u8>, c: Seq<u8>)
    ensures
        root_above(seq![a]) == a,
        root_above(seq![a, b]) == combined(a, b),
        root_above(seq![a, b, c]) == combined(combined(a, b), c),
{
    let two = seq![a, b];
    assert(level_above(two)[0] == combined(a, b));
    let three = seq![a, b, c];
    let pair = level_above(three);
    assert(pair[0] == combined(a, b));
    assert(pair[1] == c);
    assert(level_above(pair)[0] == combined(pair[0], pair[1]));
    reveal_with_fuel(root_above, 3);
}

/// Leaves cover the data: laid end to end, their lengths add up to its length.
pub proof fn law_leaves_cover_data(data: Seq<u8>, i: int)
    requires
        0 <= i < data.len(),
    ensures
        0 <= i / (LEAF_SIZE as int),
        i / (LEAF_SIZE as int) < leaf_total(data.len() as int),
        leaf_of(data, i / LEAF_SIZE as int)[i % LEAF_SIZE as int] == data[i],
{
}

// ── Tree ────────────────────────────────────────────────────────────

/// A single node in a Merkle inclusion proof.
#[derive(Debug, Clone, PartialEq, Eq)]
pub struct ProofNode {
    /// SHA-256 hash of the sibling node.
    pub hash: [u8; 32],
    /// Whether this sibling is on the left side of the pair.
    pub is_left: bool,
}

impl View for ProofNode {
    type V = ProofStep;

    open spec fn view(&self) -> ProofStep {
        ProofStep { hash: self.hash@, is_left: self.is_left }
    }
}

/// The model of a list of proof nodes.
pub open spec fn steps_of(nodes: Seq<ProofNode>) -> Seq<ProofStep> {
    Seq::new(nodes.len(), |i: int| nodes[i]@)
}

/// The model of a list of hashes.
pub open spec fn hashes_of(hashes: Seq<[u8; 32]>) -> Seq<Seq<u8>> {
    Seq::new(hashes.len(), |i: int| hashes[i]@)
}

/// The model of a list of levels.
spec fn levels_of(levels: Seq<Vec<[u8; 32]>>) -> Seq<Seq<Seq<u8>>> {
    Seq::new(levels.len(), |i: int| hashes_of(levels[i]@))
}

/// Sub-piece Merkle tree for locating corruption.
#[derive(Debug, Clone)]
pub struct MerkleTree {
    levels: Vec<Vec<[u8; 32]>>,
    root: [u8; 32],
}

/// The view of a tree is the list of its leaf hashes.
impl View for MerkleTree {
    type V = Seq<Seq<u8>>;

    closed spec fn view(&self) -> Seq<Seq<u8>> {
        hashes_of(self.levels@[0]@)
    }
}

/// Combines two hashes into a parent hash.
fn combine_hashes(left: &[u8; 32], right: &[u8; 32]) -> (r: [u8; 32])
    ensures
        r@ == combined(left@, right@),
{
    let mut pair: Vec<u8> = Vec::with_capacity(64);
    push_bytes(&mut pair, left);
    push_bytes(&mut pair, right);
    assert(pair@ == left@ + right@);
    sha256(pair.as_slice())
}

/// Combines a level of hashes into the next level by pairing adjacent nodes.
/// An odd last node is promoted unpaired.
fn combine_level(level: &Vec<[u8; 32]>) -> (r: Vec<[u8; 32]>)
    ensures
        hashes_of(r@) == level_above(hashes_of(level@)),
{
    let n: usize = level.len();
    let mut parents: Vec<[u8; 32]> = Vec::new();
    let ghost up = level_above(hashes_of(level@));
    let mut i: usize = 0;
    while n - i > 1
        invariant
            n == level@.len(),
            up == level_above(hashes_of(level@)),
            i <= n,
            i % 2 == 0,
            parents@.len() == i / 2,
            forall|k: int| 0 <= k < parents@.len() ==> (#[trigger] parents@[k])@ == up[k],
        decreases n - i,
    {
        parents.push(combine_hashes(&level[i], &level[i + 1]));
        i += 2;
    }
    if i < n {
        parents.push(level[i]);
    }
    parents
}

/// The root is the only node of the last level.
proof fn lemma_last_level(level: Seq<Seq<u8>>)
    ensures
        levels_from(level).len() > 0,
        level.len() == 0 ==> levels_from(level).last().len() == 0,
        level.len() > 0 ==> levels_from(level).last().len() == 1 && levels_from(level).last()[0]
            == root_above(level),
    decreases level.len(),
{
    if level.len() > 1 {
        lemma_last_level(level_above(level));
    }
}

/// Above a level with more than one node stands the next level.
proof fn lemma_next_level(all: Seq<Seq<Seq<u8>>>, at: int)
    requires
        0 <= at < all.len(),
        all.skip(at) == levels_from(all[at]),
        all[at].len() > 1,
    ensures
        at + 1 < all.len(),
        all[at + 1] == level_above(all[at]),
        all.skip(at + 1) == levels_from(all[at + 1]),
{
    let up = level_above(all[at]);
    let rest = levels_from(all[at]);
    let above = levels_from(up);
    lemma_last_level(up);
    assert(rest == seq![all[at]] + above);
    assert(rest.len() == above.len() + 1);
    assert(all.skip(at).len() == all.len() - at);
    assert(rest[1] == above[0]);
    assert(above[0] == up);
    assert(all.skip(at)[1] == all[at + 1]);
    assert(all.skip(at + 1) == rest.drop_first());
    assert(rest.drop_first() == above);
}

impl MerkleTree {
    /// The levels are those above the leaves, and the root is theirs.
    pub closed spec fn wf(self) -> bool {
        &&& self.levels@.len() > 0
        &&& levels_of(self.levels@) == levels_from(self@)
        &&& self.root@ == root_above(self@)
    }

    /// Builds a Merkle tree from piece data.
    ///
    /// Cuts the data into leaves, hashes each, and builds the tree bottom-up.
    pub fn build(data: &[u8]) -> (r: MerkleTree)
        ensures
            r.wf(),
            r@ == leaf_hashes(data@),
    {
        let len: usize = data.len();
        let mut leaves: Vec<[u8; 32]> = Vec::new();
        let mut offset: usize = 0;
        while offset < len
            invariant
                len == data@.len(),
                offset <= len,
                offset < len ==> offset == leaves@.len() * LEAF_SIZE,
                offset == len ==> leaves@.len() == leaf_total(len as int),
                leaves@.len() <= leaf_total(len as int),
                forall|k: int|
                    0 <= k < leaves@.len() ==> (#[trigger] leaves@[k])@ == sha256_digest(
                        leaf_of(data@, k),
                    ),
            decreases len - offset,
        {
            let end: usize = if len - offset > LEAF_SIZE {
                offset + LEAF_SIZE
            } else {
                len
            };
            leaves.push(sha256(vstd::slice::slice_subrange(data, offset, end)));
            offset = end;
        }
        assert(hashes_of(leaves@) == leaf_hashes(data@));
        let ghost base = hashes_of(leaves@);
        let mut levels: Vec<Vec<[u8; 32]>> = Vec::new();
        let mut top: Vec<[u8; 32]> = leaves;
        assert(Seq::<Seq<Seq<u8>>>::empty() + levels_from(base) == levels_from(base));
        while top.len() > 1
            invariant
                levels_of(levels@) + levels_from(hashes_of(top@)) == levels_from(base),
                root_above(hashes_of(top@)) == root_above(base),
                levels@.len() > 0 ==> hashes_of(levels@[0]@) == base,
                levels@.len() == 0 ==> hashes_of(top@) == base,
            decreases top@.len(),
        {
            let next = combine_level(&top);
            proof {
                let below = levels_of(levels@);
                let here = hashes_of(top@);
                assert(levels_of(levels@.push(top)) == below.push(here));
                assert(below + (seq![here] + levels_from(level_above(here))) == below.push(here)
                    + levels_from(level_above(here)));
            }
            levels.push(top);
            top = next;
        }
        let root = if top.len() == 1 {
            top[0]
        } else {
            let nothing: [u8; 0] = [];
            assert(nothing@ == Seq::<u8>::empty());
            sha256(&nothing)
        };
        proof {
            let below = levels_of(levels@);
            let here = hashes_of(top@);
            assert(levels_of(levels@.push(top)) == below.push(here));
            assert(below + seq![here] == below.push(here));
        }
        levels.push(top);
        MerkleTree { levels, root }
    }

    /// Returns the root hash of the Merkle tree.
    ///
    /// For a single-leaf tree, the root is the leaf hash. For an empty tree,
    /// it is the SHA-256 of an empty slice.
    pub fn root_hash(&self) -> (r: &[u8; 32])
        requires
            self.wf(),
        ensures
            r@ == root_above(self@),
    {
        &self.root
    }

    /// Number of data leaves in the tree.
    pub fn leaf_count(&self) -> (r: usize)
        requires
            self.wf(),
        ensures
            r == self@.len(),
    {
        self.levels[0].len()
    }

    /// Number of levels in the tree (including leaves and root).
    pub fn depth(&self) -> (r: usize)
        requires
            self.wf(),
        ensures
            r == levels_from(self@).len(),
    {
        self.levels.len()
    }

    /// Returns the expected hash for a leaf at the given index.
    pub fn leaf_hash(&self, leaf_index: usize) -> (r: Option<&[u8; 32]>)
        requires
            self.wf(),
        ensures
            match r {
                Some(hash) => leaf_index < self@.len() && hash@ == self@[leaf_index as int],
                None => leaf_index >= self@.len(),
            },
    {
        if leaf_index < self.levels[0].len() {
            Some(&self.levels[0][leaf_index])
        } else {
            None
        }
    }

    /// Verifies a single leaf's data against its expected hash.
    ///
    /// Returns `false` if the hash differs or the leaf index is out of bounds.
    pub fn verify_leaf(&self, leaf_index: usize, leaf_data: &[u8]) -> (r: bool)
        requires
            self.wf(),
        ensures
            r == (leaf_index < self@.len() && sha256_digest(leaf_data@) == self@[leaf_index as int]),
    {
        match self.leaf_hash(leaf_index) {
            Some(expected) => arrays_equal(&sha256(leaf_data), expected),
            None => false,
        }
    }

    /// Finds all corrupt leaf indices by comparing actual data against the
    /// stored tree.
    pub fn find_corrupt_leaves(&self, data: &[u8]) -> (r: Vec<usize>)
        requires
            self.wf(),
        ensures
            forall|a: int, b: int| 0 <= a < b < r@.len() ==> #[trigger] r@[a] < #[trigger] r@[b],
            forall|i: usize| #[trigger] r@.contains(i) <==> is_corrupt(self@, data@, i as int),
    {
        let len: usize = data.len();
        let leaf_count: usize = self.leaf_count();
        let mut corrupt: Vec<usize> = Vec::new();
        let mut offset: usize = 0;
        let mut index: usize = 0;
        while offset < len && index < leaf_count
            invariant
                self.wf(),
                len == data@.len(),
                leaf_count == self@.len(),
                offset <= len,
                index <= leaf_count,
                offset < len ==> offset == index * LEAF_SIZE,
                offset == len ==> index == leaf_total(len as int),
                index <= leaf_total(len as int),
                forall|a: int, b: int|
                    0 <= a < b < corrupt@.len() ==> #[trigger] corrupt@[a] < #[trigger] corrupt@[b],
                forall|a: int| 0 <= a < corrupt@.len() ==> #[trigger] corrupt@[a] < index,
                forall|i: usize| #[trigger]
                    corrupt@.contains(i) <==> i < index && is_corrupt(self@, data@, i as int),
            decreases len - offset,
        {
            let end: usize = if len - offset > LEAF_SIZE {
                offset + LEAF_SIZE
            } else {
                len
            };
            let chunk = vstd::slice::slice_subrange(data, offset, end);
            assert(chunk@ == leaf_of(data@, index as int));
            let ghost before = corrupt@;
            if !self.verify_leaf(index, chunk) {
                corrupt.push(index);
                proof {
                    assert(is_corrupt(self@, data@, index as int));
                    assert forall|i: usize| #[trigger]
                        corrupt@.contains(i) <==> before.contains(i) || i == index by {
                        if before.contains(i) {
                            let a = choose|a: int| 0 <= a < before.len() && before[a] == i;
                            assert(corrupt@[a] == i);
                        }
                        assert(corrupt@[before.len() as int] == index);
                    }
                }
            }
            offset = end;
            index = index + 1;
        }
        corrupt
    }

    /// Generates a Merkle inclusion proof for a leaf: the sibling hashes from
    /// leaf to root.
    ///
    /// Returns `None` if the leaf index is out of bounds.
    pub fn inclusion_proof(&self, leaf_index: usize) -> (r: Option<Vec<ProofNode>>)
        requires
            self.wf(),
        ensures
            match r {
                Some(nodes) => {
                    &&& leaf_index < self@.len()
                    &&& steps_of(nodes@) == path_from(self@, leaf_index as int)
                },
                None => leaf_index >= self@.len(),
            },
    {
        if leaf_index >= self.leaf_count() {
            return None;
        }
        let mut nodes: Vec<ProofNode> = Vec::new();
        let mut index: usize = leaf_index;
        let mut at: usize = 0;
        let height: usize = self.levels.len();
        let ghost all = levels_from(self@);
        let ghost goal = path_from(self@, leaf_index as int);
        proof {
            assert(all.skip(0) == all);
            assert(all[0] == self@);
        }
        while self.levels[at].len() > 1
            invariant
                at < height,
                height == self.levels@.len(),
                all == levels_of(self.levels@),
                all.skip(at as int) == levels_from(all[at as int]),
                index < all[at as int].len(),
                steps_of(nodes@) + path_from(all[at as int], index as int) == goal,
            decreases height - at,
        {
            let ghost level = all[at as int];
            let ghost up = level_above(level);
            let other: usize = if index % 2 == 0 {
                index + 1
            } else {
                index - 1
            };
            proof {
                assert(level.len() > 1);
                lemma_next_level(all, at as int);
                assert(all.len() == height);
            }
            let ghost before = steps_of(nodes@);
            if other < self.levels[at].len() {
                let node = ProofNode { hash: self.levels[at][other], is_left: other < index };
                proof {
                    assert(steps_of(nodes@.push(node)) == before.push(node@));
                    let above = path_from(up, index as int / 2);
                    assert(before + (seq![node@] + above) == before.push(node@) + above);
                }
                nodes.push(node);
            }
            index = index / 2;
            at = at + 1;
        }
        assert(steps_of(nodes@) + Seq::<ProofStep>::empty() == steps_of(nodes@));
        Some(nodes)
    }

    /// Verifies a Merkle proof against the root hash.
    ///
    /// Recomputes the root from `leaf_data` and the proof nodes, then compares
    /// against the stored root.
    pub fn verify_proof(&self, leaf_data: &[u8], nodes: &[ProofNode]) -> (r: bool)
        requires
            self.wf(),
        ensures
            r == (climbed(sha256_digest(leaf_data@), steps_of(nodes@)) == root_above(self@)),
    {
        let mut current = sha256(leaf_data);
        let mut i: usize = 0;
        let ghost steps = steps_of(nodes@);
        let ghost goal = climbed(current@, steps);
        assert(steps.skip(0) == steps);
        while i < nodes.len()
            invariant
                i <= nodes@.len(),
                steps == steps_of(nodes@),
                climbed(current@, steps.skip(i as int)) == goal,
            decreases nodes@.len() - i,
        {
            let node = &nodes[i];
            assert(steps.skip(i as int)[0] == node@);
            assert(steps.skip(i as int).drop_first() == steps.skip(i + 1));
            current = if node.is_left {
                combine_hashes(&node.hash, &current)
            } else {
                combine_hashes(&current, &node.hash)
            };
            i += 1;
        }
        arrays_equal(&current, &self.root)
    }
}

// ── Laws of shape ───────────────────────────────────────────────────

/// Leaves are stretches of 256 KiB, as many as it takes; the last is as long as
/// what is left.
pub proof fn law_leaf_extent(data: Seq<u8>, i: int, k: int)
    requires
        data.len() > 0,
        0 <= i,
        0 <= k,
        i * 262_144 + k < data.len(),
    ensures
        (leaf_total(data.len() as int) - 1) * 262_144 < data.len() <= leaf_total(
            data.len() as int,
        ) * 262_144,
        k < 262_144 ==> k < leaf_of(data, i).len() && leaf_of(data, i)[k] == data[i * 262_144 + k],
        leaf_of(data, i).len() <= 262_144,
        leaf_of(data, i).len() == 262_144 || i * 262_144 + leaf_of(data, i).len() == data.len(),
        leaf_hashes(data).len() == leaf_total(data.len() as int),
        leaf_hashes(data)[i] == sha256_digest(leaf_of(data, i)),
        leaf_total(0) == 0,
{
}

/// How a level gives the one above: pairs are hashed, left before right, and a
/// node without a partner moves up as it is. The root stands at the top.
pub proof fn law_levels(level: Seq<Seq<u8>>, i: int)
    requires
        level.len() > 1,
    ensures
        2 * level_above(level).len() == level.len() || 2 * level_above(level).len() == level.len()
            + 1,
        0 <= i && 2 * i + 1 < level.len() ==> level_above(level)[i] == sha256_digest(
            level[2 * i] + level[2 * i + 1],
        ),
        0 <= i && 2 * i + 1 == level.len() ==> level_above(level)[i] == level[2 * i],
        root_above(level) == root_above(level_above(level)),
        root_above(seq![level[0]]) == level[0],
        root_above(Seq::empty()) == sha256_digest(Seq::empty()),
        levels_from(level)[0] == level,
        levels_from(level).len() == 1 + levels_from(level_above(level)).len(),
        levels_from(level).skip(1) == levels_from(level_above(level)),
        levels_from(seq![level[0]]) == seq![seq![level[0]]],
{
    reveal_with_fuel(root_above, 2);
    reveal_with_fuel(levels_from, 2);
    assert(levels_from(level).skip(1) == levels_from(level_above(level)));
}

/// How a proof is laid out and followed: a node at an even place has its sibling
/// to the right, one at an odd place to the left, a node without a sibling adds
/// no step; each step hashes the pair with the left node first.
pub proof fn law_proof_steps(level: Seq<Seq<u8>>, i: int, hash: Seq<u8>, step: ProofStep, rest: Seq<ProofStep>)
    requires
        0 <= i < level.len(),
    ensures
        level.len() == 1 ==> path_from(level, i).len() == 0,
        level.len() > 1 && i % 2 == 0 && i + 1 < level.len() ==> path_from(level, i) == seq![
            (ProofStep { hash: level[i + 1], is_left: false }),
        ] + path_from(level_above(level), i / 2),
        level.len() > 1 && i % 2 == 1 ==> path_from(level, i) == seq![
            (ProofStep { hash: level[i - 1], is_left: true }),
        ] + path_from(level_above(level), i / 2),
        level.len() > 1 && i % 2 == 0 && i + 1 == level.len() ==> path_from(level, i) == path_from(
            level_above(level),
            i / 2,
        ),
        climbed(hash, Seq::empty()) == hash,
        step.is_left ==> climbed(hash, seq![step] + rest) == climbed(
            sha256_digest(step.hash + hash),
            rest,
        ),
        !step.is_left ==> climbed(hash, seq![step] + rest) == climbed(
            sha256_digest(hash + step.hash),
            rest,
        ),
{
    assert((seq![step] + rest).drop_first() == rest);
}

/// A leaf is corrupt if both the tree and the data have it and the hashes differ.
pub proof fn law_corrupt_leaf(leaves: Seq<Seq<u8>>, data: Seq<u8>, i: int)
    requires
        0 <= i < leaves.len(),
    ensures
        is_corrupt(leaves, data, i) <==> i * 262_144 < data.len() && sha256_digest(
            leaf_of(data, i),
        ) != leaves[i],
{
}

} // verus!
