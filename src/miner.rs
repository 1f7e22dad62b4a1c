use crate::block::{
    append_bytes, attempt_limit, block_hash, is_genesis_block, meets_difficulty, search_run, Block,
    DanceMove,
};
use crate::simpletree::{
    derefs, first_match_index, init, lemma_first_match, lemma_first_match_index_in,
    lemma_has_match_of_value, lemma_height_le_size, replaced_first, values_in, Parenting, TreeNode,
};
use rand::rngs::StdRng;
use rand::Rng;
use vstd::multiset::Multiset;
use vstd::prelude::*;

verus! {

broadcast use vstd::seq_lib::group_to_multiset_ensures;

/// A fork tree of blocks rooted at a genesis block.
pub struct Blockchain {
    /// The tree of blocks; it has no parent pointers.
    pub blocks: TreeNode<Block>,
}

/// The blocks of `t` below its root, with multiplicity.
pub open spec fn placed(t: TreeNode<Block>) -> Multiset<Block> {
    values_in(t.children@)
}

/// Whether a block below the root of `t` carries nonce `n`.
pub open spec fn nonce_taken(t: TreeNode<Block>, n: u64) -> bool {
    exists|b: Block| #[trigger] placed(t).count(b) > 0 && b.nonce == n
}

/// What holds of a tree `t` and a list `rest` built from `genesis` and the
/// candidate `blocks`:
/// - the root is `genesis`;
/// - every block hangs directly under a node that its parent hash names;
/// - every candidate ends up exactly once, in the tree or in `rest`;
/// - no two blocks below the root share a nonce;
/// - every block below the root has a parent in the tree;
/// - every block of `rest` either repeats a nonce of the tree, or finds no
///   parent in it;
/// - in `rest`, the blocks that find no parent come first, then those that
///   repeat a nonce.
pub open spec fn built_from(
    genesis: Block,
    blocks: Seq<Block>,
    t: TreeNode<Block>,
    rest: Seq<Block>,
) -> bool {
    &&& t.value == genesis
    &&& linked(t)
    &&& placed(t).add(rest.to_multiset()) =~= blocks.to_multiset()
    &&& forall|a: Block, b: Block|
        #![trigger placed(t).count(a), placed(t).count(b)]
        placed(t).count(a) > 0 && placed(t).count(b) > 0 && a.nonce == b.nonce ==> a == b
            && placed(t).count(a) == 1
    &&& forall|b: Block|
        #[trigger] placed(t).count(b) > 0 ==> exists|p: Block|
            #[trigger] t.values().count(p) > 0 && p.parent_of(b.parent_hash@)
    &&& forall|i: int|
        0 <= i < rest.len() ==> nonce_taken(t, #[trigger] rest[i].nonce) || !t.has_match(
            rest[i].parent_hash@,
        )
    &&& forall|i: int, j: int|
        0 <= i < j < rest.len() && nonce_taken(t, #[trigger] rest[i].nonce) ==> nonce_taken(
            t,
            #[trigger] rest[j].nonce,
        )
}

/// Whether every block of `t` hangs directly under the node that its parent
/// hash names.
pub open spec fn linked(t: TreeNode<Block>) -> bool
    decreases t,
{
    forall|i: int|
        0 <= i < t.children@.len() ==> t.value.parent_of(
            (#[trigger] t.children@[i]).value.parent_hash@,
        ) && linked(t.children@[i])
}

/// The first match in a linked tree is itself linked.
proof fn lemma_linked_first_match(t: TreeNode<Block>, id: Seq<u8>)
    requires
        linked(t),
        t.has_match(id),
    ensures
        linked(t.first_match(id)),
    decreases t,
{
    if !t.value.parent_of(id) {
        lemma_first_match_index_in(t.children@, id);
        let k = first_match_index(t.children@, id);
        assert(linked(t.children@[k]));
        lemma_linked_first_match(t.children@[k], id);
    }
}

/// Replacing the first match of a linked tree by a linked tree with the same
/// root value keeps the tree linked and its root value.
proof fn lemma_replaced_linked(
    old: TreeNode<Block>,
    id: Seq<u8>,
    sub: TreeNode<Block>,
    new: TreeNode<Block>,
)
    requires
        linked(old),
        old.has_match(id),
        replaced_first(old, id, sub, new),
        linked(sub),
        sub.value == old.first_match(id).value,
    ensures
        linked(new),
        new.value == old.value,
    decreases old,
{
    if !old.value.parent_of(id) {
        lemma_first_match_index_in(old.children@, id);
        let k = first_match_index(old.children@, id);
        assert(linked(old.children@[k]));
        lemma_replaced_linked(old.children@[k], id, sub, new.children@[k]);
        assert forall|j: int| 0 <= j < new.children@.len() implies new.value.parent_of(
            (#[trigger] new.children@[j]).value.parent_hash@,
        ) && linked(new.children@[j]) by {
            if j != k {
                assert(new.children@[j] == old.children@[j]);
                assert(linked(old.children@[j]));
            }
        }
    }
}

/// Whether a block with parent hash `id` can hang under `genesis` or one of
/// the blocks `acc`.
pub open spec fn attachable(genesis: Block, acc: Seq<Block>, id: Seq<u8>) -> bool {
    genesis.parent_of(id) || exists|k: int| 0 <= k < acc.len() && (#[trigger] acc[k]).parent_of(id)
}

/// Whether one of the blocks `acc` carries nonce `n`.
pub open spec fn nonce_used(acc: Seq<Block>, n: u64) -> bool {
    exists|k: int| 0 <= k < acc.len() && (#[trigger] acc[k]).nonce == n
}

/// One sweep over `rem`, in order, with `acc` accepted before it: a block whose
/// nonce was accepted is rejected, one with a parent among `genesis` and the
/// accepted blocks is accepted, any other is kept for the next sweep. Gives
/// the accepted blocks, in order of acceptance, the kept ones and the
/// rejected ones, each in input order.
pub open spec fn sweep(genesis: Block, acc: Seq<Block>, rem: Seq<Block>) -> (
    Seq<Block>,
    Seq<Block>,
    Seq<Block>,
)
    decreases rem.len(),
{
    if rem.len() == 0 {
        (acc, Seq::empty(), Seq::empty())
    } else {
        let (a, kept, rejected) = sweep(genesis, acc, init(rem));
        let b = rem.last();
        if nonce_used(a, b.nonce) {
            (a, kept, rejected.push(b))
        } else if attachable(genesis, a, b.parent_hash@) {
            (a.push(b), kept, rejected)
        } else {
            (a, kept.push(b), rejected)
        }
    }
}

/// Sweeps `rem` until a sweep accepts nothing, starting from the accepted
/// blocks `acc` and the rejected ones `rejected`. Gives the accepted blocks in
/// order of acceptance, the orphans left over in input order, and all rejected
/// blocks in order of rejection.
pub open spec fn settle(genesis: Block, acc: Seq<Block>, rem: Seq<Block>, rejected: Seq<Block>) -> (
    Seq<Block>,
    Seq<Block>,
    Seq<Block>,
)
    decreases rem.len(),
{
    let (a, kept, rej) = sweep(genesis, acc, rem);
    if a.len() == acc.len() {
        (a, kept, rejected + rej)
    } else if kept.len() < rem.len() {
        settle(genesis, a, kept, rejected + rej)
    } else {
        arbitrary()
    }
}

/// In a tree rooted at `genesis` that holds `acc` below its root, a parent is
/// found for `id` exactly when one is among `genesis` and `acc`.
proof fn lemma_match_iff_attachable(t: TreeNode<Block>, genesis: Block, acc: Seq<Block>, id: Seq<u8>)
    requires
        t.value == genesis,
        placed(t) =~= acc.to_multiset(),
    ensures
        t.has_match(id) == attachable(genesis, acc, id),
{
    assert(t.values() =~= Multiset::singleton(genesis).add(placed(t)));
    if t.has_match(id) {
        lemma_first_match(t, id);
        let v = t.first_match(id).value;
        if v != genesis {
            assert(acc.to_multiset().count(v) > 0);
            assert(acc.contains(v));
        }
    }
    if attachable(genesis, acc, id) {
        if genesis.parent_of(id) {
            lemma_has_match_of_value(t, genesis, id);
        } else {
            let k = choose|k: int| 0 <= k < acc.len() && (#[trigger] acc[k]).parent_of(id);
            assert(acc.to_multiset().count(acc[k]) > 0);
            lemma_has_match_of_value(t, acc[k], id);
        }
    }
}

/// Whether `n` is one of `seen`.
fn contains_nonce(seen: &Vec<u64>, n: u64) -> (r: bool)
    ensures
        r == seen@.contains(n),
{
    let mut i: usize = 0;
    while i < seen.len()
        invariant
            0 <= i <= seen@.len(),
            forall|j: int| 0 <= j < i ==> seen@[j] != n,
        decreases seen@.len() - i,
    {
        if seen[i] == n {
            return true;
        }
        i += 1;
    }
    false
}

/// A candidate whose parent hash names neither the genesis block nor any
/// candidate never enters the tree, and is returned among the unplaced.
pub proof fn lemma_orphan_unplaced(
    genesis: Block,
    blocks: Seq<Block>,
    t: TreeNode<Block>,
    rest: Seq<Block>,
    i: int,
)
    requires
        built_from(genesis, blocks, t, rest),
        0 <= i < blocks.len(),
        !genesis.parent_of(blocks[i].parent_hash@),
        forall|j: int| 0 <= j < blocks.len() ==> !blocks[j].parent_of(blocks[i].parent_hash@),
    ensures
        placed(t).count(blocks[i]) == 0,
        rest.contains(blocks[i]),
{
    let b = blocks[i];
    assert(t.values() == Multiset::singleton(genesis).add(placed(t)));
    if placed(t).count(b) > 0 {
        let p = choose|p: Block| #[trigger] t.values().count(p) > 0 && p.parent_of(b.parent_hash@);
        assert(p != genesis);
        assert(placed(t).count(p) > 0);
        assert(blocks.to_multiset().count(p) > 0);
        assert(blocks.contains(p));
        let j = choose|j: int| 0 <= j < blocks.len() && blocks[j] == p;
        assert(!blocks[j].parent_of(b.parent_hash@));
    }
    assert(blocks.to_multiset().count(b) > 0);
    assert(rest.to_multiset().count(b) > 0);
}

/// Whether `blocks` is a valid set over `genesis`: nonces are distinct, and
/// each block's parent is `genesis` (`par[i] == -1`) or the block `par[i]`,
/// which lies less deep (`depth`) than the child.
pub open spec fn valid_set(genesis: Block, blocks: Seq<Block>, par: Seq<int>, depth: Seq<nat>) -> bool {
    &&& forall|i: int, j: int|
        0 <= i < j < blocks.len() ==> (#[trigger] blocks[i]).nonce != (#[trigger] blocks[j]).nonce
    &&& par.len() == blocks.len()
    &&& depth.len() == blocks.len()
    &&& forall|i: int|
        0 <= i < blocks.len() ==> ((#[trigger] par[i] == -1 && genesis.parent_of(
            blocks[i].parent_hash@,
        )) || (0 <= par[i] < blocks.len() && blocks[par[i]].parent_of(blocks[i].parent_hash@)
            && depth[par[i]] < depth[i]))
}

/// A block of a valid set lands in the tree.
proof fn lemma_valid_block_placed(
    genesis: Block,
    blocks: Seq<Block>,
    t: TreeNode<Block>,
    rest: Seq<Block>,
    par: Seq<int>,
    depth: Seq<nat>,
    i: int,
)
    requires
        built_from(genesis, blocks, t, rest),
        valid_set(genesis, blocks, par, depth),
        0 <= i < blocks.len(),
    ensures
        placed(t).count(blocks[i]) > 0,
    decreases depth[i],
{
    let b = blocks[i];
    assert(blocks.to_multiset().count(b) > 0);
    if placed(t).count(b) == 0 {
        assert(rest.to_multiset().count(b) > 0);
        assert(rest.contains(b));
        let k = choose|k: int| 0 <= k < rest.len() && rest[k] == b;
        assert(nonce_taken(t, rest[k].nonce) || !t.has_match(rest[k].parent_hash@));
        if nonce_taken(t, b.nonce) {
            let c = choose|c: Block| #[trigger] placed(t).count(c) > 0 && c.nonce == b.nonce;
            assert(blocks.to_multiset().count(c) > 0);
            assert(blocks.contains(c));
            let m = choose|m: int| 0 <= m < blocks.len() && blocks[m] == c;
            if m < i {
                assert(blocks[m].nonce != blocks[i].nonce);
            } else if i < m {
                assert(blocks[i].nonce != blocks[m].nonce);
            }
        } else {
            assert(t.values() =~= Multiset::singleton(genesis).add(placed(t)));
            if par[i] == -1 {
                lemma_has_match_of_value(t, genesis, b.parent_hash@);
            } else {
                let q = blocks[par[i]];
                lemma_valid_block_placed(genesis, blocks, t, rest, par, depth, par[i]);
                lemma_has_match_of_value(t, q, b.parent_hash@);
            }
        }
    }
}

/// Building from a valid set places every block, whatever the order of the
/// input: the tree then holds exactly the given blocks and nothing is left
/// over.
pub proof fn lemma_valid_set_fully_placed(
    genesis: Block,
    blocks: Seq<Block>,
    t: TreeNode<Block>,
    rest: Seq<Block>,
    par: Seq<int>,
    depth: Seq<nat>,
)
    requires
        built_from(genesis, blocks, t, rest),
        valid_set(genesis, blocks, par, depth),
    ensures
        rest.len() == 0,
        placed(t) =~= blocks.to_multiset(),
{
    if rest.len() > 0 {
        let b = rest[0];
        assert(rest.to_multiset().count(b) > 0);
        assert(blocks.to_multiset().count(b) > 0);
        assert(blocks.contains(b));
        let i = choose|i: int| 0 <= i < blocks.len() && blocks[i] == b;
        lemma_valid_block_placed(genesis, blocks, t, rest, par, depth, i);
        assert forall|j: int, k: int| 0 <= j < blocks.len() && 0 <= k < blocks.len() && j != k
            implies blocks[j] != blocks[k] by {
            if j < k {
                assert(blocks[j].nonce != blocks[k].nonce);
            } else {
                assert(blocks[k].nonce != blocks[j].nonce);
            }
        }
        assert(blocks.no_duplicates());
        blocks.lemma_multiset_has_no_duplicates();
        assert(blocks.to_multiset().count(b) == 1);
    }
    assert(rest.to_multiset().len() == 0);
    assert(rest.to_multiset() =~= Multiset::empty());
}

/// Of two candidates with the same nonce, at most one enters the tree, and
/// the other is returned among the unplaced.
pub proof fn lemma_duplicate_nonce(
    genesis: Block,
    blocks: Seq<Block>,
    t: TreeNode<Block>,
    rest: Seq<Block>,
    i: int,
    j: int,
)
    requires
        built_from(genesis, blocks, t, rest),
        0 <= i < blocks.len(),
        0 <= j < blocks.len(),
        i != j,
        blocks[i].nonce == blocks[j].nonce,
    ensures
        placed(t).count(blocks[i]) + placed(t).count(blocks[j]) <= 1 || blocks[i] == blocks[j],
        placed(t).count(blocks[i]) <= 1,
        rest.contains(blocks[i]) || rest.contains(blocks[j]),
{
    let x = blocks[i];
    let y = blocks[j];
    assert(blocks.to_multiset().count(x) > 0);
    assert(blocks.to_multiset().count(y) > 0);
    if placed(t).count(x) > 0 && placed(t).count(y) > 0 {
        assert(x == y && placed(t).count(x) == 1);
    }
    if x == y {
        let s = blocks.remove(i);
        let k = if j < i { j } else { j - 1 };
        assert(s[k] == y);
        assert(s.to_multiset().count(x) > 0);
        assert(s.to_multiset() =~= blocks.to_multiset().remove(x));
        assert(blocks.to_multiset().count(x) >= 2);
        if placed(t).count(x) > 0 {
            assert(placed(t).count(x) == 1);
        }
        assert(rest.to_multiset().count(x) > 0);
    } else if placed(t).count(x) > 0 {
        assert(rest.to_multiset().count(y) > 0);
    } else {
        assert(rest.to_multiset().count(x) > 0);
    }
}

/// Whether `i` indexes the leaf to extend among `leaves`: the first one with
/// the smallest nonce.
pub open spec fn is_tip_index(leaves: Seq<TreeNode<Block>>, i: int) -> bool {
    &&& 0 <= i < leaves.len()
    &&& forall|j: int| 0 <= j < leaves.len() ==> leaves[i].value.nonce <= (#[trigger] leaves[j]).value.nonce
    &&& forall|j: int| 0 <= j < i ==> leaves[i].value.nonce < (#[trigger] leaves[j]).value.nonce
}

/// The move drawn as `i` out of the four: 0, 1 and 2 give `Y`, `M` and `C`,
/// anything else `A`.
pub fn dancemove_from_index(i: u32) -> (r: DanceMove)
    ensures
        r == (if i == 0 {
            DanceMove::Y
        } else if i == 1 {
            DanceMove::M
        } else if i == 2 {
            DanceMove::C
        } else {
            DanceMove::A
        }),
{
    match i {
        0 => DanceMove::Y,
        1 => DanceMove::M,
        2 => DanceMove::C,
        _ => DanceMove::A,
    }
}

/// The position of the first genesis block of `received`, if any.
pub fn find_genesis(received: &Vec<Block>, difficulty: u32) -> (r: Option<usize>)
    ensures
        match r {
            Some(i) => i < received@.len() && is_genesis_block(received@[i as int]) && forall|j: int|
                0 <= j < i ==> !is_genesis_block(#[trigger] received@[j]),
            None => forall|j: int| 0 <= j < received@.len() ==> !is_genesis_block(#[trigger] received@[j]),
        },
{
    let mut i: usize = 0;
    while i < received.len()
        invariant
            0 <= i <= received@.len(),
            forall|j: int| 0 <= j < i ==> !is_genesis_block(#[trigger] received@[j]),
        decreases received@.len() - i,
    {
        if received[i].is_genesis(difficulty) {
            return Some(i);
        }
        i += 1;
    }
    None
}

/// A fresh, unsolved genesis block carrying `dancemove`.
pub fn new_genesis(dancemove: DanceMove) -> (r: Block)
    ensures
        is_genesis_block(r),
        r.nonce == 0,
        r.dancemove == dancemove,
{
    let b = Block::new(Vec::new(), "Genesis".to_owned(), 0, dancemove);
    proof {
        reveal_strlit("Genesis");
    }
    b
}

/// A fresh, unsolved block mined by `miner` on top of `tip`.
pub fn block_on(tip: &Block, miner: String, dancemove: DanceMove) -> (r: Block)
    ensures
        r.parent_hash@ == block_hash(*tip),
        r.miner == miner,
        r.nonce == 0,
        r.dancemove == dancemove,
{
    let h = tip.hash_block();
    let mut parent_hash: Vec<u8> = Vec::new();
    let mut i: usize = 0;
    while i < 32
        invariant
            0 <= i <= 32,
            parent_hash@ == h@.subrange(0, i as int),
        decreases 32 - i,
    {
        parent_hash.push(h[i]);
        i += 1;
        assert(parent_hash@ =~= h@.subrange(0, i as int));
    }
    assert(h@.subrange(0, 32) =~= h@);
    Block::new(parent_hash, miner, 0, dancemove)
}

/// Whether two blocks hold the same fields.
pub open spec fn same_block(a: Block, b: Block) -> bool {
    a.parent_hash@ == b.parent_hash@ && a.miner@ == b.miner@ && a.nonce == b.nonce && a.dancemove
        == b.dancemove
}

/// Relies on `rand::Rng::random_range` over `0..4`: a value in that range.
#[verifier::external_body]
fn draw_move_index(rng: &mut StdRng) -> (r: u32)
    ensures
        r < 4,
{
    rng.random_range(0..4)
}

/// A copy of `b`.
fn copy_block(b: &Block) -> (r: Block)
    ensures
        same_block(r, *b),
{
    let mut parent_hash: Vec<u8> = Vec::new();
    append_bytes(&mut parent_hash, b.parent_hash.as_slice());
    Block::new(parent_hash, b.miner.clone(), b.nonce, b.dancemove)
}

/// One cycle of mining over a snapshot `received` of the known blocks: take
/// the first genesis block of the snapshot, or make and solve a new one when
/// there is none; build the fork tree from the snapshot; pick the tip; mine a
/// block on it for `miner_name`. Returns the new genesis block to announce, if
/// one was made, the tree, the mined block if it was solved within `max_iter`
/// attempts, and the blocks of the snapshot that the tree could not place.
pub fn mine_cycle(
    received: Vec<Block>,
    rng: &mut StdRng,
    difficulty: u32,
    miner_name: String,
    max_iter: Option<u64>,
) -> (r: (Option<Block>, Blockchain, Option<Block>, Vec<Block>))
    requires
        received@.len() < usize::MAX,
    ensures
        match r.0 {
            None => exists|i: int|
                0 <= i < received@.len() && is_genesis_block(#[trigger] received@[i]) && (forall|j: int|
                    0 <= j < i ==> !is_genesis_block(#[trigger] received@[j])) && same_block(
                    r.1.blocks.value,
                    received@[i],
                ),
            Some(g) => (forall|j: int|
                0 <= j < received@.len() ==> !is_genesis_block(#[trigger] received@[j]))
                && is_genesis_block(g) && same_block(g, r.1.blocks.value) && exists|
                g0: Block,
                tried: Seq<u64>,
                found: bool,
            |
                is_genesis_block(g0) && g0.nonce == 0 && #[trigger] search_run(
                    g0,
                    difficulty,
                    attempt_limit(max_iter),
                    tried,
                    found,
                    r.1.blocks.value,
                ),
        },
        built_from(r.1.blocks.value, received@, r.1.blocks, r.3@),
        match r.2 {
            Some(b) => {
                &&& exists|i: int|
                    is_tip_index(r.1.blocks.leaves_at(r.1.blocks.height()), i)
                        && b.parent_hash@ == block_hash(
                        (#[trigger] r.1.blocks.leaves_at(r.1.blocks.height())[i]).value,
                    )
                &&& b.miner == miner_name
                &&& meets_difficulty(block_hash(b), difficulty)
            },
            None => difficulty != 0 || max_iter == Some(0u64),
        },
{
    let ghost mut g0: Block = arbitrary();
    let ghost mut tried: Seq<u64> = Seq::empty();
    let ghost mut found: bool = false;
    let (genesis, announced) = match find_genesis(&received, difficulty) {
        Some(i) => (copy_block(&received[i]), None),
        None => {
            let mut g = new_genesis(dancemove_from_index(draw_move_index(rng)));
            proof {
                g0 = g;
            }
            let solved = g.solve_block(rng, difficulty, max_iter);
            proof {
                found = solved.is_some();
                tried = choose|t: Seq<u64>|
                    search_run(g0, difficulty, attempt_limit(max_iter), t, found, g);
            }
            let sent = copy_block(&g);
            (g, Some(sent))
        },
    };
    assert(announced.is_some() ==> search_run(
        g0,
        difficulty,
        attempt_limit(max_iter),
        tried,
        found,
        genesis,
    ) && is_genesis_block(g0) && g0.nonce == 0);
    let ghost input = received@;
    let (chain, rest) = Blockchain::new_from_genesis_and_vec(genesis, received);
    proof {
        assert(built_from(chain.blocks.value, input, chain.blocks, rest@));
        lemma_height_le_size(chain.blocks);
        assert(chain.blocks.values() =~= Multiset::singleton(chain.blocks.value).add(
            placed(chain.blocks),
        ));
        assert(placed(chain.blocks).len() <= received@.to_multiset().len());
    }
    let tip = chain.select_tip();
    let mut next = block_on(tip, miner_name, dancemove_from_index(draw_move_index(rng)));
    let mined = match next.solve_block(rng, difficulty, max_iter) {
        Some(_) => Some(next),
        None => None,
    };
    (announced, chain, mined, rest)
}

impl Blockchain {
    /// Builds the fork tree rooted at `genesis` from `blocks`, given in any
    /// order. Sweeps the candidates until a sweep places none: a candidate
    /// whose nonce is already in the tree is rejected for good; one whose
    /// parent is in the tree is attached under the first such node; the
    /// others wait for the next sweep. Returns the tree and the blocks it
    /// could not place: the orphans, then the rejected duplicates.
    pub fn new_from_genesis_and_vec(genesis: Block, blocks: Vec<Block>) -> (r: (Self, Vec<Block>))
        ensures
            built_from(genesis, blocks@, r.0.blocks, r.1@),
            ({
                let (accepted, orphans, rejected) = settle(
                    genesis,
                    Seq::empty(),
                    blocks@,
                    Seq::empty(),
                );
                &&& placed(r.0.blocks) =~= accepted.to_multiset()
                &&& r.1@ == orphans + rejected
            }),
    {
        let ghost input = blocks@;
        let mut tree = TreeNode::new(genesis);
        let mut remaining = blocks;
        let mut invalid: Vec<Block> = Vec::new();
        let mut seen: Vec<u64> = Vec::new();
        let ghost mut done: Seq<Block> = Seq::empty();
        let ghost mut parents: Seq<Block> = Seq::empty();
        let mut inserted_some = true;
        while inserted_some
            invariant
                tree.value == genesis,
                linked(tree),
                placed(tree) =~= done.to_multiset(),
                done.to_multiset().add(remaining@.to_multiset()).add(invalid@.to_multiset())
                    =~= input.to_multiset(),
                seen@.len() == done.len(),
                forall|k: int| 0 <= k < done.len() ==> seen@[k] == (#[trigger] done[k]).nonce,
                forall|j: int, k: int|
                    0 <= j < k < done.len() ==> (#[trigger] done[j]).nonce != (#[trigger] done[k]).nonce,
                parents.len() == done.len(),
                forall|k: int|
                    0 <= k < done.len() ==> tree.values().count(#[trigger] parents[k]) > 0
                        && parents[k].parent_of(done[k].parent_hash@),
                forall|k: int| 0 <= k < invalid@.len() ==> seen@.contains(#[trigger] invalid@[k].nonce),
                !inserted_some ==> forall|k: int|
                    0 <= k < remaining@.len() ==> !tree.has_match(
                        (#[trigger] remaining@[k]).parent_hash@,
                    ) && !seen@.contains(remaining@[k].nonce),
                inserted_some ==> settle(genesis, done, remaining@, invalid@) == settle(
                    genesis,
                    Seq::empty(),
                    input,
                    Seq::empty(),
                ),
                !inserted_some ==> (done, remaining@, invalid@) == settle(
                    genesis,
                    Seq::empty(),
                    input,
                    Seq::empty(),
                ),
            decreases remaining@.len() + (if inserted_some { 1int } else { 0int }),
        {
            inserted_some = false;
            let ghost start = remaining@.len();
            let ghost rem0 = remaining@;
            let ghost done0 = done;
            let ghost invalid0 = invalid@;
            let ghost mut k: int = 0;
            assert(rem0.subrange(0, 0) =~= Seq::<Block>::empty());
            let mut still: Vec<Block> = Vec::new();
            while remaining.len() > 0
                invariant
                    tree.value == genesis,
                    linked(tree),
                    placed(tree) =~= done.to_multiset(),
                    done.to_multiset().add(remaining@.to_multiset()).add(still@.to_multiset()).add(
                        invalid@.to_multiset(),
                    ) =~= input.to_multiset(),
                    seen@.len() == done.len(),
                    forall|k: int| 0 <= k < done.len() ==> seen@[k] == (#[trigger] done[k]).nonce,
                    forall|j: int, k: int|
                        0 <= j < k < done.len() ==> (#[trigger] done[j]).nonce != (
                        #[trigger] done[k]).nonce,
                    parents.len() == done.len(),
                    forall|k: int|
                        0 <= k < done.len() ==> tree.values().count(#[trigger] parents[k]) > 0
                            && parents[k].parent_of(done[k].parent_hash@),
                    forall|k: int|
                        0 <= k < invalid@.len() ==> seen@.contains(#[trigger] invalid@[k].nonce),
                    still@.len() + remaining@.len() <= start,
                    inserted_some ==> still@.len() + remaining@.len() < start,
                    !inserted_some ==> forall|k: int|
                        0 <= k < still@.len() ==> !tree.has_match(
                            (#[trigger] still@[k]).parent_hash@,
                        ) && !seen@.contains(still@[k].nonce),
                    0 <= k <= rem0.len(),
                    start == rem0.len(),
                    remaining@ == rem0.subrange(k, rem0.len() as int),
                    done0.len() <= done.len(),
                    inserted_some == (done.len() > done0.len()),
                    sweep(genesis, done0, rem0.subrange(0, k)).0 == done,
                    sweep(genesis, done0, rem0.subrange(0, k)).1 == still@,
                    invalid@ == invalid0 + sweep(genesis, done0, rem0.subrange(0, k)).2,
                decreases remaining@.len(),
            {
                let block = remaining.remove(0);
                let ghost b = block;
                proof {
                    assert(b == rem0[k]);
                    assert(init(rem0.subrange(0, k + 1)) =~= rem0.subrange(0, k));
                    assert(rem0.subrange(0, k + 1).last() == b);
                    assert(nonce_used(done, b.nonce) == seen@.contains(b.nonce)) by {
                        if nonce_used(done, b.nonce) {
                            let j = choose|j: int| 0 <= j < done.len() && (#[trigger] done[j]).nonce == b.nonce;
                            assert(seen@[j] == b.nonce);
                        }
                        if seen@.contains(b.nonce) {
                            let j = choose|j: int| 0 <= j < seen@.len() && seen@[j] == b.nonce;
                            assert(done[j].nonce == b.nonce);
                        }
                    }
                    lemma_match_iff_attachable(tree, genesis, done, b.parent_hash@);
                    k = k + 1;
                    assert(remaining@ =~= rem0.subrange(k, rem0.len() as int));
                }
                if contains_nonce(&seen, block.nonce) {
                    let ghost prev = invalid@;
                    invalid.push(block);
                    assert(invalid@ =~= prev.push(b));
                } else {
                    let ghost old_tree = tree;
                    match tree.look_for_parent(block.parent_hash.as_slice()) {
                        Some(parent) => {
                            proof {
                                lemma_first_match(old_tree, b.parent_hash@);
                                lemma_linked_first_match(old_tree, b.parent_hash@);
                            }
                            let ghost p = parent.value;
                            let ghost x0 = *parent;
                            let n = block.nonce;
                            parent.insert(block);
                            let ghost x1 = *parent;
                            proof {
                                assert forall|j: int| 0 <= j < x1.children@.len() implies x1.value.parent_of(
                                    (#[trigger] x1.children@[j]).value.parent_hash@,
                                ) && linked(x1.children@[j]) by {
                                    if j < x0.children@.len() {
                                        assert(x1.children@[j] == x0.children@[j]);
                                    } else {
                                        assert(linked(x1.children@[j]));
                                    }
                                }
                                assert(linked(x1));
                                lemma_replaced_linked(old_tree, b.parent_hash@, x1, tree);
                                assert(forall|v: Block|
                                    #[trigger] tree.values().count(v) == old_tree.values().count(v)
                                        + (if v == b { 1int } else { 0int }));
                                assert(tree.values() == Multiset::singleton(genesis).add(placed(tree)));
                                assert(old_tree.values() == Multiset::singleton(genesis).add(
                                    placed(old_tree),
                                ));
                                assert forall|v: Block|
                                    #[trigger] placed(tree).count(v) == placed(old_tree).insert(
                                        b,
                                    ).count(v) by {
                                    assert(tree.values().count(v) == old_tree.values().count(v) + (
                                    if v == b {
                                        1int
                                    } else {
                                        0int
                                    }));
                                }
                                assert(placed(tree) =~= placed(old_tree).insert(b));
                                assert(done.push(b).to_multiset() =~= done.to_multiset().insert(b));
                            }
                            let ghost old_seen = seen@;
                            seen.push(n);
                            proof {
                                assert forall|x: u64| old_seen.contains(x) implies seen@.contains(x) by {
                                    let j = choose|j: int| 0 <= j < old_seen.len() && old_seen[j] == x;
                                    assert(seen@[j] == x);
                                }
                                done = done.push(b);
                                parents = parents.push(p);
                            }
                            inserted_some = true;
                        },
                        None => {
                            still.push(block);
                        },
                    }
                }
            }
            proof {
                assert(rem0.subrange(0, rem0.len() as int) =~= rem0);
            }
            remaining = still;
        }
        let ghost orphans = remaining@;
        let ghost rejected = invalid@;
        remaining.append(&mut invalid);
        proof {
            let t = tree;
            let rest = remaining@;
            assert(rest =~= orphans + rejected);
            vstd::seq_lib::lemma_multiset_commutative(orphans, rejected);
            assert(placed(t).add(rest.to_multiset()) =~= input.to_multiset());
            assert forall|j: int, k: int| 0 <= j < done.len() && 0 <= k < done.len() && j != k
                implies done[j] != done[k] by {
                if j < k {
                    assert(done[j].nonce != done[k].nonce);
                } else {
                    assert(done[k].nonce != done[j].nonce);
                }
            }
            assert(done.no_duplicates());
            done.lemma_multiset_has_no_duplicates();
            assert forall|a: Block, b: Block|
                placed(t).count(a) > 0 && placed(t).count(b) > 0 && a.nonce == b.nonce
                implies a == b && placed(t).count(a) == 1 by {
                assert(done.contains(a));
                assert(done.contains(b));
                let j = choose|j: int| 0 <= j < done.len() && done[j] == a;
                let k = choose|k: int| 0 <= k < done.len() && done[k] == b;
                if j < k {
                    assert(done[j].nonce != done[k].nonce);
                } else if k < j {
                    assert(done[k].nonce != done[j].nonce);
                }
            }
            assert forall|b: Block| #[trigger] placed(t).count(b) > 0 implies exists|p: Block|
                #[trigger] t.values().count(p) > 0 && p.parent_of(b.parent_hash@) by {
                assert(done.contains(b));
                let k = choose|k: int| 0 <= k < done.len() && done[k] == b;
                assert(t.values().count(parents[k]) > 0);
            }
            assert forall|i: int| 0 <= i < rest.len() implies nonce_taken(t, #[trigger] rest[i].nonce)
                || !t.has_match(rest[i].parent_hash@) by {
                if i >= orphans.len() {
                    let k = i - orphans.len();
                    assert(rest[i] == rejected[k]);
                    assert(seen@.contains(rejected[k].nonce));
                    let j = choose|j: int| 0 <= j < seen@.len() && seen@[j] == rejected[k].nonce;
                    assert(done.to_multiset().count(done[j]) > 0);
                    assert(placed(t).count(done[j]) > 0);
                } else {
                    assert(rest[i] == orphans[i]);
                }
            }
            assert forall|i: int| 0 <= i < orphans.len() implies !nonce_taken(
                t,
                #[trigger] orphans[i].nonce,
            ) by {
                if nonce_taken(t, orphans[i].nonce) {
                    let c = choose|c: Block| #[trigger] placed(t).count(c) > 0 && c.nonce == orphans[i].nonce;
                    assert(done.contains(c));
                    let m = choose|m: int| 0 <= m < done.len() && done[m] == c;
                    assert(seen@[m] == c.nonce);
                    assert(seen@.contains(orphans[i].nonce));
                }
            }
            assert forall|i: int, j: int|
                0 <= i < j < rest.len() && nonce_taken(t, #[trigger] rest[i].nonce) implies nonce_taken(
                t,
                #[trigger] rest[j].nonce,
            ) by {
                if i < orphans.len() {
                    assert(rest[i] == orphans[i]);
                } else {
                    assert(rest[j] == rejected[j - orphans.len()]);
                    assert(seen@.contains(rejected[j - orphans.len()].nonce));
                    let m = choose|m: int| 0 <= m < seen@.len() && seen@[m] == rest[j].nonce;
                    assert(done.to_multiset().count(done[m]) > 0);
                    assert(placed(t).count(done[m]) > 0);
                }
            }
        }
        (Blockchain { blocks: tree }, remaining)
    }

    /// The block to extend next: among the deepest leaves of the tree, the
    /// first, in depth-first order, with the smallest nonce.
    pub fn select_tip(&self) -> (r: &Block)
        requires
            self.blocks.height() <= usize::MAX,
        ensures
            exists|i: int|
                is_tip_index(self.blocks.leaves_at(self.blocks.height()), i) && *r == (
                #[trigger] self.blocks.leaves_at(self.blocks.height())[i]).value,
    {
        let leaves = self.blocks.deepest_leafs();
        let ghost l = self.blocks.leaves_at(self.blocks.height());
        assert(l =~= derefs(leaves@));
        let mut best: usize = 0;
        let mut i: usize = 1;
        while i < leaves.len()
            invariant
                leaves@.len() == l.len(),
                l =~= derefs(leaves@),
                0 <= best < i <= leaves@.len(),
                forall|j: int| 0 <= j < i ==> l[best as int].value.nonce <= (#[trigger] l[j]).value.nonce,
                forall|j: int| 0 <= j < best ==> l[best as int].value.nonce < (#[trigger] l[j]).value.nonce,
            decreases leaves@.len() - i,
        {
            assert(l[i as int] == *leaves@[i as int]);
            assert(l[best as int] == *leaves@[best as int]);
            if leaves[i].value.nonce < leaves[best].value.nonce {
                best = i;
            }
            i += 1;
        }
        assert(is_tip_index(l, best as int));
        assert(l[best as int] == *leaves@[best as int]);
        &leaves[best].value
    }
}

} // verus!
