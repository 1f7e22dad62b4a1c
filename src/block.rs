use crate::simpletree::Parenting;
use rand::rngs::StdRng;
use rand::RngCore;
use sha2::{Digest, Sha256};
use vstd::prelude::*;
use vstd::std_specs::bits::u8_leading_zeros;
use vstd::utf8::{decode_utf8, encode_utf8, encode_utf8_decode_utf8};

verus! {

/// Default number of leading zero bits that a block hash must show.
pub const DIFFICULTY: u32 = 10;

/// A hasher state for block ids that are already `u64` values.
pub struct BlockHasher {
    id: u64,
}

impl Default for BlockHasher {
    fn default() -> (r: Self)
        ensures
            r.spec_id() == 0,
    {
        BlockHasher { id: 0 }
    }
}

impl BlockHasher {
    /// The id held.
    pub closed spec fn spec_id(&self) -> u64 {
        self.id
    }

    pub fn finish(&self) -> (r: u64)
        ensures
            r == self.spec_id(),
    {
        self.id
    }

    pub fn write_u64(&mut self, id: u64)
        ensures
            final(self).spec_id() == id,
    {
        self.id = id;
    }
}

/// The payload a miner declares in its block.
#[derive(Clone, Copy, Debug, PartialEq, Eq, Structural)]
pub enum DanceMove {
    Y,
    M,
    C,
    A,
}

impl Default for DanceMove {
    fn default() -> (r: Self)
        ensures
            r == DanceMove::Y,
    {
        DanceMove::Y
    }
}

impl DanceMove {
    /// The single byte that encodes the move in a block's hash input.
    pub open spec fn code(self) -> u8 {
        match self {
            DanceMove::Y => 1,
            DanceMove::M => 2,
            DanceMove::C => 3,
            DanceMove::A => 4,
        }
    }

    pub fn as_byte(&self) -> (r: u8)
        ensures
            r == self.code(),
    {
        match self {
            DanceMove::Y => 1,
            DanceMove::M => 2,
            DanceMove::C => 3,
            DanceMove::A => 4,
        }
    }
}

/// One unit of mining work.
#[derive(Clone, Debug)]
pub struct Block {
    /// Hash of the parent block (empty for a genesis block).
    pub parent_hash: Vec<u8>,
    /// Identity of the miner; not bound cryptographically.
    pub miner: String,
    /// The search variable of the proof of work.
    pub nonce: u64,
    /// The move the miner declares.
    pub dancemove: DanceMove,
}

impl PartialEq for Block {
    fn eq(&self, o: &Block) -> (r: bool) {
        same_bytes(self.parent_hash.as_slice(), o.parent_hash.as_slice()) && self.miner == o.miner
            && self.nonce == o.nonce && self.dancemove == o.dancemove
    }
}

impl vstd::std_specs::cmp::PartialEqSpecImpl for Block {
    open spec fn obeys_eq_spec() -> bool {
        true
    }

    open spec fn eq_spec(&self, o: &Block) -> bool {
        self.parent_hash@ == o.parent_hash@ && self.miner@ == o.miner@ && self.nonce == o.nonce
            && self.dancemove == o.dancemove
    }
}

impl Eq for Block {

}

impl Default for Block {
    fn default() -> (r: Self)
        ensures
            r.parent_hash@.len() == 0,
            r.miner@.len() == 0,
            r.nonce == 0,
            r.dancemove == DanceMove::Y,
    {
        Block { parent_hash: Vec::new(), miner: String::new(), nonce: 0, dancemove: DanceMove::Y }
    }
}

/// The SHA-256 digest of a byte string.
pub uninterp spec fn sha256_of(msg: Seq<u8>) -> Seq<u8>;

/// Relies on `sha2::Sha256::digest`: the 32-byte SHA-256 digest of `msg`,
/// which depends on the bytes of `msg` alone.
#[verifier::external_body]
fn sha256(msg: &[u8]) -> (r: [u8; 32])
    ensures
        r@ == sha256_of(msg@),
{
    Sha256::digest(msg).into()
}

/// Relies on `rand::RngCore::next_u64` of `StdRng`: some 64-bit value.
#[verifier::external_body]
fn draw_nonce(rng: &mut StdRng) -> (r: u64) {
    rng.next_u64()
}

/// rand's standard generator, carried through as an opaque value.
#[verifier::external_type_specification]
#[verifier::external_body]
pub struct ExStdRng(StdRng);

/// Byte `i` of the little-endian encoding of `n`.
pub open spec fn le_byte(n: u64, i: int) -> u8 {
    ((n >> ((8 * i) as u64)) & 0xff) as u8
}

/// The eight little-endian bytes of `n`.
pub open spec fn le_bytes(n: u64) -> Seq<u8> {
    Seq::new(8, |i: int| le_byte(n, i))
}

/// The bytes a block's hash is computed over: parent hash, UTF-8 miner name,
/// little-endian nonce and the move's byte, concatenated.
pub open spec fn encoding(b: Block) -> Seq<u8> {
    b.parent_hash@ + encode_utf8(b.miner@) + le_bytes(b.nonce) + seq![b.dancemove.code()]
}

/// The canonical hash of a block.
pub open spec fn block_hash(b: Block) -> Seq<u8> {
    sha256_of(encoding(b))
}

/// Number of leading zero bits of `h`, read as a big-endian bit string.
pub open spec fn leading_zero_bits(h: Seq<u8>) -> nat
    decreases h.len(),
{
    if h.len() == 0 {
        0
    } else if h[0] == 0 {
        8 + leading_zero_bits(h.drop_first())
    } else {
        u8_leading_zeros(h[0]) as nat
    }
}

/// Whether `h` shows at least `difficulty` leading zero bits.
pub open spec fn meets_difficulty(h: Seq<u8>, difficulty: u32) -> bool {
    leading_zero_bits(h) >= difficulty
}

/// Whether `b` is a genesis block: no parent and the reserved miner name.
pub open spec fn is_genesis_block(b: Block) -> bool {
    b.parent_hash@.len() == 0 && b.miner@ == "Genesis"@
}

/// Any hash meets difficulty zero.
pub proof fn lemma_zero_difficulty(h: Seq<u8>)
    ensures
        meets_difficulty(h, 0),
{
}

/// The hash is a function of the block's fields: equal blocks hash equally.
pub proof fn lemma_hash_deterministic(a: Block, b: Block)
    requires
        a.parent_hash@ == b.parent_hash@,
        a.miner@ == b.miner@,
        a.nonce == b.nonce,
        a.dancemove == b.dancemove,
    ensures
        block_hash(a) == block_hash(b),
{
}

/// Whether `a` and `b` differ in exactly one of their four fields.
pub open spec fn differ_in_one_field(a: Block, b: Block) -> bool {
    let p = a.parent_hash@ != b.parent_hash@;
    let m = a.miner@ != b.miner@;
    let n = a.nonce != b.nonce;
    let d = a.dancemove != b.dancemove;
    (p && !m && !n && !d) || (!p && m && !n && !d) || (!p && !m && n && !d) || (!p && !m && !n && d)
}

/// Eight little-endian bytes determine the number.
proof fn lemma_le_bytes_injective(x: u64, y: u64)
    requires
        le_bytes(x) == le_bytes(y),
    ensures
        x == y,
{
    assert forall|i: int| 0 <= i < 8 implies le_byte(x, i) == le_byte(y, i) by {
        assert(le_bytes(x)[i] == le_byte(x, i) && le_bytes(y)[i] == le_byte(y, i));
    }
    assert(le_byte(x, 0) == le_byte(y, 0) && le_byte(x, 1) == le_byte(y, 1) && le_byte(x, 2)
        == le_byte(y, 2) && le_byte(x, 3) == le_byte(y, 3) && le_byte(x, 4) == le_byte(y, 4)
        && le_byte(x, 5) == le_byte(y, 5) && le_byte(x, 6) == le_byte(y, 6) && le_byte(x, 7)
        == le_byte(y, 7));
    assert((((x >> 0u64) & 0xff) as u8 == ((y >> 0u64) & 0xff) as u8 && ((x >> 8u64) & 0xff) as u8
        == ((y >> 8u64) & 0xff) as u8 && ((x >> 16u64) & 0xff) as u8 == ((y >> 16u64) & 0xff) as u8
        && ((x >> 24u64) & 0xff) as u8 == ((y >> 24u64) & 0xff) as u8 && ((x >> 32u64) & 0xff) as u8
        == ((y >> 32u64) & 0xff) as u8 && ((x >> 40u64) & 0xff) as u8 == ((y >> 40u64) & 0xff) as u8
        && ((x >> 48u64) & 0xff) as u8 == ((y >> 48u64) & 0xff) as u8 && ((x >> 56u64) & 0xff) as u8
        == ((y >> 56u64) & 0xff) as u8) ==> x == y) by (bit_vector);
}

/// Changing exactly one field of a block changes the bytes its hash is
/// computed over, so the hashes differ unless SHA-256 collides.
pub proof fn lemma_one_field_changes_encoding(a: Block, b: Block)
    requires
        differ_in_one_field(a, b),
    ensures
        encoding(a) != encoding(b),
{
    let pa = a.parent_hash@;
    let pb = b.parent_hash@;
    let ma = encode_utf8(a.miner@);
    let mb = encode_utf8(b.miner@);
    let ea = encoding(a);
    let eb = encoding(b);
    if ea == eb {
        assert(ea.len() == pa.len() + ma.len() + 9);
        assert(eb.len() == pb.len() + mb.len() + 9);
        if pa != pb {
            assert(ma == mb);
            assert(ea.subrange(0, pa.len() as int) =~= pa);
            assert(eb.subrange(0, pb.len() as int) =~= pb);
        } else if a.miner@ != b.miner@ {
            let lo = pa.len() as int;
            assert(ea.subrange(lo, lo + ma.len()) =~= ma);
            assert(eb.subrange(lo, lo + mb.len()) =~= mb);
            encode_utf8_decode_utf8(a.miner@);
            encode_utf8_decode_utf8(b.miner@);
            assert(decode_utf8(ma) == decode_utf8(mb));
        } else if a.nonce != b.nonce {
            let lo = (pa.len() + ma.len()) as int;
            assert(ea.subrange(lo, lo + 8) =~= le_bytes(a.nonce));
            assert(eb.subrange(lo, lo + 8) =~= le_bytes(b.nonce));
            lemma_le_bytes_injective(a.nonce, b.nonce);
        } else {
            assert(ea[ea.len() - 1] == a.dancemove.code());
            assert(eb[eb.len() - 1] == b.dancemove.code());
        }
    }
}

pub(crate) fn append_bytes(out: &mut Vec<u8>, src: &[u8])
    ensures
        final(out)@ == old(out)@ + src@,
{
    let mut i: usize = 0;
    while i < src.len()
        invariant
            0 <= i <= src@.len(),
            out@ == old(out)@ + src@.subrange(0, i as int),
        decreases src@.len() - i,
    {
        out.push(src[i]);
        i += 1;
        assert(out@ =~= old(out)@ + src@.subrange(0, i as int));
    }
    assert(src@.subrange(0, src@.len() as int) =~= src@);
}

fn push_le_bytes(out: &mut Vec<u8>, n: u64)
    ensures
        final(out)@ == old(out)@ + le_bytes(n),
{
    let mut i: u64 = 0;
    while i < 8
        invariant
            0 <= i <= 8,
            out@ == old(out)@ + le_bytes(n).subrange(0, i as int),
        decreases 8 - i,
    {
        out.push(((n >> (8 * i)) & 0xff) as u8);
        i += 1;
        assert(out@ =~= old(out)@ + le_bytes(n).subrange(0, i as int));
    }
    assert(le_bytes(n).subrange(0, 8) =~= le_bytes(n));
}

/// Whether two byte strings are equal.
fn same_bytes(a: &[u8], b: &[u8]) -> (r: bool)
    ensures
        r == (a@ == b@),
{
    if a.len() != b.len() {
        return false;
    }
    let mut i: usize = 0;
    while i < a.len()
        invariant
            0 <= i <= a@.len(),
            a@.len() == b@.len(),
            forall|j: int| 0 <= j < i ==> a@[j] == b@[j],
        decreases a@.len() - i,
    {
        if a[i] != b[i] {
            return false;
        }
        i += 1;
    }
    assert(a@ =~= b@);
    true
}

fn bytes_to_vec(h: &[u8; 32]) -> (r: Vec<u8>)
    ensures
        r@ == h@,
{
    let mut v: Vec<u8> = Vec::new();
    append_bytes(&mut v, h.as_slice());
    v
}

/// The attempt budget that `max_iteration` gives: unbounded (`u64::MAX`) when
/// `None`.
pub open spec fn attempt_limit(max_iteration: Option<u64>) -> u64 {
    match max_iteration {
        Some(m) => m,
        None => u64::MAX,
    }
}

/// Whether `tried`, the nonces drawn in order by one run of the search on
/// `b0` within `limit` attempts, is a run that ends in `b1`: every nonce
/// before the last failed `difficulty`; the search stops at the first nonce
/// that meets it, and `found` says whether it did; without success the whole
/// budget was spent; the block keeps its other fields and ends with the last
/// nonce tried installed.
#[verifier::opaque]
pub open spec fn search_run(
    b0: Block,
    difficulty: u32,
    limit: u64,
    tried: Seq<u64>,
    found: bool,
    b1: Block,
) -> bool {
    &&& tried.len() <= limit
    &&& forall|i: int|
        0 <= i < tried.len() - 1 ==> !meets_difficulty(
            block_hash(Block { nonce: #[trigger] tried[i], ..b0 }),
            difficulty,
        )
    &&& tried.len() == 0 ==> b1 == b0 && !found
    &&& tried.len() > 0 ==> b1 == (Block { nonce: tried.last(), ..b0 }) && found
        == meets_difficulty(block_hash(b1), difficulty)
    &&& !found ==> tried.len() == limit
}

impl Block {
    pub fn new(parent_hash: Vec<u8>, miner: String, nonce: u64, dancemove: DanceMove) -> (r: Self)
        ensures
            r.parent_hash == parent_hash,
            r.miner == miner,
            r.nonce == nonce,
            r.dancemove == dancemove,
    {
        Block { parent_hash, miner, nonce, dancemove }
    }

    /// The bytes the hash is computed over.
    fn encode(&self) -> (r: Vec<u8>)
        ensures
            r@ == encoding(*self),
    {
        let mut msg: Vec<u8> = Vec::new();
        append_bytes(&mut msg, self.parent_hash.as_slice());
        append_bytes(&mut msg, self.miner.as_str().as_bytes());
        push_le_bytes(&mut msg, self.nonce);
        msg.push(self.dancemove.as_byte());
        msg
    }

    /// The canonical SHA-256 hash of the block.
    pub fn hash_block(&self) -> (r: [u8; 32])
        ensures
            r@ == block_hash(*self),
    {
        let msg = self.encode();
        sha256(msg.as_slice())
    }

    /// Installs `nonce` and returns the block's hash if it meets `difficulty`.
    pub fn try_nonce(&mut self, nonce: u64, difficulty: u32) -> (r: Option<Vec<u8>>)
        ensures
            *final(self) == (Block { nonce, ..*old(self) }),
            r.is_some() == meets_difficulty(block_hash(*final(self)), difficulty),
            r.is_some() ==> r.unwrap()@ == block_hash(*final(self)),
            r.is_some() ==> r.unwrap()@.len() == 32,
    {
        self.nonce = nonce;
        let h = self.hash_block();
        if self.pow_check(h.as_slice(), difficulty) {
            Some(bytes_to_vec(&h))
        } else {
            None
        }
    }

    /// Draws nonces from `rng` until the block's hash meets `difficulty`, at
    /// most `max_iteration` times (unbounded, up to `u64::MAX`, when `None`).
    /// On success the nonce stays installed and its hash is returned.
    pub fn solve_block(&mut self, rng: &mut StdRng, difficulty: u32, max_iteration: Option<u64>) -> (r: Option<Vec<u8>>)
        ensures
            final(self).parent_hash == old(self).parent_hash,
            final(self).miner == old(self).miner,
            final(self).dancemove == old(self).dancemove,
            r.is_some() ==> r.unwrap()@ == block_hash(*final(self))
                && meets_difficulty(r.unwrap()@, difficulty),
            r.is_none() && max_iteration != Some(0u64) ==> !meets_difficulty(
                block_hash(*final(self)),
                difficulty,
            ),
            r.is_some() ==> r.unwrap()@.len() == 32,
            max_iteration == Some(0u64) ==> r.is_none() && *final(self) == *old(self),
            max_iteration == Some(0u64) ==> *final(rng) == *old(rng),
            difficulty == 0 && max_iteration != Some(0u64) ==> r.is_some(),
            exists|tried: Seq<u64>|
                #[trigger] search_run(
                    *old(self),
                    difficulty,
                    attempt_limit(max_iteration),
                    tried,
                    r.is_some(),
                    *final(self),
                ),
    {
        let limit: u64 = match max_iteration {
            Some(m) => m,
            None => u64::MAX,
        };
        let ghost b0 = *self;
        let ghost mut tried: Seq<u64> = Seq::empty();
        let mut k: u64 = 0;
        while k < limit
            invariant
                limit == attempt_limit(max_iteration),
                b0 == *old(self),
                self.parent_hash == old(self).parent_hash,
                self.miner == old(self).miner,
                self.dancemove == old(self).dancemove,
                k <= limit,
                k == tried.len(),
                k == 0 ==> *self == *old(self) && *rng == *old(rng),
                k > 0 ==> !meets_difficulty(block_hash(*self), difficulty) && *self == (Block {
                    nonce: tried.last(),
                    ..b0
                }),
                forall|i: int|
                    0 <= i < tried.len() ==> !meets_difficulty(
                        block_hash(Block { nonce: #[trigger] tried[i], ..b0 }),
                        difficulty,
                    ),
            decreases limit - k,
        {
            let nonce = draw_nonce(rng);
            let found = self.try_nonce(nonce, difficulty);
            proof {
                tried = tried.push(nonce);
            }
            if found.is_some() {
                proof {
                    reveal(search_run);
                    assert forall|i: int| 0 <= i < tried.len() - 1 implies !meets_difficulty(
                        block_hash(Block { nonce: #[trigger] tried[i], ..b0 }),
                        difficulty,
                    ) by {
                        assert(tried[i] == tried.drop_last()[i]);
                    }
                    assert(search_run(b0, difficulty, limit, tried, true, *self));
                }
                return found;
            }
            k += 1;
        }
        let none: Option<Vec<u8>> = None;
        proof {
            reveal(search_run);
            assert(search_run(
                b0,
                difficulty,
                attempt_limit(max_iteration),
                tried,
                none.is_some(),
                *self,
            ));
        }
        none
    }

    /// Whether `hash` shows at least `difficulty` leading zero bits.
    pub fn pow_check(&self, hash: &[u8], difficulty: u32) -> (r: bool)
        ensures
            r == meets_difficulty(hash@, difficulty),
    {
        if difficulty == 0 {
            return true;
        }
        let mut i: usize = 0;
        assert(hash@.subrange(0, hash@.len() as int) =~= hash@);
        while i < hash.len()
            invariant
                0 <= i <= hash@.len(),
                8 * i < difficulty,
                leading_zero_bits(hash@) == 8 * i + leading_zero_bits(
                    hash@.subrange(i as int, hash@.len() as int),
                ),
            decreases hash@.len() - i,
        {
            let rest = Ghost(hash@.subrange(i as int, hash@.len() as int));
            if hash[i] != 0 {
                let bits: u64 = 8 * (i as u64) + hash[i].leading_zeros() as u64;
                return bits >= difficulty as u64;
            }
            assert(rest@.drop_first() =~= hash@.subrange(i + 1, hash@.len() as int));
            i += 1;
            if 8 * (i as u64) >= difficulty as u64 {
                return true;
            }
        }
        false
    }

    /// Whether the block is a genesis block. The difficulty does not take part.
    pub fn is_genesis(&self, _difficulty: u32) -> (r: bool)
        ensures
            r == is_genesis_block(*self),
    {
        let name = "Genesis".to_owned();
        self.parent_hash.len() == 0 && self.miner == name
    }
}

impl Parenting for Block {
    open spec fn parent_of(&self, id: Seq<u8>) -> bool {
        block_hash(*self) == id
    }

    fn is_parent(&self, parent_id: &[u8]) -> (r: bool) {
        let h = self.hash_block();
        same_bytes(h.as_slice(), parent_id)
    }
}

} // verus!
