//! Sources of random bits: an endless pseudo-random stream, and a source
//! that replays the bits of a number.

use rand::rngs::{StdRng, ThreadRng};
use rand::RngCore;
use rand::SeedableRng;
use vstd::arithmetic::power2::*;
use vstd::prelude::*;

verus! {

/// Bit `i` of `seed`, counted from the least significant one.
pub open spec fn bit_of(seed: nat, i: nat) -> bool {
    (seed / pow2(i)) % 2 == 1
}

/// The `len` bits of `seed` that start at bit `from`, lowest first.
pub open spec fn bits_of(seed: nat, from: nat, len: nat) -> Seq<bool> {
    Seq::new(len, |i: int| bit_of(seed, (from + i) as nat))
}

/// How many bits are left after one more was handed out.
pub open spec fn one_less(remaining: Option<nat>) -> Option<nat> {
    match remaining {
        Some(r) => Some((r - 1) as nat),
        None => None,
    }
}

/// How many bits are left after `k` more were handed out.
pub open spec fn less(remaining: Option<nat>, k: nat) -> Option<nat> {
    match remaining {
        Some(r) => Some((r - k) as nat),
        None => None,
    }
}

/// Whether a source with `remaining` bits left can hand out `k` more.
pub open spec fn can_supply(remaining: Option<nat>, k: nat) -> bool {
    match remaining {
        Some(r) => k <= r,
        None => true,
    }
}

/// `after` is the source `before` once it has handed out `bits`.
pub open spec fn drew<R: RandomSpace>(before: R, after: R, bits: Seq<bool>) -> bool {
    &&& after.continues(&before)
    &&& can_supply(before.remaining(), bits.len())
    &&& after.drawn() == before.drawn() + bits
    &&& after.remaining() == less(before.remaining(), bits.len())
}

/// `after` is the source `before` once it was asked for `need` bits and ran
/// out before it could hand out all of them.
pub open spec fn ran_dry<R: RandomSpace>(before: R, after: R, need: nat) -> bool {
    &&& after.continues(&before)
    &&& !can_supply(before.remaining(), need)
    &&& after.remaining() == Some(0nat)
    &&& after.drawn().len() == before.drawn().len() + before.remaining()->0
    &&& after.drawn().take(before.drawn().len() as int) == before.drawn()
}

/// The bits that were handed out between `before` and `after`.
pub open spec fn fresh_bits<R: RandomSpace>(before: R, after: R) -> Seq<bool> {
    after.drawn().skip(before.drawn().len() as int)
}

/// What was drawn in two stretches was drawn in one.
pub proof fn lemma_drew_chain<R: RandomSpace>(a: R, b: R, c: R, first: Seq<bool>, second: Seq<bool>)
    requires
        drew(a, b, first),
        drew(b, c, second),
    ensures
        drew(a, c, first + second),
        fresh_bits(a, c) == first + second,
{
    a.lemma_continues_chain(&b, &c);
    assert(c.drawn() =~= a.drawn() + (first + second));
    assert(fresh_bits(a, c) =~= first + second);
}

/// A source that hands out some bits and then runs dry has handed out all it
/// had.
pub proof fn lemma_ran_dry_chain<R: RandomSpace>(a: R, b: R, c: R, first: Seq<bool>, need: nat)
    requires
        drew(a, b, first),
        ran_dry(b, c, need),
    ensures
        c.continues(&a),
        c.remaining() == Some(0nat),
        fresh_bits(a, c) == first + fresh_bits(b, c),
        c.drawn() == a.drawn() + fresh_bits(a, c),
        fresh_bits(b, c).len() == b.remaining()->0,
        fresh_bits(b, c).len() < need,
{
    a.lemma_continues_chain(&b, &c);
    let left = fresh_bits(b, c);
    assert(c.drawn() =~= b.drawn() + left) by {
        assert(c.drawn().take(b.drawn().len() as int) == b.drawn());
        assert forall|i: int| 0 <= i < c.drawn().len() implies c.drawn()[i] == (b.drawn() + left)[i] by {
            if i < b.drawn().len() {
                assert(c.drawn().take(b.drawn().len() as int)[i] == c.drawn()[i]);
            }
        }
    }
    assert(fresh_bits(a, c) =~= first + left);
    assert(c.drawn() =~= a.drawn() + fresh_bits(a, c));
}

/// A supply of random bits, fetched one at a time.
pub trait RandomSpace: Sized {
    /// The source is in a valid state.
    spec fn wf(&self) -> bool;

    /// The bits handed out so far, oldest first.
    spec fn drawn(&self) -> Seq<bool>;

    /// The number of bits that are left, or `None` for a source without end.
    spec fn remaining(&self) -> Option<nat>;

    /// `self` is what `earlier` has become after some fetches.
    spec fn continues(&self, earlier: &Self) -> bool;

    /// A source continues itself.
    proof fn lemma_continues_itself(&self)
        ensures
            self.continues(self),
    ;

    /// What continues a continuation continues the source it started from.
    proof fn lemma_continues_chain(&self, middle: &Self, last: &Self)
        requires
            middle.continues(self),
            last.continues(middle),
        ensures
            last.continues(self),
    ;

    /// The next bit, or `None` once the source is exhausted.
    fn fetch_random_bit(&mut self) -> (bit: Option<bool>)
        requires
            old(self).wf(),
        ensures
            final(self).wf(),
            final(self).continues(old(self)),
            bit is Some <==> old(self).remaining() != Some(0nat),
            bit matches Some(b) ==> final(self).drawn() == old(self).drawn().push(b)
                && final(self).remaining() == one_less(old(self).remaining()),
            bit is None ==> final(self).drawn() == old(self).drawn() && final(self).remaining()
                == old(self).remaining(),
    ;

    /// The number of bits the source declares to hold.
    fn size(&self) -> usize;
}

/// `StdRng` of rand: a pseudo-random generator. Nothing inside it is seen.
#[verifier::external_type_specification]
#[verifier::external_body]
pub struct ExStdRng(StdRng);

/// `ThreadRng` of rand: a handle to the generator of the running thread.
/// Nothing inside it is seen.
#[verifier::external_type_specification]
#[verifier::external_body]
pub struct ExThreadRng(ThreadRng);

/// `SeedableRng::seed_from_u64` of rand, for `StdRng`: a generator made from
/// a 64-bit seed. Nothing is claimed of the generator.
#[verifier::external_body]
fn seeded_generator(seed: u64) -> StdRng {
    StdRng::seed_from_u64(seed)
}

/// `RngCore::next_u32` of rand, on a `StdRng`: the generator's next 32-bit
/// word. Nothing is claimed of the word.
#[verifier::external_body]
fn next_word(rng: &mut StdRng) -> u32 {
    rng.next_u32()
}

/// `thread_rng` of rand: a handle to the generator of the running thread,
/// which the system seeds; the call depends on no argument, and fails only
/// where the system has no entropy to give. Nothing is claimed of the handle.
#[verifier::external_body]
pub(crate) fn thread_generator() -> ThreadRng {
    rand::thread_rng()
}

/// `RngCore::next_u64` of rand, on a `ThreadRng`: the next 64-bit word of
/// the thread's generator. Nothing is claimed of the word.
#[verifier::external_body]
fn next_double_word(rng: &mut ThreadRng) -> u64 {
    rng.next_u64()
}

/// An endless stream of pseudo-random bits.
pub struct InfiniteRandomSpace {
    rng: StdRng,
    history: Ghost<Seq<bool>>,
}

impl InfiniteRandomSpace {
    /// A stream seeded with `seed`.
    pub fn new(seed: usize) -> (space: InfiniteRandomSpace)
        ensures
            space.wf(),
            space.drawn() == Seq::<bool>::empty(),
    {
        InfiniteRandomSpace { rng: seeded_generator(seed as u64), history: Ghost(Seq::empty()) }
    }
}

impl RandomSpace for InfiniteRandomSpace {
    open spec fn wf(&self) -> bool {
        true
    }

    closed spec fn drawn(&self) -> Seq<bool> {
        self.history@
    }

    open spec fn remaining(&self) -> Option<nat> {
        None
    }

    open spec fn continues(&self, earlier: &Self) -> bool {
        true
    }

    proof fn lemma_continues_itself(&self) {
    }

    proof fn lemma_continues_chain(&self, middle: &Self, last: &Self) {
    }

    fn fetch_random_bit(&mut self) -> (bit: Option<bool>) {
        let word = next_word(&mut self.rng);
        let b = word & 1 == 1;
        proof {
            self.history@ = self.history@.push(b);
        }
        Some(b)
    }

    fn size(&self) -> (n: usize)
        ensures
            n == 2147483647,
    {
        2147483647
    }
}

/// The mathematical content of a [`LimitedRandomSpace`].
pub struct BitTape {
    /// The integer whose bits are replayed.
    pub seed: nat,
    /// The number of bits that the source hands out in all.
    pub limit: nat,
    /// The number of bits handed out so far.
    pub pointer: nat,
}

/// A source that replays the bits of an integer, lowest first, and is
/// exhausted after a declared number of them.
pub struct LimitedRandomSpace {
    pointer: usize,
    seed: usize,
    limit: usize,
}

impl View for LimitedRandomSpace {
    type V = BitTape;

    closed spec fn view(&self) -> BitTape {
        BitTape { seed: self.seed as nat, limit: self.limit as nat, pointer: self.pointer as nat }
    }
}

/// A machine word has no bit set at or above its width.
proof fn lemma_high_bits_clear(seed: usize, i: nat)
    requires
        i >= usize::BITS,
    ensures
        !bit_of(seed as nat, i),
{
    lemma2_to64();
    lemma2_to64_rest();
    if usize::BITS < i {
        lemma_pow2_strictly_increases(usize::BITS as nat, i);
    }
    assert(seed < pow2(i));
    vstd::arithmetic::div_mod::lemma_basic_div(seed as int, pow2(i) as int);
}

impl LimitedRandomSpace {
    /// The source of the first `limit` bits of `seed`.
    pub fn new(seed: usize, limit: usize) -> (space: LimitedRandomSpace)
        ensures
            space.wf(),
            space@ == (BitTape { seed: seed as nat, limit: limit as nat, pointer: 0 }),
    {
        LimitedRandomSpace { pointer: 0, seed, limit }
    }

    /// All the bits that the source holds, lowest first, whatever has been
    /// fetched.
    pub fn to_bits(&self) -> (bits: Vec<bool>)
        ensures
            bits@ == bits_of(self@.seed, 0, self@.limit),
    {
        let mut bits: Vec<bool> = Vec::new();
        let mut i: usize = 0;
        while i < self.limit
            invariant
                i <= self.limit,
                bits@ == bits_of(self@.seed, 0, i as nat),
            decreases self.limit - i,
        {
            bits.push(self.bit_at(i));
            assert(bits@ =~= bits_of(self@.seed, 0, (i + 1) as nat));
            i += 1;
        }
        bits
    }

    /// Bit `i` of the number that is replayed.
    fn bit_at(&self, i: usize) -> (b: bool)
        ensures
            b == bit_of(self@.seed, i as nat),
    {
        if i < usize::BITS as usize {
            proof {
                crate::masks::lemma_read_bit(self.seed, i);
            }
            (self.seed >> i) & 1 == 1
        } else {
            proof {
                lemma_high_bits_clear(self.seed, i as nat);
            }
            false
        }
    }
}

impl RandomSpace for LimitedRandomSpace {
    open spec fn wf(&self) -> bool {
        self@.pointer <= self@.limit
    }

    open spec fn drawn(&self) -> Seq<bool> {
        bits_of(self@.seed, 0, self@.pointer)
    }

    open spec fn remaining(&self) -> Option<nat> {
        Some((self@.limit - self@.pointer) as nat)
    }

    open spec fn continues(&self, earlier: &Self) -> bool {
        self@.seed == earlier@.seed && self@.limit == earlier@.limit
    }

    proof fn lemma_continues_itself(&self) {
    }

    proof fn lemma_continues_chain(&self, middle: &Self, last: &Self) {
    }

    fn fetch_random_bit(&mut self) -> (bit: Option<bool>)
        ensures
            bit == if old(self)@.pointer < old(self)@.limit {
                Some(bit_of(old(self)@.seed, old(self)@.pointer))
            } else {
                None
            },
            final(self)@ == (BitTape {
                pointer: if bit is Some {
                    old(self)@.pointer + 1
                } else {
                    old(self)@.pointer
                },
                ..old(self)@
            }),
    {
        if self.pointer == self.limit {
            None
        } else {
            let b = self.bit_at(self.pointer);
            self.pointer += 1;
            assert(self.drawn() =~= old(self).drawn().push(b));
            Some(b)
        }
    }

    fn size(&self) -> (n: usize)
        ensures
            n == self@.limit,
    {
        self.limit
    }
}

/// A source made for a pattern hands out the bits of that pattern, lowest
/// first: the `i`-th bit fetched is bit `i` of the pattern, and no more bits
/// are handed out than the source was made for.
pub proof fn lemma_replays_pattern(made: LimitedRandomSpace, later: LimitedRandomSpace)
    requires
        made@.pointer == 0,
        later.wf(),
        later.continues(&made),
    ensures
        later.drawn().len() == later@.pointer,
        later.drawn().len() <= made@.limit,
        forall|i: int| 0 <= i < later.drawn().len() ==> #[trigger] later.drawn()[i] == bit_of(made@.seed, i as nat),
        later.remaining() == Some((made@.limit - later.drawn().len()) as nat),
{
}

/// Walks through every bit pattern of a given width, in increasing order.
pub struct RandomSpaceIterator {
    bits: usize,
    now: usize,
}

impl RandomSpaceIterator {
    /// The width of the patterns.
    pub closed spec fn width(&self) -> nat {
        self.bits as nat
    }

    /// The pattern that comes next.
    pub closed spec fn position(&self) -> nat {
        self.now as nat
    }

    /// The width fits a machine word and the position is within the patterns.
    pub open spec fn wf(&self) -> bool {
        self.width() < usize::BITS && self.position() <= pow2(self.width())
    }

    /// The source for the next pattern, or `None` after the last one.
    pub fn next(&mut self) -> (space: Option<LimitedRandomSpace>)
        requires
            old(self).wf(),
        ensures
            final(self).wf(),
            final(self).width() == old(self).width(),
            space is None <==> old(self).position() == pow2(old(self).width()),
            space is None ==> final(self).position() == old(self).position(),
            space matches Some(s) ==> s.wf() && s@ == (BitTape {
                seed: old(self).position(),
                limit: old(self).width(),
                pointer: 0,
            }) && final(self).position() == old(self).position() + 1,
    {
        proof {
            vstd::bits::lemma_usize_pow2_no_overflow(self.bits as nat);
            vstd::bits::lemma_usize_shl_is_mul(1, self.bits);
        }
        if self.now == 1 << self.bits {
            None
        } else {
            self.now += 1;
            Some(LimitedRandomSpace::new(self.now - 1, self.bits))
        }
    }
}

/// The walk through all patterns of `n` bits, starting at pattern 0.
pub fn random_space_of_nbits(n: usize) -> (it: RandomSpaceIterator)
    requires
        n < usize::BITS,
    ensures
        it.wf(),
        it.width() == n,
        it.position() == 0,
{
    RandomSpaceIterator { bits: n, now: 0 }
}

/// An endless stream seeded from the thread's generator.
pub fn random_random_space() -> (space: InfiniteRandomSpace)
    ensures
        space.wf(),
        space.drawn() == Seq::<bool>::empty(),
{
    let mut rng = thread_generator();
    InfiniteRandomSpace::new(next_double_word(&mut rng) as usize)
}

} // verus!
