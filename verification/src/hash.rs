//! Digests, the hasher interface of the commitment layer, and a small
//! algebraic sponge that implements it.

use crate::field::FieldContext;
use vstd::prelude::*;

verus! {

/// The number of field elements in a digest.
pub const NUM_HASH_OUT_ELTS: usize = 4;

/// A digest of four field elements.
#[derive(Clone, Copy, Debug)]
pub struct HashOut {
    pub elements: [u64; 4],
}

impl HashOut {
    /// The digest with all elements zero.
    pub fn zero() -> (r: HashOut)
        ensures
            r.elements@ == seq![0u64, 0u64, 0u64, 0u64],
    {
        HashOut { elements: [0, 0, 0, 0] }
    }

    /// Whether two digests hold the same elements.
    pub fn same(&self, other: &HashOut) -> (r: bool)
        ensures
            r == (*self == *other),
    {
        let r = self.elements[0] == other.elements[0] && self.elements[1] == other.elements[1]
            && self.elements[2] == other.elements[2] && self.elements[3] == other.elements[3];
        proof {
            if r {
                assert(self.elements@ =~= other.elements@);
                assert(self.elements == other.elements);
            }
        }
        r
    }
}

/// What the commitment layer asks of a hash function: a digest for a
/// sequence of field elements, and a compression of two digests into one.
pub trait Hasher {
    /// The digest of `input`.
    spec fn spec_hash_no_pad(&self, input: Seq<u64>) -> HashOut;

    /// The digest that stands for the ordered pair of two digests.
    spec fn spec_two_to_one(&self, left: HashOut, right: HashOut) -> HashOut;

    fn hash_no_pad(&self, input: &Vec<u64>) -> (r: HashOut)
        ensures
            r == self.spec_hash_no_pad(input@),
    ;

    fn two_to_one(&self, left: HashOut, right: HashOut) -> (r: HashOut)
        ensures
            r == self.spec_two_to_one(left, right),
    ;
}

/// A small algebraic sponge over the base field: four lanes, a seventh-power
/// S-box, and one permutation per absorbed element.
///
/// It lets the commitment layer run without an outside hash function. It
/// makes no claim of collision resistance.
pub struct AlgebraicSponge {
    ctx: FieldContext,
    rounds: usize,
}

/// The number of rounds of the sponge's permutation.
pub const SPONGE_ROUNDS: usize = 8;

impl AlgebraicSponge {
    #[verifier::type_invariant]
    spec fn inv(self) -> bool {
        self.ctx.modulus > 1 && self.rounds < 0x1000_0000
    }

    /// The field that the sponge computes in.
    pub closed spec fn field(self) -> FieldContext {
        self.ctx
    }

    /// A sponge over the given field.
    pub fn new(ctx: &FieldContext) -> (r: AlgebraicSponge)
        requires
            ctx.wf(),
        ensures
            r.field() == *ctx,
    {
        AlgebraicSponge { ctx: *ctx, rounds: SPONGE_ROUNDS }
    }

    /// The seventh power.
    closed spec fn spec_sbox(self, x: u64) -> u64 {
        let x2 = self.ctx.spec_mul(x, x);
        let x3 = self.ctx.spec_mul(x2, x);
        let x4 = self.ctx.spec_mul(x2, x2);
        self.ctx.spec_mul(x4, x3)
    }

    /// One lane after the constant of round `round` is added and the S-box applied.
    closed spec fn spec_lane(self, x: u64, round: nat, lane: nat) -> u64 {
        self.spec_sbox(self.ctx.spec_add(x, self.ctx.reduce((4 * round + lane + 1) as int)))
    }

    /// One round: constants and S-box on every lane, then every lane takes
    /// the sum of all lanes plus a multiple of itself.
    closed spec fn spec_round(self, state: Seq<u64>, round: nat) -> Seq<u64> {
        let t0 = self.spec_lane(state[0], round, 0);
        let t1 = self.spec_lane(state[1], round, 1);
        let t2 = self.spec_lane(state[2], round, 2);
        let t3 = self.spec_lane(state[3], round, 3);
        let sum = self.ctx.spec_add(self.ctx.spec_add(t0, t1), self.ctx.spec_add(t2, t3));
        seq![
            self.ctx.spec_add(sum, t0),
            self.ctx.spec_add(sum, self.ctx.spec_mul(2, t1)),
            self.ctx.spec_add(sum, self.ctx.spec_mul(3, t2)),
            self.ctx.spec_add(sum, self.ctx.spec_mul(4, t3)),
        ]
    }

    /// The state after the first `count` rounds.
    closed spec fn spec_rounds(self, state: Seq<u64>, count: nat) -> Seq<u64>
        decreases count,
    {
        if count == 0 {
            state
        } else {
            self.spec_round(self.spec_rounds(state, (count - 1) as nat), (count - 1) as nat)
        }
    }

    /// The state after `input` is absorbed, one element per permutation.
    closed spec fn spec_absorb(self, input: Seq<u64>) -> Seq<u64>
        decreases input.len(),
    {
        if input.len() == 0 {
            seq![0u64, 0u64, 0u64, 0u64]
        } else {
            let before = self.spec_absorb(input.drop_last());
            let fed = before.update(
                0,
                self.ctx.spec_add(before[0], self.ctx.reduce(input.last() as int)),
            );
            self.spec_rounds(fed, self.rounds as nat)
        }
    }

    fn sbox(&self, x: u64) -> (r: u64)
        requires
            self.ctx.is_elem(x),
        ensures
            r == self.spec_sbox(x),
            self.ctx.is_elem(r),
    {
        proof {
            use_type_invariant(self);
        }
        let x2 = self.ctx.mul(x, x);
        let x3 = self.ctx.mul(x2, x);
        let x4 = self.ctx.mul(x2, x2);
        self.ctx.mul(x4, x3)
    }

    fn lane(&self, x: u64, round: usize, lane: usize) -> (r: u64)
        requires
            self.ctx.is_elem(x),
            round < 0x1000_0000,
            lane < 4,
        ensures
            r == self.spec_lane(x, round as nat, lane as nat),
            self.ctx.is_elem(r),
    {
        proof {
            use_type_invariant(self);
        }
        let constant = ((4 * round + lane + 1) as u64) % self.ctx.modulus;
        let fed = self.ctx.add(x, constant);
        self.sbox(fed)
    }

    fn round(&self, state: [u64; 4], round: usize) -> (r: [u64; 4])
        requires
            self.ctx.all_elems(state@),
            round < 0x1000_0000,
        ensures
            r@ == self.spec_round(state@, round as nat),
            self.ctx.all_elems(r@),
    {
        proof {
            use_type_invariant(self);
        }
        let t0 = self.lane(state[0], round, 0);
        let t1 = self.lane(state[1], round, 1);
        let t2 = self.lane(state[2], round, 2);
        let t3 = self.lane(state[3], round, 3);
        let sum = self.ctx.add(self.ctx.add(t0, t1), self.ctx.add(t2, t3));
        let two = 2 % self.ctx.modulus;
        let three = 3 % self.ctx.modulus;
        let four = 4 % self.ctx.modulus;
        proof {
            let m = self.ctx.modulus as int;
            vstd::arithmetic::div_mod::lemma_mul_mod_noop_general(2, t1 as int, m);
            vstd::arithmetic::div_mod::lemma_mul_mod_noop_general(3, t2 as int, m);
            vstd::arithmetic::div_mod::lemma_mul_mod_noop_general(4, t3 as int, m);
            vstd::arithmetic::div_mod::lemma_mul_mod_noop_general(two as int, t1 as int, m);
            vstd::arithmetic::div_mod::lemma_mul_mod_noop_general(three as int, t2 as int, m);
            vstd::arithmetic::div_mod::lemma_mul_mod_noop_general(four as int, t3 as int, m);
            vstd::arithmetic::div_mod::lemma_mod_twice(2, m);
            vstd::arithmetic::div_mod::lemma_mod_twice(3, m);
            vstd::arithmetic::div_mod::lemma_mod_twice(4, m);
        }
        let r = [
            self.ctx.add(sum, t0),
            self.ctx.add(sum, self.ctx.mul(two, t1)),
            self.ctx.add(sum, self.ctx.mul(three, t2)),
            self.ctx.add(sum, self.ctx.mul(four, t3)),
        ];
        proof {
            assert(r@ =~= self.spec_round(state@, round as nat));
        }
        r
    }

    fn permute(&self, state: [u64; 4]) -> (r: [u64; 4])
        requires
            self.ctx.all_elems(state@),
        ensures
            r@ == self.spec_rounds(state@, self.rounds as nat),
            self.ctx.all_elems(r@),
    {
        proof {
            use_type_invariant(self);
        }
        let mut current = state;
        let mut k: usize = 0;
        while k < self.rounds
            invariant
                k <= self.rounds,
                self.rounds < 0x1000_0000,
                self.ctx.all_elems(current@),
                current@ == self.spec_rounds(state@, k as nat),
            decreases self.rounds - k,
        {
            current = self.round(current, k);
            k = k + 1;
        }
        current
    }
}

impl Hasher for AlgebraicSponge {
    closed spec fn spec_hash_no_pad(&self, input: Seq<u64>) -> HashOut {
        let state = self.spec_absorb(input);
        HashOut { elements: [state[0], state[1], state[2], state[3]] }
    }

    closed spec fn spec_two_to_one(&self, left: HashOut, right: HashOut) -> HashOut {
        self.spec_hash_no_pad(left.elements@ + right.elements@)
    }

    fn hash_no_pad(&self, input: &Vec<u64>) -> (r: HashOut) {
        proof {
            use_type_invariant(self);
            assert(input@.take(0).len() == 0);
        }
        let mut state: [u64; 4] = [0, 0, 0, 0];
        let mut i: usize = 0;
        while i < input.len()
            invariant
                i <= input.len(),
                self.ctx.modulus > 1,
                self.ctx.all_elems(state@),
                state@ == self.spec_absorb(input@.take(i as int)),
            decreases input.len() - i,
        {
            let x = input[i] % self.ctx.modulus;
            let fed = [self.ctx.add(state[0], x), state[1], state[2], state[3]];
            proof {
                assert(input@.take(i + 1).drop_last() == input@.take(i as int));
                assert(fed@ =~= state@.update(0, self.ctx.spec_add(state[0], x)));
            }
            state = self.permute(fed);
            i = i + 1;
        }
        proof {
            assert(input@.take(i as int) == input@);
        }
        let r = HashOut { elements: state };
        proof {
            let expected = self.spec_hash_no_pad(input@);
            assert(r.elements@ =~= expected.elements@);
            assert(r.elements =~= expected.elements);
        }
        r
    }

    fn two_to_one(&self, left: HashOut, right: HashOut) -> (r: HashOut) {
        let mut input: Vec<u64> = Vec::new();
        input.push(left.elements[0]);
        input.push(left.elements[1]);
        input.push(left.elements[2]);
        input.push(left.elements[3]);
        input.push(right.elements[0]);
        input.push(right.elements[1]);
        input.push(right.elements[2]);
        input.push(right.elements[3]);
        proof {
            assert(input@ =~= left.elements@ + right.elements@);
        }
        self.hash_no_pad(&input)
    }
}

} // verus!
