//! The transcript of a proof: what the prover has sent is absorbed, and the
//! challenges are squeezed from it.

use crate::field::FieldContext;
use crate::hash::{HashOut, Hasher};
use crate::merkle_tree::MerkleCap;
use vstd::prelude::*;

verus! {

/// A transcript in progress: the digest of what was absorbed, what was
/// observed since, and the challenges that are ready to be handed out.
#[derive(Debug)]
pub struct Challenger {
    pub state: HashOut,
    pub input_buffer: Vec<u64>,
    pub output_buffer: Vec<u64>,
}

/// The transcript as a value: its digest and its two buffers.
pub struct ChallengerView {
    pub state: HashOut,
    pub input: Seq<u64>,
    pub output: Seq<u64>,
}

impl ChallengerView {
    /// The transcript after `x` is observed: pending challenges are
    /// dropped, since they do not depend on `x`.
    pub open spec fn observe(self, x: u64) -> ChallengerView {
        ChallengerView { state: self.state, input: self.input.push(x), output: Seq::empty() }
    }

    /// The transcript after all of `xs` are observed, in order.
    pub open spec fn observe_all(self, xs: Seq<u64>) -> ChallengerView
        decreases xs.len(),
    {
        if xs.len() == 0 {
            self
        } else {
            self.observe_all(xs.drop_last()).observe(xs.last())
        }
    }

    /// The transcript after the digests are observed, element by element.
    pub open spec fn observe_digests(self, digests: Seq<HashOut>) -> ChallengerView
        decreases digests.len(),
    {
        if digests.len() == 0 {
            self
        } else {
            self.observe_digests(digests.drop_last()).observe_all(digests.last().elements@)
        }
    }

    /// The transcript after the extension elements are observed,
    /// coordinate by coordinate.
    pub open spec fn observe_extension_elements(self, elements: Seq<Seq<u64>>) -> ChallengerView
        decreases elements.len(),
    {
        if elements.len() == 0 {
            self
        } else {
            self.observe_extension_elements(elements.drop_last()).observe_all(elements.last())
        }
    }

    /// The transcript with new challenges ready: the old digest and what
    /// was observed since are hashed into the new digest, whose elements
    /// are the challenges.
    pub open spec fn duplex<H: Hasher>(self, hasher: &H) -> ChallengerView {
        let digest = hasher.spec_hash_no_pad(self.state.elements@ + self.input);
        ChallengerView { state: digest, input: Seq::empty(), output: digest.elements@ }
    }

    /// The transcript in which a challenge is ready.
    pub open spec fn ready<H: Hasher>(self, hasher: &H) -> ChallengerView {
        if self.output.len() == 0 {
            self.duplex(hasher)
        } else {
            self
        }
    }

    /// The next challenge: the last of the ready challenges, taken modulo
    /// the field's order.
    pub open spec fn challenge<H: Hasher>(self, hasher: &H, ctx: FieldContext) -> u64 {
        ctx.reduce(self.ready(hasher).output.last() as int)
    }

    /// The transcript after the next challenge is handed out.
    pub open spec fn after_challenge<H: Hasher>(self, hasher: &H) -> ChallengerView {
        let ready = self.ready(hasher);
        ChallengerView {
            state: ready.state,
            input: ready.input,
            output: ready.output.drop_last(),
        }
    }

    /// The next `n` challenges, in the order handed out.
    pub open spec fn challenges<H: Hasher>(self, hasher: &H, ctx: FieldContext, n: nat) -> Seq<
        u64,
    >
        decreases n,
    {
        if n == 0 {
            Seq::empty()
        } else {
            self.challenges(hasher, ctx, (n - 1) as nat).push(
                self.after_challenges(hasher, (n - 1) as nat).challenge(hasher, ctx),
            )
        }
    }

    /// The transcript after the next `n` challenges are handed out.
    pub open spec fn after_challenges<H: Hasher>(self, hasher: &H, n: nat) -> ChallengerView
        decreases n,
    {
        if n == 0 {
            self
        } else {
            self.after_challenges(hasher, (n - 1) as nat).after_challenge(hasher)
        }
    }
}

impl Challenger {
    /// The transcript as a value.
    pub open spec fn view(self) -> ChallengerView {
        ChallengerView { state: self.state, input: self.input_buffer@, output: self.output_buffer@ }
    }

    /// An empty transcript.
    pub fn new() -> (r: Challenger)
        ensures
            r.view() == (ChallengerView {
                state: HashOut { elements: [0u64, 0u64, 0u64, 0u64] },
                input: Seq::empty(),
                output: Seq::empty(),
            }),
    {
        let r = Challenger {
            state: HashOut { elements: [0, 0, 0, 0] },
            input_buffer: Vec::new(),
            output_buffer: Vec::new(),
        };
        proof {
            assert(r.input_buffer@ =~= Seq::empty());
            assert(r.output_buffer@ =~= Seq::empty());
        }
        r
    }

    /// Absorbs one field element.
    pub fn observe_element(&mut self, element: u64)
        ensures
            final(self).view() == old(self).view().observe(element),
    {
        self.output_buffer = Vec::new();
        self.input_buffer.push(element);
        proof {
            assert(self.output_buffer@ =~= Seq::empty());
        }
    }

    /// Absorbs field elements, in order.
    pub fn observe_elements(&mut self, elements: &Vec<u64>)
        ensures
            final(self).view() == old(self).view().observe_all(elements@),
    {
        let mut i: usize = 0;
        proof {
            assert(elements@.take(0).len() == 0);
        }
        while i < elements.len()
            invariant
                i <= elements.len(),
                self.view() == old(self).view().observe_all(elements@.take(i as int)),
            decreases elements.len() - i,
        {
            proof {
                assert(elements@.take(i + 1).drop_last() == elements@.take(i as int));
            }
            self.observe_element(elements[i]);
            i = i + 1;
        }
        proof {
            assert(elements@.take(i as int) == elements@);
        }
    }

    /// Absorbs a digest.
    pub fn observe_hash(&mut self, hash: &HashOut)
        ensures
            final(self).view() == old(self).view().observe_all(hash.elements@),
    {
        let ghost start = self.view();
        self.observe_element(hash.elements[0]);
        self.observe_element(hash.elements[1]);
        self.observe_element(hash.elements[2]);
        self.observe_element(hash.elements[3]);
        proof {
            let e = hash.elements@;
            assert(e.drop_last().drop_last().drop_last().drop_last().len() == 0);
            assert(start.observe_all(e.drop_last().drop_last().drop_last().drop_last()) == start);
            assert(e.drop_last().drop_last().drop_last().last() == e[0]);
            assert(e.drop_last().drop_last().last() == e[1]);
            assert(e.drop_last().last() == e[2]);
            assert(e.last() == e[3]);
            assert(start.observe_all(e.drop_last().drop_last().drop_last()) == start.observe(
                e[0],
            ));
            assert(start.observe_all(e.drop_last().drop_last()) == start.observe(e[0]).observe(
                e[1],
            ));
            assert(start.observe_all(e.drop_last()) == start.observe(e[0]).observe(e[1]).observe(
                e[2],
            ));
        }
    }

    /// Absorbs a Merkle cap, digest by digest.
    pub fn observe_cap(&mut self, cap: &MerkleCap)
        ensures
            final(self).view() == old(self).view().observe_digests(cap.0@),
    {
        let mut i: usize = 0;
        proof {
            assert(cap.0@.take(0).len() == 0);
        }
        while i < cap.0.len()
            invariant
                i <= cap.0.len(),
                self.view() == old(self).view().observe_digests(cap.0@.take(i as int)),
            decreases cap.0.len() - i,
        {
            proof {
                assert(cap.0@.take(i + 1).drop_last() == cap.0@.take(i as int));
            }
            self.observe_hash(&cap.0[i]);
            i = i + 1;
        }
        proof {
            assert(cap.0@.take(i as int) == cap.0@);
        }
    }

    /// Absorbs extension elements, coordinate by coordinate.
    pub fn observe_extension_elements(&mut self, elements: &Vec<Vec<u64>>)
        ensures
            final(self).view() == old(self).view().observe_extension_elements(
                crate::extension::deep(elements@),
            ),
    {
        let ghost all = crate::extension::deep(elements@);
        let mut i: usize = 0;
        proof {
            assert(all.take(0).len() == 0);
        }
        while i < elements.len()
            invariant
                i <= elements.len(),
                all == crate::extension::deep(elements@),
                self.view() == old(self).view().observe_extension_elements(all.take(i as int)),
            decreases elements.len() - i,
        {
            proof {
                assert(all.take(i + 1).drop_last() == all.take(i as int));
                assert(all.take(i + 1).last() == elements[i as int]@);
            }
            self.observe_elements(&elements[i]);
            i = i + 1;
        }
        proof {
            assert(all.take(i as int) == all);
        }
    }

    /// Hands out the next challenge.
    pub fn get_challenge<H: Hasher>(&mut self, hasher: &H, ctx: &FieldContext) -> (r: u64)
        requires
            ctx.modulus > 0,
        ensures
            r == old(self).view().challenge(hasher, *ctx),
            ctx.is_elem(r),
            final(self).view() == old(self).view().after_challenge(hasher),
    {
        if self.output_buffer.len() == 0 {
            let mut input: Vec<u64> = Vec::new();
            input.push(self.state.elements[0]);
            input.push(self.state.elements[1]);
            input.push(self.state.elements[2]);
            input.push(self.state.elements[3]);
            let mut i: usize = 0;
            while i < self.input_buffer.len()
                invariant
                    i <= self.input_buffer.len(),
                    self.view() == old(self).view(),
                    input@ == self.state.elements@ + self.input_buffer@.take(i as int),
                decreases self.input_buffer.len() - i,
            {
                input.push(self.input_buffer[i]);
                proof {
                    assert(input@ =~= self.state.elements@ + self.input_buffer@.take(i + 1));
                }
                i = i + 1;
            }
            proof {
                assert(self.input_buffer@.take(i as int) == self.input_buffer@);
            }
            let digest = hasher.hash_no_pad(&input);
            self.state = digest;
            self.input_buffer = Vec::new();
            let mut output: Vec<u64> = Vec::new();
            output.push(digest.elements[0]);
            output.push(digest.elements[1]);
            output.push(digest.elements[2]);
            output.push(digest.elements[3]);
            self.output_buffer = output;
            proof {
                assert(self.output_buffer@ =~= digest.elements@);
                assert(self.input_buffer@ =~= Seq::empty());
                assert(self.view() == old(self).view().duplex(hasher));
            }
        }
        let ghost ready = self.view();
        let raw = self.output_buffer.pop();
        match raw {
            Some(x) => {
                proof {
                    assert(self.output_buffer@ =~= ready.output.drop_last());
                }
                x % ctx.modulus
            },
            None => 0,
        }
    }

    /// Hands out the next `n` challenges.
    pub fn get_n_challenges<H: Hasher>(&mut self, hasher: &H, ctx: &FieldContext, n: usize) -> (r:
        Vec<u64>)
        requires
            ctx.modulus > 0,
        ensures
            r@ == old(self).view().challenges(hasher, *ctx, n as nat),
            ctx.all_elems(r@),
            final(self).view() == old(self).view().after_challenges(hasher, n as nat),
    {
        let mut r: Vec<u64> = Vec::new();
        let mut i: usize = 0;
        while i < n
            invariant
                i <= n,
                ctx.modulus > 0,
                r@ == old(self).view().challenges(hasher, *ctx, i as nat),
                ctx.all_elems(r@),
                self.view() == old(self).view().after_challenges(hasher, i as nat),
            decreases n - i,
        {
            let c = self.get_challenge(hasher, ctx);
            r.push(c);
            i = i + 1;
        }
        r
    }

    /// Hands out a challenge of the extension field: as many challenges as
    /// the extension has coordinates.
    pub fn get_extension_challenge<H: Hasher>(&mut self, hasher: &H, ctx: &FieldContext) -> (r:
        Vec<u64>)
        requires
            ctx.modulus > 0,
        ensures
            r@ == old(self).view().challenges(hasher, *ctx, ctx.degree as nat),
            ctx.is_ext(r@),
            final(self).view() == old(self).view().after_challenges(hasher, ctx.degree as nat),
    {
        let r = self.get_n_challenges(hasher, ctx, ctx.degree);
        proof {
            lemma_challenges_len(old(self).view(), hasher, *ctx, ctx.degree as nat);
        }
        r
    }
}

/// `n` challenges are `n` in number.
pub proof fn lemma_challenges_len<H: Hasher>(
    view: ChallengerView,
    hasher: &H,
    ctx: FieldContext,
    n: nat,
)
    ensures
        view.challenges(hasher, ctx, n).len() == n,
    decreases n,
{
    if n > 0 {
        lemma_challenges_len(view, hasher, ctx, (n - 1) as nat);
    }
}

} // verus!
