//! Token hashing, the universal permutation family and MinHash signatures.
use std::hash::{Hash, Hasher};
use rustc_hash::FxHasher;
use vstd::prelude::*;

verus! {

/// What `FxHasher` yields for a string token fed through `Hash for str`.
pub uninterp spec fn fx_str_hash(s: Seq<char>) -> u64;

/// The ASCII whitespace characters: space, tab, line feed, form feed and
/// carriage return.
pub open spec fn is_ascii_space(c: char) -> bool {
    c == ' ' || c == '\t' || c == '\n' || c == '\x0C' || c == '\r'
}

/// The tokens of `s` after the partial token `cur`: maximal runs of
/// characters other than ASCII whitespace, in order.
pub open spec fn tokens_after(s: Seq<char>, cur: Seq<char>) -> Seq<Seq<char>>
    decreases s.len(),
{
    let done = if cur.len() == 0 { Seq::<Seq<char>>::empty() } else { seq![cur] };
    if s.len() == 0 {
        done
    } else if is_ascii_space(s[0]) {
        done + tokens_after(s.drop_first(), Seq::empty())
    } else {
        tokens_after(s.drop_first(), cur.push(s[0]))
    }
}

/// The non-empty runs of `s` between ASCII whitespace, in order.
pub open spec fn whitespace_tokens(s: Seq<char>) -> Seq<Seq<char>> {
    tokens_after(s, Seq::empty())
}

/// Relies on `rustc_hash::FxHasher` together with `Hash for str`: a fixed,
/// unseeded function of the token's characters.
#[verifier::external_body]
pub(crate) fn calculate_hash(token: &str) -> (r: u64)
    ensures
        r == fx_str_hash(token@),
{
    let mut s = FxHasher::default();
    token.hash(&mut s);
    s.finish()
}

/// Relies on `str::split_ascii_whitespace`: the non-empty runs between
/// ASCII whitespace, in textual order.
#[verifier::external_body]
pub(crate) fn split_tokens(text: &str) -> (r: Vec<&str>)
    ensures
        r@.map_values(|t: &str| t@) == whitespace_tokens(text@),
{
    text.split_ascii_whitespace().collect()
}

/// `((a * h + b) mod 2^64) >> 32`.
pub open spec fn permute_spec(hash: u64, a: u64, b: u64) -> u32 {
    (((a as int * hash as int + b as int) % 0x1_0000_0000_0000_0000) / 0x1_0000_0000) as u32
}

/// The universal hash `((a * h + b) mod 2^64) >> 32` with wrapping arithmetic.
pub fn permute_hash(hash: u64, a: u64, b: u64) -> (r: u32)
    ensures
        r == permute_spec(hash, a, b),
{
    let p: u64 = a.wrapping_mul(hash);
    let s: u64 = p.wrapping_add(b);
    proof {
        assert(p == (a as int * hash as int) % 0x1_0000_0000_0000_0000);
        assert(s == (p as int + b as int) % 0x1_0000_0000_0000_0000);
        lemma_mod_sum(a as int * hash as int, b as int);
        assert(s >> 32u64 == s / 0x1_0000_0000u64 && s >> 32u64 < 0x1_0000_0000u64) by (bit_vector);
    }
    (s >> 32) as u32
}

proof fn lemma_mod_sum(x: int, y: int)
    requires
        x >= 0,
        y >= 0,
    ensures
        ((x % 0x1_0000_0000_0000_0000) + y) % 0x1_0000_0000_0000_0000 == (x + y)
            % 0x1_0000_0000_0000_0000,
{
    vstd::arithmetic::div_mod::lemma_add_mod_noop(x, y, 0x1_0000_0000_0000_0000);
    vstd::arithmetic::div_mod::lemma_mod_twice(y, 0x1_0000_0000_0000_0000);
    vstd::arithmetic::div_mod::lemma_add_mod_noop(x % 0x1_0000_0000_0000_0000, y, 0x1_0000_0000_0000_0000);
    vstd::arithmetic::div_mod::lemma_mod_twice(x, 0x1_0000_0000_0000_0000);
}


/// Minimum of `permute(h, a, b)` over the hashes, `u32::MAX` when there are none.
pub open spec fn min_permuted(hashes: Seq<u64>, a: u64, b: u64) -> u32
    decreases hashes.len(),
{
    if hashes.len() == 0 {
        u32::MAX
    } else {
        let rest = min_permuted(hashes.drop_last(), a, b);
        let h = permute_spec(hashes.last(), a, b);
        if h < rest { h } else { rest }
    }
}

/// The hashes of a sequence of tokens.
pub open spec fn token_hashes(tokens: Seq<Seq<char>>) -> Seq<u64> {
    tokens.map_values(|t: Seq<char>| fx_str_hash(t))
}

/// The signature of a multiset of token hashes: position `i` holds the
/// minimum under the `i`-th permutation.
pub open spec fn signature_spec(hashes: Seq<u64>, perms: Seq<(u64, u64)>) -> Seq<u32> {
    Seq::new(perms.len(), |i: int| min_permuted(hashes, perms[i].0, perms[i].1))
}

/// Number of positions below `n` at which two sequences agree.
pub open spec fn match_count(x: Seq<u32>, y: Seq<u32>, n: nat) -> nat
    decreases n,
{
    if n == 0 {
        0
    } else {
        match_count(x, y, (n - 1) as nat) + if x[n - 1] == y[n - 1] { 1nat } else { 0nat }
    }
}

/// A signature has one value per permutation.
pub proof fn lemma_signature_length(hashes: Seq<u64>, perms: Seq<(u64, u64)>)
    ensures
        signature_spec(hashes, perms).len() == perms.len(),
{
}

/// The estimated similarity never exceeds one: at most `n` of `n` positions agree.
pub proof fn lemma_jaccard_range(x: Seq<u32>, y: Seq<u32>, n: nat)
    ensures
        match_count(x, y, n) <= n,
    decreases n,
{
    if n > 0 {
        lemma_jaccard_range(x, y, (n - 1) as nat);
    }
}

/// The estimated similarity is symmetric.
pub proof fn lemma_jaccard_symmetric(x: Seq<u32>, y: Seq<u32>, n: nat)
    ensures
        match_count(x, y, n) == match_count(y, x, n),
    decreases n,
{
    if n > 0 {
        lemma_jaccard_symmetric(x, y, (n - 1) as nat);
    }
}

/// A signature agrees with itself everywhere: its similarity to itself is one.
pub proof fn lemma_match_count_self(x: Seq<u32>, n: nat)
    ensures
        match_count(x, x, n) == n,
    decreases n,
{
    if n > 0 {
        lemma_match_count_self(x, (n - 1) as nat);
    }
}

/// A MinHash signature: one 32-bit minimum per permutation.
#[derive(Clone, Debug)]
pub struct MinHash {
    pub hash_values: Vec<u32>,
}

impl MinHash {
    pub open spec fn view(&self) -> Seq<u32> {
        self.hash_values@
    }

    /// Builds the signature of the given tokens under the permutation table.
    pub fn new(items: Vec<&str>, permutations: &Vec<(u64, u64)>) -> (r: MinHash)
        ensures
            r@ == signature_spec(token_hashes(items@.map_values(|t: &str| t@)), permutations@),
    {
        let num_perm = permutations.len();
        let mut hash_values: Vec<u32> = vec![u32::MAX; num_perm];
        let ghost tokens = items@.map_values(|t: &str| t@);
        let ghost hashes = token_hashes(tokens);
        let mut t: usize = 0;
        while t < items.len()
            invariant
                t <= items.len(),
                num_perm == permutations.len(),
                tokens == items@.map_values(|t: &str| t@),
                hashes == token_hashes(tokens),
                hashes.len() == items.len(),
                hash_values@ == signature_spec(hashes.take(t as int), permutations@),
            decreases items.len() - t,
        {
            let item_hash = calculate_hash(items[t]);
            let ghost before = hash_values@;
            proof {
                assert(hashes.take(t as int + 1).drop_last() == hashes.take(t as int));
                assert(hashes.take(t as int + 1).last() == item_hash);
            }
            let mut i: usize = 0;
            while i < num_perm
                invariant
                    t < items.len(),
                    hashes.len() == items.len(),
                    i <= num_perm,
                    num_perm == permutations.len(),
                    hash_values@.len() == num_perm,
                    before == signature_spec(hashes.take(t as int), permutations@),
                    hashes.take(t as int + 1).drop_last() == hashes.take(t as int),
                    hashes.take(t as int + 1).last() == item_hash,
                    forall|k: int| 0 <= k < i ==> hash_values@[k] == min_permuted(
                        hashes.take(t as int + 1), permutations@[k].0, permutations@[k].1),
                    forall|k: int| i <= k < num_perm ==> hash_values@[k] == before[k],
                decreases num_perm - i,
            {
                let (a, b) = permutations[i];
                let h = permute_hash(item_hash, a, b);
                proof {
                    let hs = hashes.take(t as int + 1);
                    assert(min_permuted(hs, a, b) == (if h < before[i as int] { h } else { before[i as int] }));
                }
                if h < hash_values[i] {
                    hash_values.set(i, h);
                }
                i = i + 1;
            }
            proof {
                assert(hash_values@ =~= signature_spec(hashes.take(t as int + 1), permutations@));
            }
            t = t + 1;
        }
        proof {
            assert(hashes.take(t as int) =~= hashes);
        }
        MinHash { hash_values }
    }

    /// The estimated Jaccard similarity: the share of positions at which the
    /// two signatures agree.
    pub fn jaccard_similarity(&self, other: &MinHash) -> (r: Similarity)
        requires
            self@.len() == other@.len(),
        ensures
            r.matches == match_count(self@, other@, self@.len()),
            r.total == self@.len(),
    {
        let mut count: usize = 0;
        let mut i: usize = 0;
        while i < self.hash_values.len()
            invariant
                i <= self.hash_values.len(),
                self@.len() == other@.len(),
                count == match_count(self@, other@, i as nat),
                count <= i,
            decreases self.hash_values.len() - i,
        {
            if self.hash_values[i] == other.hash_values[i] {
                count = count + 1;
            }
            i = i + 1;
        }
        Similarity { matches: count, total: self.hash_values.len() }
    }
}

/// A similarity `matches / total`, kept as a fraction.
#[derive(Clone, Copy, Debug, PartialEq, Eq)]
pub struct Similarity {
    pub matches: usize,
    pub total: usize,
}

/// A similarity threshold `numerator / denominator`, inclusive.
#[derive(Clone, Copy, Debug, PartialEq, Eq)]
pub struct Threshold {
    pub numerator: u64,
    pub denominator: u64,
}

impl Threshold {
    /// A threshold lies in `[0, 1]` and has a positive denominator.
    pub open spec fn wf(&self) -> bool {
        0 < self.denominator && self.numerator <= self.denominator
    }

    /// `matches / total >= numerator / denominator`, with `0 / 0` admitted by nothing.
    pub open spec fn admits_spec(&self, matches: nat, total: nat) -> bool {
        total > 0 && matches * self.denominator >= self.numerator * total
    }

    /// Whether a similarity reaches this threshold.
    pub fn admits(&self, s: Similarity) -> (r: bool)
        ensures
            r == self.admits_spec(s.matches as nat, s.total as nat),
    {
        if s.total == 0 {
            return false;
        }
        proof {
            let m = s.matches as int;
            let d = self.denominator as int;
            let n = self.numerator as int;
            let t = s.total as int;
            assert(m * d <= 0xffff_ffff_ffff_ffff * 0xffff_ffff_ffff_ffff) by (nonlinear_arith)
                requires 0 <= m <= 0xffff_ffff_ffff_ffff, 0 <= d <= 0xffff_ffff_ffff_ffff;
            assert(n * t <= 0xffff_ffff_ffff_ffff * 0xffff_ffff_ffff_ffff) by (nonlinear_arith)
                requires 0 <= n <= 0xffff_ffff_ffff_ffff, 0 <= t <= 0xffff_ffff_ffff_ffff;
        }
        let lhs: u128 = (s.matches as u128) * (self.denominator as u128);
        let rhs: u128 = (self.numerator as u128) * (s.total as u128);
        proof {
            assert(lhs == s.matches as nat * self.denominator as nat);
            assert(rhs == self.numerator as nat * s.total as nat);
        }
        lhs >= rhs
    }
}

} // verus!
