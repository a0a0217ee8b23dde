//! The banded locality-sensitive hashing index over MinHash signatures.
use std::collections::{HashMap, HashSet};
use std::hash::{Hash, Hasher};
use rand::{Rng, SeedableRng};
use rand::rngs::{OsRng, StdRng};
use rustc_hash::FxHasher;
use vstd::prelude::*;
use crate::dto::Record;
use crate::error::{ServiceError, Status};
use crate::minhash::{
    match_count, signature_spec, split_tokens, token_hashes, whitespace_tokens, MinHash,
    Threshold,
};

verus! {

broadcast use vstd::std_specs::hash::group_hash_axioms;

#[verifier::external_type_specification]
#[verifier::external_body]
pub struct ExStdRng(StdRng);

/// What `FxHasher` yields once `Hash::hash_slice` has fed it a band's values.
pub uninterp spec fn band_hash_of(band: Seq<u32>) -> u64;

/// Relies on `rustc_hash::FxHasher` fed through `Hash::hash_slice`: a fixed,
/// unseeded function of the band's values.
#[verifier::external_body]
fn calculate_band_hash(values: &Vec<u32>, start: usize, end: usize) -> (r: u64)
    requires
        start <= end <= values.len(),
    ensures
        r == band_hash_of(values@.subrange(start as int, end as int)),
{
    let mut hasher = FxHasher::default();
    Hash::hash_slice(&values[start..end], &mut hasher);
    hasher.finish()
}

/// Relies on `SeedableRng::from_rng` for `StdRng` with `OsRng`: a generator
/// seeded from the operating system, or the error's message where the system
/// gives no entropy.
#[verifier::external_body]
fn entropy_rng() -> Result<StdRng, String> {
    StdRng::from_rng(OsRng).map_err(|e| e.to_string())
}

/// Relies on `rand::Rng::gen`: a uniformly drawn `u64`.
#[verifier::external_body]
fn random_u64(rng: &mut StdRng) -> u64 {
    rng.gen()
}

/// Draws `k` coefficient pairs `(a, b)` for the permutation family; an
/// internal server error where the generator cannot be seeded.
pub fn new_permutations(k: usize) -> (r: Result<Vec<(u64, u64)>, ServiceError>)
    ensures
        match r {
            Ok(perms) => perms@.len() == k,
            Err(e) => e.status == Status::InternalServerError,
        },
{
    let mut rng = match entropy_rng() {
        Ok(rng) => rng,
        Err(msg) => {
            return Err(ServiceError::internal_server_error(msg.as_str()));
        },
    };
    let mut perms: Vec<(u64, u64)> = Vec::new();
    let mut i: usize = 0;
    while i < k
        invariant
            i <= k,
            perms@.len() == i,
        decreases k - i,
    {
        let a = random_u64(&mut rng);
        let b = random_u64(&mut rng);
        perms.push((a, b));
        i = i + 1;
    }
    Ok(perms)
}

/// The signature of a text under a permutation table.
pub open spec fn record_signature(text: Seq<char>, perms: Seq<(u64, u64)>) -> Seq<u32> {
    signature_spec(token_hashes(whitespace_tokens(text)), perms)
}

/// The hash of band `j` of a signature cut in bands of `r` values.
pub open spec fn band_key(sig: Seq<u32>, r: nat, j: int) -> u64 {
    band_hash_of(sig.subrange(j * r, j * r + r))
}

/// Two signatures agree on the hash of band `j`.
pub open spec fn band_match(x: Seq<u32>, y: Seq<u32>, r: nat, j: int) -> bool {
    band_key(x, r, j) == band_key(y, r, j)
}

/// Two signatures agree on the hash of some band below `m`.
pub open spec fn collides(x: Seq<u32>, y: Seq<u32>, r: nat, m: int) -> bool {
    exists|j: int| 0 <= j < m && #[trigger] band_match(x, y, r, j)
}

/// A signature collides with itself as soon as there is a band.
pub proof fn lemma_collides_self(x: Seq<u32>, r: nat, m: int)
    requires
        m > 0,
    ensures
        collides(x, x, r, m),
{
    assert(band_match(x, x, r, 0));
}

/// Cutting bands into narrower ones never loses a candidate: when `b2` is a
/// multiple of `b1` and divides the signature length, two signatures that
/// share a band hash under `b1` bands share one under `b2` bands, provided
/// the band hash does not make two different bands of `x` and `y` collide.
pub proof fn lemma_more_bands_keep_collisions(x: Seq<u32>, y: Seq<u32>, k: nat, b1: nat, b2: nat)
    requires
        x.len() == k,
        y.len() == k,
        b1 > 0,
        b2 > 0,
        k % b2 == 0,
        b2 % b1 == 0,
        forall|j: int| 0 <= j < b1 && #[trigger] band_match(x, y, k / b1, j) ==>
            x.subrange(j * (k / b1) as int, j * (k / b1) as int + (k / b1) as int)
            == y.subrange(j * (k / b1) as int, j * (k / b1) as int + (k / b1) as int),
        collides(x, y, k / b1, b1 as int),
    ensures
        collides(x, y, k / b2, b2 as int),
{
    let r1 = (k / b1) as int;
    let r2 = (k / b2) as int;
    let m = (b2 / b1) as int;
    vstd::arithmetic::div_mod::lemma_fundamental_div_mod(k as int, b2 as int);
    vstd::arithmetic::div_mod::lemma_fundamental_div_mod(b2 as int, b1 as int);
    assert(k == b2 * r2);
    assert(b2 == b1 * m);
    assert(k == b1 * (m * r2)) by (nonlinear_arith)
        requires k == b2 * r2, b2 == b1 * m;
    vstd::arithmetic::div_mod::lemma_div_multiples_vanish(m * r2, b1 as int);
    assert(r1 == m * r2);
    assert(m >= 1) by (nonlinear_arith)
        requires b2 == b1 * m, b1 > 0, b2 > 0;
    assert(r2 >= 0);
    let j = choose|j: int| 0 <= j < b1 && #[trigger] band_match(x, y, r1 as nat, j);
    lemma_band_bounds(j, r1, b1 as int);
    assert(b1 * r1 == k) by (nonlinear_arith)
        requires k == b1 * (m * r2), r1 == m * r2;
    let jj = j * m;
    assert(jj * r2 == j * r1) by (nonlinear_arith)
        requires r1 == m * r2, jj == j * m;
    assert(0 <= jj < b2) by (nonlinear_arith)
        requires 0 <= j < b1, m >= 1, b2 == b1 * m, jj == j * m;
    assert(r2 <= r1) by (nonlinear_arith)
        requires r1 == m * r2, m >= 1, r2 >= 0;
    let bx = x.subrange(j * r1, j * r1 + r1);
    let by_ = y.subrange(j * r1, j * r1 + r1);
    assert(bx == by_);
    assert(x.subrange(jj * r2, jj * r2 + r2) =~= y.subrange(jj * r2, jj * r2 + r2)) by {
        assert forall|t: int| 0 <= t < r2 implies #[trigger] x.subrange(jj * r2, jj * r2 + r2)[t]
            == y.subrange(jj * r2, jj * r2 + r2)[t] by {
            assert(bx[t] == by_[t]);
        }
    }
    assert(band_match(x, y, r2 as nat, jj));
}

/// A bucket of band `j` under hash `h`: strictly increasing record indices
/// below `n`, each of a record whose band `j` hashes to `h`.
pub open spec fn bucket_ok(b: Seq<usize>, sigs: Seq<Seq<u32>>, r: nat, j: int, h: u64, n: int) -> bool {
    &&& forall|p: int| 0 <= p < b.len() ==> b[p] < n && band_key(sigs[b[p] as int], r, j) == h
    &&& forall|p: int, q: int| 0 <= p < q < b.len() ==> b[p] < b[q]
}

/// The table of band `j` holds each of the first `n` records under its band
/// hash, and nothing else.
pub open spec fn table_ok(t: Map<u64, Vec<usize>>, sigs: Seq<Seq<u32>>, r: nat, j: int, n: int) -> bool {
    &&& forall|i: int| 0 <= i < n ==> #[trigger] t.contains_key(band_key(sigs[i], r, j))
        && t[band_key(sigs[i], r, j)]@.contains(i as usize)
    &&& forall|h: u64| #[trigger] t.contains_key(h) ==> bucket_ok(t[h]@, sigs, r, j, h, n)
}

proof fn lemma_band_bounds(j: int, r: int, nb: int)
    requires
        0 <= j < nb,
        0 <= r,
    ensures
        0 <= j * r,
        j * r + r <= nb * r,
{
    assert(j * r + r <= nb * r) by (nonlinear_arith)
        requires 0 <= j < nb, 0 <= r;
    assert(0 <= j * r) by (nonlinear_arith)
        requires 0 <= j, 0 <= r;
}

/// An index of signatures: one hash table per band, from the band's hash to
/// the records whose band hashes to it.
pub struct MinHashLSH {
    /// The signature of each record, by the record's position.
    pub minhash_map: Vec<MinHash>,
    /// Signature values per band.
    pub band_size: usize,
    /// One table per band, from a band hash to the records that have it.
    pub hash_tables: Vec<HashMap<u64, Vec<usize>>>,
}

impl MinHashLSH {
    /// Values per band.
    pub open spec fn band_size_spec(&self) -> nat {
        self.band_size as nat
    }

    /// Number of bands.
    pub open spec fn num_bands_spec(&self) -> nat {
        self.hash_tables@.len()
    }

    pub open spec fn num_perm_spec(&self) -> nat {
        self.band_size_spec() * self.num_bands_spec()
    }

    pub open spec fn signatures(&self) -> Seq<Seq<u32>> {
        self.minhash_map@.map_values(|m: MinHash| m@)
    }

    pub open spec fn tables_wf(&self) -> bool {
        forall|j: int| 0 <= j < self.hash_tables.len() ==> table_ok(
            #[trigger] self.hash_tables@[j]@, self.signatures(), self.band_size as nat, j,
            self.minhash_map.len() as int)
    }

    pub open spec fn wf(&self) -> bool {
        &&& self.band_size_spec() > 0
        &&& self.num_bands_spec() > 0
        &&& forall|i: int| 0 <= i < self.minhash_map.len() ==> (#[trigger] self.minhash_map@[i])@.len()
            == self.num_perm_spec()
        &&& self.tables_wf()
    }

    /// Whether record `i` is returned for a query signature: it shares a band
    /// hash with the query and, under a threshold, is similar enough.
    pub open spec fn is_match(&self, sig: Seq<u32>, i: int, threshold: Option<Threshold>) -> bool {
        &&& 0 <= i < self.minhash_map.len()
        &&& collides(sig, self.signatures()[i], self.band_size_spec(), self.num_bands_spec() as int)
        &&& match threshold {
            None => true,
            Some(t) => t.admits_spec(match_count(sig, self.signatures()[i], sig.len()), sig.len()),
        }
    }

    /// A labelling of records that agrees between each record and every record
    /// returned for its signature.
    pub open spec fn respected_by(&self, threshold: Option<Threshold>, f: spec_fn(usize) -> int) -> bool {
        forall|a: usize, b: usize| a < self.minhash_map.len()
            && #[trigger] self.is_match(self.signatures()[a as int], b as int, threshold) ==> f(a) == f(b)
    }

    /// The match relation: `b` is returned for the signature of record `a`.
    pub open spec fn match_relation(&self, threshold: Option<Threshold>) -> spec_fn(usize, usize) -> bool {
        |a: usize, b: usize| a < self.minhash_map.len() && self.is_match(self.signatures()[a as int], b as int, threshold)
    }

    /// Builds the index with a freshly drawn permutation table. Band counts
    /// that do not divide the signature length are a bad request; a generator
    /// that cannot be seeded is an internal server error.
    pub fn new(records: &Vec<Record>, num_perm: usize, num_bands: usize) -> (r: Result<MinHashLSH, ServiceError>)
        ensures
            match r {
                Ok(lsh) => valid_bands(num_perm, num_bands) && exists|perms: Seq<(u64, u64)>| perms.len() == num_perm
                    && #[trigger] lsh.indexes(records@, perms, num_perm, num_bands),
                Err(e) => {
                    &&& (e.status == Status::BadRequest <==> !valid_bands(num_perm, num_bands))
                    &&& (e.status == Status::BadRequest || e.status == Status::InternalServerError)
                },
            },
    {
        if !check_bands(num_perm, num_bands) {
            return Err(ServiceError::bad_request("numPerm must be a positive multiple of numBands"));
        }
        let permutations = match new_permutations(num_perm) {
            Ok(p) => p,
            Err(e) => {
                return Err(e);
            },
        };
        Self::with_permutations(records, &permutations, num_bands)
    }

    /// The index holds exactly the signatures of the records under `perms`,
    /// cut in `num_bands` bands.
    pub open spec fn indexes(&self, records: Seq<Record>, perms: Seq<(u64, u64)>, num_perm: usize, num_bands: usize) -> bool {
        &&& self.wf()
        &&& self.num_bands_spec() == num_bands
        &&& self.num_perm_spec() == num_perm
        &&& self.minhash_map.len() == records.len()
        &&& forall|i: int| 0 <= i < records.len() ==> #[trigger] self.signatures()[i]
            == record_signature(records[i].text@, perms)
    }

    /// Builds the index over a given permutation table.
    pub fn with_permutations(records: &Vec<Record>, permutations: &Vec<(u64, u64)>, num_bands: usize)
        -> (r: Result<MinHashLSH, ServiceError>)
        ensures
            r is Ok <==> valid_bands(permutations@.len() as usize, num_bands),
            match r {
                Ok(lsh) => lsh.indexes(records@, permutations@, permutations@.len() as usize, num_bands),
                Err(e) => e.status == Status::BadRequest,
            },
    {
        let num_perm = permutations.len();
        if !check_bands(num_perm, num_bands) {
            return Err(ServiceError::bad_request("numPerm must be a positive multiple of numBands"));
        }
        let band_size = num_perm / num_bands;
        proof {
            vstd::arithmetic::div_mod::lemma_fundamental_div_mod(num_perm as int, num_bands as int);
            assert(num_bands * band_size == num_perm);
            vstd::arithmetic::mul::lemma_mul_is_commutative(num_bands as int, band_size as int);
            assert(band_size > 0) by (nonlinear_arith)
                requires band_size * num_bands == num_perm, num_perm > 0, band_size >= 0;
        }
        let n = records.len();
        let mut minhash_map: Vec<MinHash> = Vec::new();
        let mut i: usize = 0;
        while i < n
            invariant
                n == records.len(),
                i <= n,
                minhash_map.len() == i,
                forall|k: int| 0 <= k < i ==> (#[trigger] minhash_map@[k])@
                    == record_signature(records@[k].text@, permutations@),
            decreases n - i,
        {
            let items = split_tokens(records[i].text.as_str());
            let minhash = MinHash::new(items, permutations);
            minhash_map.push(minhash);
            i = i + 1;
        }
        let ghost sigs = minhash_map@.map_values(|m: MinHash| m@);
        let mut hash_tables: Vec<HashMap<u64, Vec<usize>>> = Vec::new();
        let mut j: usize = 0;
        while j < num_bands
            invariant
                n == records.len(),
                minhash_map.len() == n,
                sigs == minhash_map@.map_values(|m: MinHash| m@),
                forall|k: int| 0 <= k < n ==> (#[trigger] minhash_map@[k])@
                    == record_signature(records@[k].text@, permutations@),
                band_size * num_bands == num_perm,
                num_perm == permutations.len(),
                j <= num_bands,
                hash_tables.len() == j,
                forall|k: int| 0 <= k < j ==> table_ok(#[trigger] hash_tables@[k]@, sigs, band_size as nat, k, n as int),
            decreases num_bands - j,
        {
            proof {
                lemma_band_bounds(j as int, band_size as int, num_bands as int);
            }
            let start = j * band_size;
            let end = start + band_size;
            let mut table: HashMap<u64, Vec<usize>> = HashMap::new();
            let mut i: usize = 0;
            while i < n
                invariant
                    n == records.len(),
                    minhash_map.len() == n,
                    sigs == minhash_map@.map_values(|m: MinHash| m@),
                    forall|k: int| 0 <= k < n ==> (#[trigger] minhash_map@[k])@
                        == record_signature(records@[k].text@, permutations@),
                    num_perm == permutations.len(),
                    start == j * band_size,
                    end == start + band_size,
                    end <= num_perm,
                    i <= n,
                    table_ok(table@, sigs, band_size as nat, j as int, i as int),
                decreases n - i,
            {
                assert(sigs[i as int] == minhash_map@[i as int]@);
                let key = calculate_band_hash(&minhash_map[i].hash_values, start, end);
                assert(key == band_key(sigs[i as int], band_size as nat, j as int));
                let mut bucket: Vec<usize> = match table.remove(&key) {
                    Some(b) => b,
                    None => Vec::new(),
                };
                let ghost old_bucket = bucket@;
                bucket.push(i);
                let ghost old_table = table@;
                table.insert(key, bucket);
                proof {
                    let t = table@;
                    let r = band_size as nat;
                    assert forall|h: u64| #[trigger] t.contains_key(h) implies bucket_ok(t[h]@, sigs, r, j as int, h, i as int + 1) by {
                        if h != key {
                            assert(old_table.contains_key(h));
                        }
                    }
                    assert forall|k: int| 0 <= k < i + 1 implies #[trigger] t.contains_key(band_key(sigs[k], r, j as int))
                        && t[band_key(sigs[k], r, j as int)]@.contains(k as usize) by {
                        if k < i {
                            let kk = band_key(sigs[k], r, j as int);
                            if kk == key {
                                let p = choose|p: int| 0 <= p < old_bucket.len() && old_bucket[p] == k as usize;
                                assert(t[kk]@[p] == k as usize);
                            } else {
                                assert(old_table.contains_key(kk));
                            }
                        } else {
                            assert(t[key]@[old_bucket.len() as int] == i);
                        }
                    }
                }
                i = i + 1;
            }
            hash_tables.push(table);
            j = j + 1;
        }
        let lsh = MinHashLSH { minhash_map, band_size, hash_tables };
        proof {
            assert(lsh.signatures() == sigs);
        }
        Ok(lsh)
    }

    /// The records that share a band hash with the signature, each once;
    /// under a threshold, only those whose similarity reaches it.
    pub fn query(&self, minhash: &MinHash, threshold: Option<Threshold>) -> (r: Vec<usize>)
        requires
            self.wf(),
            minhash@.len() == self.num_perm_spec(),
        ensures
            r@.no_duplicates(),
            forall|i: usize| r@.contains(i) <==> self.is_match(minhash@, i as int, threshold),
    {
        let n = self.minhash_map.len();
        let nb = self.hash_tables.len();
        let total = minhash.hash_values.len();
        let ghost sigs = self.signatures();
        let ghost rs = self.band_size as nat;
        let mut seen: HashSet<usize> = HashSet::new();
        let mut candidates: Vec<usize> = Vec::new();
        let mut j: usize = 0;
        while j < nb
            invariant
                self.wf(),
                n == self.minhash_map.len(),
                nb == self.hash_tables.len(),
                sigs == self.signatures(),
                rs == self.band_size as nat,
                minhash@.len() == self.num_perm_spec(),
                total == minhash@.len(),
                j <= nb,
                candidates@.no_duplicates(),
                forall|x: usize| seen@.contains(x) <==> candidates@.contains(x),
                forall|x: usize| candidates@.contains(x) <==> (x < n && collides(minhash@, sigs[x as int], rs, j as int)),
            decreases nb - j,
        {
            proof {
                lemma_band_bounds(j as int, self.band_size as int, nb as int);
                vstd::arithmetic::mul::lemma_mul_is_commutative(nb as int, self.band_size as int);
            }
            let start = j * self.band_size;
            let key = calculate_band_hash(&minhash.hash_values, start, start + self.band_size);
            assert(key == band_key(minhash@, rs, j as int));
            assert(table_ok(self.hash_tables@[j as int]@, sigs, rs, j as int, n as int));
            let ghost before = candidates@;
            match self.hash_tables[j].get(&key) {
                Some(bucket) => {
                    assert(bucket_ok(bucket@, sigs, rs, j as int, key, n as int));
                    let mut p: usize = 0;
                    while p < bucket.len()
                        invariant
                            p <= bucket.len(),
                            candidates@.no_duplicates(),
                            forall|x: usize| seen@.contains(x) <==> candidates@.contains(x),
                            forall|x: usize| #[trigger] candidates@.contains(x) <==> (before.contains(x) || bucket@.take(p as int).contains(x)),
                        decreases bucket.len() - p,
                    {
                        let x = bucket[p];
                        assert(bucket@.take(p as int + 1) =~= bucket@.take(p as int).push(x));
                        proof { lemma_push_contains(bucket@.take(p as int), x); }
                        let ghost c0 = candidates@;
                        let ghost tk = bucket@.take(p as int);
                        assert(forall|y: usize| c0.contains(y) <==> (before.contains(y) || tk.contains(y)));
                        assert forall|y: usize| #[trigger] bucket@.take(p as int + 1).contains(y) <==> (tk.contains(y) || y == x) by {
                            assert(bucket@.take(p as int + 1) == tk.push(x));
                            assert(tk.push(x).contains(y) <==> (tk.contains(y) || y == x));
                        }
                        if !seen.contains(&x) {
                            proof { lemma_push_contains(candidates@, x); }
                            seen.insert(x);
                            candidates.push(x);
                        }
                        proof {
                            assert forall|y: usize| candidates@.contains(y) <==> (before.contains(y)
                                || bucket@.take(p as int + 1).contains(y)) by {
                                assert(c0.contains(y) <==> (before.contains(y) || tk.contains(y)));
                                assert(bucket@.take(p as int + 1).contains(y) <==> (tk.contains(y) || y == x));
                                assert(seen@.contains(y) <==> candidates@.contains(y));
                            }
                        }
                        p = p + 1;
                    }
                    proof {
                        assert(bucket@.take(p as int) =~= bucket@);
                        assert(self.hash_tables@[j as int]@[key] == *bucket);
                        assert forall|x: usize| candidates@.contains(x) <==> (x < n && collides(minhash@, sigs[x as int], rs, j as int + 1)) by {
                            lemma_collides_step(minhash@, sigs[x as int], rs, j as int);
                            if bucket@.contains(x) {
                                let p = choose|p: int| 0 <= p < bucket@.len() && bucket@[p] == x;
                                assert(band_key(sigs[x as int], rs, j as int) == key);
                            }
                            if x < n && band_key(sigs[x as int], rs, j as int) == key {
                                assert(self.hash_tables@[j as int]@[key]@.contains(x));
                            }
                        }
                    }
                }
                None => {
                    proof {
                        assert forall|x: usize| candidates@.contains(x) <==> (x < n && collides(minhash@, sigs[x as int], rs, j as int + 1)) by {
                            lemma_collides_step(minhash@, sigs[x as int], rs, j as int);
                            if x < n && band_key(sigs[x as int], rs, j as int) == key {
                                assert(self.hash_tables@[j as int]@.contains_key(band_key(sigs[x as int], rs, j as int)));
                            }
                        }
                    }
                }
            }
            j = j + 1;
        }
        let mut result: Vec<usize> = Vec::new();
        let mut p: usize = 0;
        while p < candidates.len()
            invariant
                self.wf(),
                n == self.minhash_map.len(),
                sigs == self.signatures(),
                sigs.len() == n,
                minhash@.len() == self.num_perm_spec(),
                p <= candidates.len(),
                candidates@.no_duplicates(),
                forall|x: usize| candidates@.contains(x) ==> x < n,
                result@.no_duplicates(),
                forall|x: usize| result@.contains(x) <==> (candidates@.take(p as int).contains(x) && match threshold {
                    None => true,
                    Some(t) => t.admits_spec(match_count(minhash@, sigs[x as int], minhash@.len()), minhash@.len()),
                }),
            decreases candidates.len() - p,
        {
            let x = candidates[p];
            assert(candidates@.contains(x));
            assert(candidates@.take(p as int + 1) =~= candidates@.take(p as int).push(x));
            proof { lemma_push_contains(candidates@.take(p as int), x); }
            assert(!candidates@.take(p as int).contains(x));
            let keep = match threshold {
                None => true,
                Some(t) => {
                    assert(self.minhash_map@[x as int]@ == sigs[x as int]);
                    t.admits(minhash.jaccard_similarity(&self.minhash_map[x]))
                }
            };
            let ghost r0 = result@;
            let ghost pass = match threshold {
                None => true,
                Some(t) => t.admits_spec(match_count(minhash@, sigs[x as int], minhash@.len()), minhash@.len()),
            };
            assert(keep == pass);
            if keep {
                proof { lemma_push_contains(result@, x); }
                result.push(x);
            }
            proof {
                assert forall|y: usize| result@.contains(y) <==> (candidates@.take(p as int + 1).contains(y) && match threshold {
                    None => true,
                    Some(t) => t.admits_spec(match_count(minhash@, sigs[y as int], minhash@.len()), minhash@.len()),
                }) by {
                    assert(candidates@.take(p as int + 1).contains(y) <==> (candidates@.take(p as int).contains(y) || y == x));
                    assert(r0.contains(y) <==> (candidates@.take(p as int).contains(y) && match threshold {
                        None => true,
                        Some(t) => t.admits_spec(match_count(minhash@, sigs[y as int], minhash@.len()), minhash@.len()),
                    }));
                }
            }
            p = p + 1;
        }
        proof {
            assert(candidates@.take(p as int) == candidates@);
        }
        result
    }
}

proof fn lemma_collides_step(x: Seq<u32>, y: Seq<u32>, r: nat, j: int)
    requires
        0 <= j,
    ensures
        collides(x, y, r, j + 1) <==> (collides(x, y, r, j) || band_key(x, r, j) == band_key(y, r, j)),
{
    if collides(x, y, r, j + 1) {
        let k = choose|k: int| 0 <= k < j + 1 && #[trigger] band_match(x, y, r, k);
        if k < j {
            assert(band_match(x, y, r, k));
        }
    }
    if collides(x, y, r, j) {
        let k = choose|k: int| 0 <= k < j && #[trigger] band_match(x, y, r, k);
        assert(band_match(x, y, r, k));
    }
    if band_key(x, r, j) == band_key(y, r, j) {
        assert(band_match(x, y, r, j));
    }
}

proof fn lemma_push_contains<A>(s: Seq<A>, a: A)
    ensures
        forall|y: A| s.push(a).contains(y) <==> (s.contains(y) || y == a),
        s.no_duplicates() && !s.contains(a) ==> s.push(a).no_duplicates(),
{
    assert forall|y: A| s.push(a).contains(y) <==> (s.contains(y) || y == a) by {
        if y == a {
            assert(s.push(a)[s.len() as int] == a);
        }
        if s.contains(y) {
            let k = choose|k: int| 0 <= k < s.len() && s[k] == y;
            assert(s.push(a)[k] == y);
        }
        if s.push(a).contains(y) {
            let k = choose|k: int| 0 <= k < s.len() + 1 && s.push(a)[k] == y;
            if k < s.len() {
                assert(s[k] == y);
            }
        }
    }
    if s.no_duplicates() && !s.contains(a) {
        assert forall|i: int, j: int| 0 <= i < s.len() + 1 && 0 <= j < s.len() + 1 && i != j
            implies s.push(a)[i] != s.push(a)[j] by {
            if i < s.len() && j == s.len() {
                assert(s.contains(s[i]));
            }
            if j < s.len() && i == s.len() {
                assert(s.contains(s[j]));
            }
        }
    }
}

/// `num_bands` divides `num_perm`, and both are positive.
pub open spec fn valid_bands(num_perm: usize, num_bands: usize) -> bool {
    num_bands > 0 && num_perm > 0 && num_perm % num_bands == 0
}

/// Whether a signature length can be cut into the given number of bands.
pub fn check_bands(num_perm: usize, num_bands: usize) -> (r: bool)
    ensures
        r == valid_bands(num_perm, num_bands),
{
    num_bands > 0 && num_perm > 0 && num_perm % num_bands == 0
}

} // verus!
