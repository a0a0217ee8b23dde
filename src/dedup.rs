//! Incremental clustering of query results into disjoint groups.
use vstd::prelude::*;
use crate::lsh::MinHashLSH;
use crate::minhash::{lemma_match_count_self, Threshold};

verus! {

/// Query results as values: each record with the records returned for it.
pub open spec fn results_view(qs: Seq<(usize, Vec<usize>)>) -> Seq<(usize, Seq<usize>)> {
    qs.map_values(|e: (usize, Vec<usize>)| (e.0, e.1@))
}

/// Each queried record is below `n`, is among its own results, and every
/// result is below `n`.
pub open spec fn results_ok(qs: Seq<(usize, Seq<usize>)>, n: nat) -> bool {
    forall|k: int| 0 <= k < qs.len() ==> {
        &&& (#[trigger] qs[k]).0 < n
        &&& qs[k].1.contains(qs[k].0)
        &&& forall|p: int| 0 <= p < qs[k].1.len() ==> qs[k].1[p] < n
    }
}

/// `y` was returned for a query of `x`.
pub open spec fn linked(qs: Seq<(usize, Seq<usize>)>, x: usize, y: usize) -> bool {
    exists|k: int| 0 <= k < qs.len() && (#[trigger] qs[k]).0 == x && qs[k].1.contains(y)
}

/// `x` was returned for some query.
pub open spec fn mentioned(qs: Seq<(usize, Seq<usize>)>, x: usize) -> bool {
    exists|k: int| 0 <= k < qs.len() && (#[trigger] qs[k]).1.contains(x)
}

/// `x` joins the cluster `target` while the results `cs` are merged into it:
/// it was there, it is one of them, or it shared a cluster with one of them.
pub open spec fn absorbed(lookup: Seq<Option<usize>>, cs: Seq<usize>, target: usize, x: int) -> bool {
    ||| lookup[x] == Some(target)
    ||| cs.contains(x as usize)
    ||| exists|j: int| 0 <= j < cs.len() && (#[trigger] lookup[cs[j] as int]) is Some
        && lookup[x] == lookup[cs[j] as int]
}

/// The lookup after merging `cs` into `target`.
pub open spec fn merged(lookup: Seq<Option<usize>>, cs: Seq<usize>, target: usize) -> Seq<Option<usize>> {
    Seq::new(lookup.len(), |x: int| if absorbed(lookup, cs, target, x) { Some(target) } else { lookup[x] })
}

proof fn lemma_absorbed_push(lookup: Seq<Option<usize>>, pre: Seq<usize>, c: usize, target: usize, x: int)
    requires
        lookup.len() <= usize::MAX,
        0 <= x < lookup.len(),
        c < lookup.len(),
    ensures
        absorbed(lookup, pre.push(c), target, x) == (absorbed(lookup, pre, target, x) || x == c as int
            || (lookup[c as int] is Some && lookup[x] == lookup[c as int])),
{
    let post = pre.push(c);
    assert(post[pre.len() as int] == c);
    assert(lookup[post[pre.len() as int] as int] == lookup[c as int]);
    if post.contains(x as usize) {
        let k = choose|k: int| 0 <= k < post.len() && post[k] == x as usize;
        if k < pre.len() {
            assert(pre[k] == x as usize);
        }
    }
    if pre.contains(x as usize) {
        let k = choose|k: int| 0 <= k < pre.len() && pre[k] == x as usize;
        assert(post[k] == x as usize);
    }
    if x == c as int {
        assert(post.contains(c));
    }
    if exists|j: int| 0 <= j < post.len() && (#[trigger] lookup[post[j] as int]) is Some
        && lookup[x] == lookup[post[j] as int] {
        let j = choose|j: int| 0 <= j < post.len() && (#[trigger] lookup[post[j] as int]) is Some
            && lookup[x] == lookup[post[j] as int];
        if j < pre.len() {
            assert(pre[j] == post[j]);
            assert(lookup[pre[j] as int] is Some);
        }
    }
    if exists|j: int| 0 <= j < pre.len() && (#[trigger] lookup[pre[j] as int]) is Some
        && lookup[x] == lookup[pre[j] as int] {
        let j = choose|j: int| 0 <= j < pre.len() && (#[trigger] lookup[pre[j] as int]) is Some
            && lookup[x] == lookup[pre[j] as int];
        assert(post[j] == pre[j]);
        assert(lookup[post[j] as int] is Some);
    }
}

/// A record that shares its original cluster with an absorbed one is absorbed.
proof fn lemma_absorbed_closed(lookup: Seq<Option<usize>>, pre: Seq<usize>, target: usize, c: int, x: int)
    requires
        lookup.len() <= usize::MAX,
        0 <= x < lookup.len(),
        0 <= c < lookup.len(),
        absorbed(lookup, pre, target, c),
        lookup[c] is Some,
        lookup[x] == lookup[c],
    ensures
        absorbed(lookup, pre, target, x),
{
    if pre.contains(c as usize) {
        let k = choose|k: int| 0 <= k < pre.len() && pre[k] == c as usize;
        assert(lookup[pre[k] as int] is Some);
    }
    if exists|j: int| 0 <= j < pre.len() && (#[trigger] lookup[pre[j] as int]) is Some
        && lookup[c] == lookup[pre[j] as int] {
        let j = choose|j: int| 0 <= j < pre.len() && (#[trigger] lookup[pre[j] as int]) is Some
            && lookup[c] == lookup[pre[j] as int];
        assert(lookup[pre[j] as int] is Some);
    }
}

/// Records that shared a cluster before a merge still share one after it.
proof fn lemma_absorbed_same(lookup: Seq<Option<usize>>, cs: Seq<usize>, target: usize, x: int, y: int)
    requires
        lookup.len() <= usize::MAX,
        0 <= x < lookup.len(),
        0 <= y < lookup.len(),
        lookup[x] is Some,
        lookup[x] == lookup[y],
    ensures
        absorbed(lookup, cs, target, x) == absorbed(lookup, cs, target, y),
{
    if absorbed(lookup, cs, target, x) {
        lemma_absorbed_closed(lookup, cs, target, x, y);
    }
    if absorbed(lookup, cs, target, y) {
        lemma_absorbed_closed(lookup, cs, target, y, x);
    }
}

proof fn lemma_prefix_step(pre: Seq<(usize, Seq<usize>)>, e: (usize, Seq<usize>), x: usize, y: usize)
    ensures
        linked(pre.push(e), x, y) == (linked(pre, x, y) || (e.0 == x && e.1.contains(y))),
        mentioned(pre.push(e), x) == (mentioned(pre, x) || e.1.contains(x)),
{
    let post = pre.push(e);
    assert(post[pre.len() as int] == e);
    if linked(post, x, y) {
        let k = choose|k: int| 0 <= k < post.len() && (#[trigger] post[k]).0 == x && post[k].1.contains(y);
        if k < pre.len() {
            assert(pre[k] == post[k]);
        }
    }
    if linked(pre, x, y) {
        let k = choose|k: int| 0 <= k < pre.len() && (#[trigger] pre[k]).0 == x && pre[k].1.contains(y);
        assert(pre[k] == post[k]);
    }
    if mentioned(post, x) {
        let k = choose|k: int| 0 <= k < post.len() && (#[trigger] post[k]).1.contains(x);
        if k < pre.len() {
            assert(pre[k] == post[k]);
        }
    }
    if mentioned(pre, x) {
        let k = choose|k: int| 0 <= k < pre.len() && (#[trigger] pre[k]).1.contains(x);
        assert(pre[k] == post[k]);
    }
}

/// Every record of an index is returned for its own signature.
pub proof fn lemma_self_match(lsh: &MinHashLSH, i: int, threshold: Option<Threshold>)
    requires
        lsh.wf(),
        0 <= i < lsh.minhash_map.len(),
        threshold matches Some(t) ==> t.wf(),
    ensures
        lsh.is_match(lsh.signatures()[i], i, threshold),
{
    let sig = lsh.signatures()[i];
    assert(sig == lsh.minhash_map@[i]@);
    let r = lsh.band_size_spec();
    lemma_match_count_self(sig, sig.len());
    let nb = lsh.num_bands_spec();
    assert(r * nb > 0) by (nonlinear_arith)
        requires r > 0, nb > 0;
    assert(sig.len() == r * nb);
    crate::lsh::lemma_collides_self(sig, r, nb as int);
    if let Some(t) = threshold {
        let len = sig.len();
        assert(len * t.denominator >= t.numerator * len) by (nonlinear_arith)
            requires t.numerator <= t.denominator;
        assert(t.admits_spec(crate::minhash::match_count(sig, sig, len), len));
    }
}

/// Clusters listed as groups of record indices: non-empty, each strictly
/// increasing, each holding the records of one cluster, no two of the same
/// cluster, and every clustered record in one of them.
pub open spec fn grouped_ok(lookup: Seq<Option<usize>>, groups: Seq<Seq<usize>>) -> bool {
    &&& forall|i: int| 0 <= i < groups.len() ==> (#[trigger] groups[i]).len() > 0
    &&& forall|i: int, p: int| 0 <= i < groups.len() && 0 <= p < groups[i].len() ==>
        #[trigger] groups[i][p] < lookup.len() && lookup[groups[i][p] as int] is Some
        && lookup[groups[i][p] as int] == lookup[groups[i][0] as int]
    &&& forall|i: int, p: int, q: int| 0 <= i < groups.len() && 0 <= p < q < groups[i].len() ==>
        #[trigger] groups[i][p] < #[trigger] groups[i][q]
    &&& forall|i: int, j: int| 0 <= i < groups.len() && 0 <= j < groups.len() && i != j ==>
        lookup[(#[trigger] groups[i])[0] as int] != lookup[(#[trigger] groups[j])[0] as int]
    &&& forall|x: int| 0 <= x < lookup.len() && #[trigger] lookup[x] is Some ==>
        exists|i: int, p: int| 0 <= i < groups.len() && 0 <= p < groups[i].len() && #[trigger] groups[i][p] == x as usize
}

/// Two records are below the lookup's length and share a cluster.
pub open spec fn joined(lookup: Seq<Option<usize>>, x: usize, y: usize) -> bool {
    &&& x < lookup.len()
    &&& y < lookup.len()
    &&& lookup[x as int] is Some
    &&& lookup[x as int] == lookup[y as int]
}

/// A clustering of `n` records that the results bring about: a record is
/// clustered exactly when some result names it, and each result shares the
/// cluster of its query.
pub open spec fn clustering_of(qs: Seq<(usize, Seq<usize>)>, n: nat, lookup: Seq<Option<usize>>) -> bool {
    &&& lookup.len() == n
    &&& forall|x: usize| x < n ==> (#[trigger] lookup[x as int] is Some <==> mentioned(qs, x))
    &&& forall|x: usize, y: usize| #[trigger] linked(qs, x, y) ==> joined(lookup, x, y)
    &&& finest(qs, lookup)
}

/// A labelling of records that agrees across every result.
pub open spec fn respects(qs: Seq<(usize, Seq<usize>)>, f: spec_fn(usize) -> int) -> bool {
    forall|x: usize, y: usize| #[trigger] linked(qs, x, y) ==> f(x) == f(y)
}

/// Clusters join no more than the results force: every labelling that
/// agrees across the results agrees within each cluster. Together with the
/// clause that results share clusters, a cluster is exactly a connected
/// component of the graph of results.
pub open spec fn finest(qs: Seq<(usize, Seq<usize>)>, lookup: Seq<Option<usize>>) -> bool {
    forall|f: spec_fn(usize) -> int, x: usize, y: usize|
        #[trigger] respects(qs, f) && #[trigger] joined(lookup, x, y) ==> f(x) == f(y)
}

/// The emitted clusters are pairwise disjoint, and together they hold
/// exactly the records that some result names.
pub proof fn lemma_clusters_partition(qs: Seq<(usize, Seq<usize>)>, n: nat, lookup: Seq<Option<usize>>, groups: Seq<Seq<usize>>)
    requires
        clustering_of(qs, n, lookup),
        grouped_ok(lookup, groups),
    ensures
        forall|i: int, j: int, x: usize| 0 <= i < j < groups.len() ==>
            !(#[trigger] groups[i].contains(x) && #[trigger] groups[j].contains(x)),
        forall|x: usize| (exists|i: int| 0 <= i < groups.len() && #[trigger] groups[i].contains(x))
            <==> (x < n && mentioned(qs, x)),
{
    assert forall|i: int, j: int, x: usize| 0 <= i < j < groups.len() implies
        !(#[trigger] groups[i].contains(x) && #[trigger] groups[j].contains(x)) by {
        if groups[i].contains(x) && groups[j].contains(x) {
            let p = choose|p: int| 0 <= p < groups[i].len() && groups[i][p] == x;
            let q = choose|q: int| 0 <= q < groups[j].len() && groups[j][q] == x;
            assert(lookup[groups[i][p] as int] == lookup[groups[i][0] as int]);
            assert(lookup[groups[j][q] as int] == lookup[groups[j][0] as int]);
        }
    }
    assert forall|x: usize| (exists|i: int| 0 <= i < groups.len() && #[trigger] groups[i].contains(x))
        <==> (x < n && mentioned(qs, x)) by {
        if exists|i: int| 0 <= i < groups.len() && #[trigger] groups[i].contains(x) {
            let i = choose|i: int| 0 <= i < groups.len() && #[trigger] groups[i].contains(x);
            let p = choose|p: int| 0 <= p < groups[i].len() && groups[i][p] == x;
            assert(groups[i][p] < lookup.len());
            assert(lookup[x as int] is Some);
        }
        if x < n && mentioned(qs, x) {
            assert(lookup[x as int] is Some);
            let (i, p) = choose|i: int, p: int| 0 <= i < groups.len() && 0 <= p < groups[i].len()
                && #[trigger] groups[i][p] == x;
            assert(groups[i].contains(x));
        }
    }
}

/// The same results, in another order, link and name the same records.
proof fn lemma_same_results(qs: Seq<(usize, Seq<usize>)>, reordered: Seq<(usize, Seq<usize>)>)
    requires
        forall|e: (usize, Seq<usize>)| qs.contains(e) <==> reordered.contains(e),
    ensures
        forall|a: usize, b: usize| #[trigger] linked(qs, a, b) ==> linked(reordered, a, b),
        forall|a: usize| #[trigger] mentioned(qs, a) ==> mentioned(reordered, a),
{
    assert forall|a: usize, b: usize| #[trigger] linked(qs, a, b) implies linked(reordered, a, b) by {
        let k = choose|k: int| 0 <= k < qs.len() && (#[trigger] qs[k]).0 == a && qs[k].1.contains(b);
        assert(qs.contains(qs[k]));
        let k2 = choose|k2: int| 0 <= k2 < reordered.len() && reordered[k2] == qs[k];
        assert(reordered[k2].0 == a);
    }
    assert forall|a: usize| #[trigger] mentioned(qs, a) implies mentioned(reordered, a) by {
        let k = choose|k: int| 0 <= k < qs.len() && (#[trigger] qs[k]).1.contains(a);
        assert(qs.contains(qs[k]));
        let k2 = choose|k2: int| 0 <= k2 < reordered.len() && reordered[k2] == qs[k];
        assert(reordered[k2].1.contains(a));
    }
}

/// Records joined by a chain of two results share a cluster, whatever the
/// order in which the results were taken.
pub proof fn lemma_linked_chain(
    qs: Seq<(usize, Seq<usize>)>,
    reordered: Seq<(usize, Seq<usize>)>,
    n: nat,
    lookup: Seq<Option<usize>>,
    a: usize,
    b: usize,
    c: usize,
)
    requires
        forall|e: (usize, Seq<usize>)| qs.contains(e) <==> reordered.contains(e),
        clustering_of(reordered, n, lookup),
        linked(qs, a, b),
        linked(qs, b, c),
    ensures
        joined(lookup, a, c),
{
    lemma_same_results(qs, reordered);
    assert(linked(reordered, a, b));
    assert(linked(reordered, b, c));
}

/// The partition does not depend on the order of the results: two
/// clusterings of the same results join exactly the same pairs.
pub proof fn lemma_partition_unique(
    qs: Seq<(usize, Seq<usize>)>,
    reordered: Seq<(usize, Seq<usize>)>,
    n: nat,
    first: Seq<Option<usize>>,
    second: Seq<Option<usize>>,
    x: usize,
    y: usize,
)
    requires
        forall|e: (usize, Seq<usize>)| qs.contains(e) <==> reordered.contains(e),
        clustering_of(qs, n, first),
        clustering_of(reordered, n, second),
    ensures
        joined(first, x, y) <==> joined(second, x, y),
{
    lemma_same_results(qs, reordered);
    lemma_same_results(reordered, qs);
    if joined(first, x, y) {
        lemma_joined_in(qs, reordered, n, first, second, x, y);
    }
    if joined(second, x, y) {
        lemma_joined_in(reordered, qs, n, second, first, x, y);
    }
}

proof fn lemma_joined_in(
    qs: Seq<(usize, Seq<usize>)>,
    reordered: Seq<(usize, Seq<usize>)>,
    n: nat,
    first: Seq<Option<usize>>,
    second: Seq<Option<usize>>,
    x: usize,
    y: usize,
)
    requires
        forall|a: usize, b: usize| #[trigger] linked(qs, a, b) ==> linked(reordered, a, b),
        forall|a: usize| #[trigger] mentioned(qs, a) ==> mentioned(reordered, a),
        clustering_of(qs, n, first),
        clustering_of(reordered, n, second),
        joined(first, x, y),
    ensures
        joined(second, x, y),
{
    let f = |z: usize| match second[z as int] {
        Some(c) => c as int,
        None => -1 - z as int,
    };
    assert forall|a: usize, b: usize| #[trigger] linked(qs, a, b) implies f(a) == f(b) by {
        assert(linked(reordered, a, b));
        assert(joined(second, a, b));
    }
    assert(respects(qs, f));
    assert(f(x) == f(y));
    assert(mentioned(qs, x) && mentioned(qs, y));
    assert(second[x as int] is Some);
    assert(second[y as int] is Some);
}

/// When every record is clustered, the emitted groups hold every record, and
/// nothing else.
pub proof fn lemma_groups_cover_all(lookup: Seq<Option<usize>>, groups: Seq<Seq<usize>>, x: usize)
    requires
        forall|z: int| 0 <= z < lookup.len() ==> (#[trigger] lookup[z]) is Some,
        grouped_ok(lookup, groups),
    ensures
        (exists|i: int| 0 <= i < groups.len() && #[trigger] groups[i].contains(x)) <==> x < lookup.len(),
{
    if x < lookup.len() {
        assert(lookup[x as int] is Some);
        let (i, p) = choose|i: int, p: int| 0 <= i < groups.len() && 0 <= p < groups[i].len()
            && #[trigger] groups[i][p] == x;
        assert(groups[i].contains(x));
    }
    if exists|i: int| 0 <= i < groups.len() && #[trigger] groups[i].contains(x) {
        let i = choose|i: int| 0 <= i < groups.len() && #[trigger] groups[i].contains(x);
        let p = choose|p: int| 0 <= p < groups[i].len() && groups[i][p] == x;
        assert(groups[i][p] < lookup.len());
    }
}

/// A labelling of records that agrees across every pair of a relation.
pub open spec fn agrees_on(rel: spec_fn(usize, usize) -> bool, f: spec_fn(usize) -> int) -> bool {
    forall|x: usize, y: usize| #[trigger] rel(x, y) ==> f(x) == f(y)
}

/// The clusters of `n` records are the connected components of `rel`: every
/// record is clustered, related records share a cluster, and a cluster joins
/// no more than `rel` forces.
pub open spec fn components_of(rel: spec_fn(usize, usize) -> bool, n: nat, lookup: Seq<Option<usize>>) -> bool {
    &&& lookup.len() == n
    &&& forall|z: int| 0 <= z < n ==> (#[trigger] lookup[z]) is Some
    &&& forall|x: usize, y: usize| x < n && #[trigger] rel(x, y) ==> joined(lookup, x, y)
    &&& forall|f: spec_fn(usize) -> int, x: usize, y: usize|
        #[trigger] agrees_on(rel, f) && #[trigger] joined(lookup, x, y) ==> f(x) == f(y)
}

/// Two runs whose match relations agree (as when neither makes a false
/// positive or negative against the true similarity) produce the same
/// partition, whatever their cluster numbering.
pub proof fn lemma_same_partition(
    first_rel: spec_fn(usize, usize) -> bool,
    second_rel: spec_fn(usize, usize) -> bool,
    n: nat,
    first: Seq<Option<usize>>,
    second: Seq<Option<usize>>,
    x: usize,
    y: usize,
)
    requires
        forall|a: usize, b: usize| #![trigger first_rel(a, b)] #![trigger second_rel(a, b)]
            a < n ==> (first_rel(a, b) <==> second_rel(a, b)),
        forall|a: usize, b: usize| #[trigger] first_rel(a, b) ==> a < n && b < n,
        forall|a: usize, b: usize| #[trigger] second_rel(a, b) ==> a < n && b < n,
        components_of(first_rel, n, first),
        components_of(second_rel, n, second),
    ensures
        joined(first, x, y) <==> joined(second, x, y),
{
    if joined(first, x, y) {
        let f = |z: usize| match second[z as int] {
            Some(c) => c as int,
            None => -1 - z as int,
        };
        assert forall|a: usize, b: usize| #[trigger] first_rel(a, b) implies f(a) == f(b) by {
            assert(second_rel(a, b));
            assert(joined(second, a, b));
        }
        assert(agrees_on(first_rel, f));
        assert(second[x as int] is Some && second[y as int] is Some);
    }
    if joined(second, x, y) {
        let f = |z: usize| match first[z as int] {
            Some(c) => c as int,
            None => -1 - z as int,
        };
        assert forall|a: usize, b: usize| #[trigger] second_rel(a, b) implies f(a) == f(b) by {
            assert(first_rel(a, b));
            assert(joined(first, a, b));
        }
        assert(agrees_on(second_rel, f));
        assert(first[x as int] is Some && first[y as int] is Some);
    }
}

proof fn lemma_respects_prefix(pre: Seq<(usize, Seq<usize>)>, e: (usize, Seq<usize>), f: spec_fn(usize) -> int)
    requires
        respects(pre.push(e), f),
    ensures
        respects(pre, f),
        forall|y: usize| e.1.contains(y) ==> f(e.0) == f(y),
{
    assert forall|x: usize, y: usize| #[trigger] linked(pre, x, y) implies f(x) == f(y) by {
        lemma_prefix_step(pre, e, x, y);
    }
    assert forall|y: usize| e.1.contains(y) implies f(e.0) == f(y) by {
        lemma_prefix_step(pre, e, e.0, y);
    }
}

/// After a merge, a record in the merged cluster has the query's label
/// under every labelling that respects the results so far.
proof fn lemma_merged_finest(
    lookup0: Seq<Option<usize>>,
    next0: usize,
    pre: Seq<(usize, Seq<usize>)>,
    q: usize,
    cands: Seq<usize>,
    target: usize,
    f: spec_fn(usize) -> int,
    x: usize,
)
    requires
        lookup0.len() <= usize::MAX,
        x < lookup0.len(),
        q < lookup0.len(),
        forall|z: int| 0 <= z < lookup0.len() ==> match #[trigger] lookup0[z] {
            Some(c) => c < next0,
            None => true,
        },
        lookup0[q as int] is Some ==> lookup0[q as int] == Some(target),
        lookup0[q as int] is None ==> target == next0,
        cands.contains(q),
        forall|p: int| 0 <= p < cands.len() ==> cands[p] < lookup0.len(),
        finest(pre, lookup0),
        respects(pre, f),
        forall|y: usize| cands.contains(y) ==> f(q) == f(y),
    ensures
        absorbed(lookup0, cands, target, x as int) ==> f(x) == f(q),
{
    if absorbed(lookup0, cands, target, x as int) {
        if lookup0[x as int] == Some(target) {
            assert(joined(lookup0, x, q));
        } else if cands.contains(x) {
        } else {
            let j = choose|j: int| 0 <= j < cands.len() && (#[trigger] lookup0[cands[j] as int]) is Some
                && lookup0[x as int] == lookup0[cands[j] as int];
            let c = cands[j];
            assert(cands.contains(c));
            assert(joined(lookup0, x, c));
        }
    }
}

/// The cluster of each record, `None` for a record that no result names.
pub struct DeduplicationTable {
    /// The cluster identifier of each record, by the record's position.
    pub doc_lookup: Vec<Option<usize>>,
    /// A bound on every identifier in use; the next fresh identifier.
    pub next_id: usize,
}

impl DeduplicationTable {
    pub open spec fn wf(&self) -> bool {
        forall|x: int| 0 <= x < self.doc_lookup.len() ==> match #[trigger] self.doc_lookup@[x] {
            Some(c) => c < self.next_id,
            None => true,
        }
    }

    /// Two records are in the same cluster.
    pub open spec fn same_cluster(&self, x: usize, y: usize) -> bool {
        joined(self.doc_lookup@, x, y)
    }

    /// A table of `n` records, none of them clustered.
    pub fn init(n: usize) -> (r: DeduplicationTable)
        ensures
            r.wf(),
            r.doc_lookup@ == Seq::new(n as nat, |x: int| None::<usize>),
            r.next_id == 0,
    {
        let mut doc_lookup: Vec<Option<usize>> = Vec::new();
        let mut i: usize = 0;
        while i < n
            invariant
                i <= n,
                doc_lookup@ == Seq::new(i as nat, |x: int| None::<usize>),
            decreases n - i,
        {
            doc_lookup.push(None);
            i = i + 1;
        }
        DeduplicationTable { doc_lookup, next_id: 0 }
    }

    /// The cluster of a record, if it has one.
    pub fn check_cluster_id(&self, doc_id: usize) -> (r: Option<usize>)
        requires
            doc_id < self.doc_lookup.len(),
        ensures
            r == self.doc_lookup@[doc_id as int],
    {
        self.doc_lookup[doc_id]
    }

    /// Moves every member of cluster `from` into cluster `to`.
    fn relabel(&mut self, from: usize, to: usize)
        requires
            old(self).wf(),
            to < old(self).next_id,
        ensures
            final(self).wf(),
            final(self).next_id == old(self).next_id,
            final(self).doc_lookup@ == Seq::new(old(self).doc_lookup@.len(), |x: int|
                if old(self).doc_lookup@[x] == Some(from) { Some(to) } else { old(self).doc_lookup@[x] }),
    {
        let ghost before = self.doc_lookup@;
        let n = self.doc_lookup.len();
        let mut x: usize = 0;
        while x < n
            invariant
                n == self.doc_lookup.len(),
                n == before.len(),
                to < self.next_id,
                self.next_id == old(self).next_id,
                x <= n,
                forall|y: int| 0 <= y < before.len() ==> match #[trigger] before[y] {
                    Some(c) => c < self.next_id,
                    None => true,
                },
                forall|y: int| 0 <= y < x ==> #[trigger] self.doc_lookup@[y]
                    == if before[y] == Some(from) { Some(to) } else { before[y] },
                forall|y: int| x <= y < n ==> #[trigger] self.doc_lookup@[y] == before[y],
            decreases n - x,
        {
            if self.doc_lookup[x] == Some(from) {
                self.doc_lookup.set(x, Some(to));
            }
            x = x + 1;
        }
        proof {
            assert(self.doc_lookup@ =~= Seq::new(before.len(), |y: int|
                if before[y] == Some(from) { Some(to) } else { before[y] }));
        }
    }

    /// Merges one query result into the clustering: the queried record and all
    /// its results end up in one cluster, together with every cluster that
    /// held one of them.
    pub fn update(&mut self, query_doc_id: usize, similar_documents: &Vec<usize>)
        requires
            old(self).wf(),
            query_doc_id < old(self).doc_lookup.len(),
            similar_documents@.contains(query_doc_id),
            forall|p: int| 0 <= p < similar_documents.len() ==> similar_documents@[p] < old(self).doc_lookup.len(),
            old(self).next_id < usize::MAX,
        ensures
            final(self).wf(),
            final(self).next_id <= old(self).next_id + 1,
            final(self).doc_lookup@[query_doc_id as int] is Some,
            old(self).doc_lookup@[query_doc_id as int] is Some ==> final(self).doc_lookup@[query_doc_id as int]
                == old(self).doc_lookup@[query_doc_id as int],
            old(self).doc_lookup@[query_doc_id as int] is None ==> final(self).doc_lookup@[query_doc_id as int]
                == Some(old(self).next_id),
            final(self).doc_lookup@ == merged(old(self).doc_lookup@, similar_documents@,
                final(self).doc_lookup@[query_doc_id as int]->Some_0),
    {
        let ghost lookup0 = self.doc_lookup@;
        let target: usize = match self.doc_lookup[query_doc_id] {
            Some(c) => c,
            None => {
                let c = self.next_id;
                self.next_id = self.next_id + 1;
                c
            },
        };
        assert(forall|x: int| 0 <= x < lookup0.len() ==> match #[trigger] lookup0[x] {
            Some(c) => c < self.next_id,
            None => true,
        });
        let n = self.doc_lookup.len();
        let cands = similar_documents;
        let mut i: usize = 0;
        while i < cands.len()
            invariant
                self.wf(),
                n == self.doc_lookup.len(),
                n == lookup0.len(),
                target < self.next_id,
                self.next_id <= old(self).next_id + 1,
                lookup0 == old(self).doc_lookup@,
                forall|x: int| 0 <= x < lookup0.len() ==> match #[trigger] lookup0[x] {
                    Some(c) => c < self.next_id,
                    None => true,
                },
                query_doc_id < n,
                lookup0[query_doc_id as int] is Some ==> lookup0[query_doc_id as int] == Some(target),
                forall|p: int| 0 <= p < cands.len() ==> cands@[p] < n,
                i <= cands.len(),
                self.doc_lookup@ == merged(lookup0, cands@.take(i as int), target),
            decreases cands.len() - i,
        {
            let c = cands[i];
            let ghost pre = cands@.take(i as int);
            let ghost post = cands@.take(i as int + 1);
            assert(post =~= pre.push(c));
            let ghost cur = self.doc_lookup@;
            match self.doc_lookup[c] {
                Some(other) => {
                    if other != target {
                        self.relabel(other, target);
                    }
                },
                None => {
                    self.doc_lookup.set(c, Some(target));
                },
            }
            proof {
                assert forall|x: int| 0 <= x < n implies #[trigger] self.doc_lookup@[x]
                    == merged(lookup0, post, target)[x] by {
                    lemma_absorbed_push(lookup0, pre, c, target, x);
                    lemma_absorbed_push(lookup0, pre, c, target, c as int);
                    if cur[c as int] == Some(target) && lookup0[c as int] is Some && lookup0[x] == lookup0[c as int] {
                        lemma_absorbed_closed(lookup0, pre, target, c as int, x);
                    }
                }
                assert(self.doc_lookup@ =~= merged(lookup0, post, target));
            }
            i = i + 1;
        }
        proof {
            assert(cands@.take(i as int) =~= cands@);
            assert(absorbed(lookup0, cands@, target, query_doc_id as int));
        }
    }

    /// Clusters the records `0..num_docs` from their query results, taken in
    /// order: two records share a cluster exactly when a chain of results
    /// joins them, and a record has a cluster exactly when some result names it.
    pub fn from_query_results(num_docs: usize, query_results: &Vec<(usize, Vec<usize>)>) -> (r: DeduplicationTable)
        requires
            results_ok(results_view(query_results@), num_docs as nat),
            query_results.len() < usize::MAX,
        ensures
            r.wf(),
            clustering_of(results_view(query_results@), num_docs as nat, r.doc_lookup@),
    {
        let ghost qs = results_view(query_results@);
        let mut table = DeduplicationTable::init(num_docs);
        let mut k: usize = 0;
        while k < query_results.len()
            invariant
                qs == results_view(query_results@),
                results_ok(qs, num_docs as nat),
                query_results.len() < usize::MAX,
                k <= query_results.len(),
                table.wf(),
                table.next_id <= k,
                table.doc_lookup.len() == num_docs,
                forall|x: usize| x < num_docs ==> (#[trigger] table.doc_lookup@[x as int] is Some
                    <==> mentioned(qs.take(k as int), x)),
                forall|x: usize, y: usize| #[trigger] linked(qs.take(k as int), x, y)
                    ==> table.same_cluster(x, y),
                finest(qs.take(k as int), table.doc_lookup@),
            decreases query_results.len() - k,
        {
            let q = query_results[k].0;
            let cands = &query_results[k].1;
            assert(qs[k as int] == (q, cands@));
            let ghost lookup0 = table.doc_lookup@;
            let ghost next0 = table.next_id;
            assert(forall|x: int| 0 <= x < lookup0.len() ==> match #[trigger] lookup0[x] {
                Some(c) => c < next0,
                None => true,
            });
            table.update(q, cands);
            proof {
                let target = table.doc_lookup@[q as int]->Some_0;
                let pre = qs.take(k as int);
                let post = qs.take(k as int + 1);
                assert(post =~= pre.push((q, cands@)));
                assert forall|x: usize| x < num_docs implies (#[trigger] table.doc_lookup@[x as int] is Some
                    <==> mentioned(post, x)) by {
                    lemma_prefix_step(pre, (q, cands@), x, x);
                    if absorbed(lookup0, cands@, target, x as int) && lookup0[x as int] is None && !cands@.contains(x) {
                        let j = choose|j: int| 0 <= j < cands@.len() && (#[trigger] lookup0[cands@[j] as int]) is Some
                            && lookup0[x as int] == lookup0[cands@[j] as int];
                    }
                }
                assert forall|x: usize, y: usize| #[trigger] linked(post, x, y) implies table.same_cluster(x, y) by {
                    lemma_prefix_step(pre, (q, cands@), x, y);
                    if linked(pre, x, y) {
                        lemma_absorbed_same(lookup0, cands@, target, x as int, y as int);
                    } else {
                        assert(absorbed(lookup0, cands@, target, y as int));
                        let p = choose|p: int| 0 <= p < cands@.len() && cands@[p] == y;
                    }
                }
                assert forall|f: spec_fn(usize) -> int, x: usize, y: usize|
                    #[trigger] respects(post, f) && #[trigger] joined(table.doc_lookup@, x, y) implies f(x) == f(y) by {
                    lemma_respects_prefix(pre, (q, cands@), f);
                    lemma_merged_finest(lookup0, next0, pre, q, cands@, target, f, x);
                    lemma_merged_finest(lookup0, next0, pre, q, cands@, target, f, y);
                    if !absorbed(lookup0, cands@, target, x as int) {
                        assert(joined(lookup0, x, y));
                    }
                }
            }
            k = k + 1;
        }
        proof {
            assert(qs.take(k as int) =~= qs);
        }
        table
    }

    /// Clusters all records of an index by querying each one's own signature.
    pub fn new(lsh: &MinHashLSH, threshold: Option<Threshold>) -> (r: DeduplicationTable)
        requires
            lsh.wf(),
            lsh.minhash_map.len() < usize::MAX,
            threshold matches Some(t) ==> t.wf(),
        ensures
            r.wf(),
            r.doc_lookup.len() == lsh.minhash_map.len(),
            forall|x: usize| x < lsh.minhash_map.len() ==> (#[trigger] r.doc_lookup@[x as int]) is Some,
            forall|x: usize, y: usize| x < lsh.minhash_map.len()
                && #[trigger] lsh.is_match(lsh.signatures()[x as int], y as int, threshold)
                ==> r.same_cluster(x, y),
            forall|f: spec_fn(usize) -> int, x: usize, y: usize|
                #[trigger] lsh.respected_by(threshold, f) && #[trigger] r.same_cluster(x, y) ==> f(x) == f(y),
            components_of(lsh.match_relation(threshold), lsh.minhash_map.len() as nat, r.doc_lookup@),
    {
        let n = lsh.minhash_map.len();
        let mut query_results: Vec<(usize, Vec<usize>)> = Vec::new();
        let mut i: usize = 0;
        while i < n
            invariant
                lsh.wf(),
                n == lsh.minhash_map.len(),
                threshold matches Some(t) ==> t.wf(),
                i <= n,
                query_results.len() == i,
                forall|k: int| 0 <= k < i ==> (#[trigger] query_results@[k]).0 == k,
                forall|k: int, y: usize| 0 <= k < i ==> (#[trigger] query_results@[k].1@.contains(y)
                    <==> lsh.is_match(lsh.signatures()[k], y as int, threshold)),
            decreases n - i,
        {
            assert(lsh.minhash_map@[i as int]@ == lsh.signatures()[i as int]);
            let found = lsh.query(&lsh.minhash_map[i], threshold);
            query_results.push((i, found));
            i = i + 1;
        }
        let ghost qs = results_view(query_results@);
        proof {
            assert forall|k: int| 0 <= k < qs.len() implies {
                &&& (#[trigger] qs[k]).0 < n
                &&& qs[k].1.contains(qs[k].0)
                &&& forall|p: int| 0 <= p < qs[k].1.len() ==> qs[k].1[p] < n
            } by {
                let sig = lsh.signatures()[k];
                lemma_self_match(lsh, k, threshold);
                assert(query_results@[k].1@.contains(k as usize));
                assert forall|p: int| 0 <= p < qs[k].1.len() implies qs[k].1[p] < n by {
                    assert(query_results@[k].1@.contains(qs[k].1[p]));
                }
            }
        }
        let r = DeduplicationTable::from_query_results(n, &query_results);
        proof {
            assert forall|x: usize| x < n implies (#[trigger] r.doc_lookup@[x as int]) is Some by {
                lemma_self_match(lsh, x as int, threshold);
                assert(query_results@[x as int].1@.contains(x));
                assert(qs[x as int].1.contains(x));
            }
            assert forall|x: usize, y: usize| x < n && #[trigger] lsh.is_match(lsh.signatures()[x as int], y as int, threshold)
                implies r.same_cluster(x, y) by {
                assert(query_results@[x as int].1@.contains(y));
                assert(qs[x as int].0 == x && qs[x as int].1.contains(y));
                assert(linked(qs, x, y));
            }
            assert forall|f: spec_fn(usize) -> int, x: usize, y: usize|
                #[trigger] lsh.respected_by(threshold, f) && #[trigger] r.same_cluster(x, y) implies f(x) == f(y) by {
                assert forall|a: usize, b: usize| #[trigger] linked(qs, a, b) implies f(a) == f(b) by {
                    let k = choose|k: int| 0 <= k < qs.len() && (#[trigger] qs[k]).0 == a && qs[k].1.contains(b);
                    assert(query_results@[k].0 == k);
                    assert(query_results@[k].1@.contains(b));
                    assert(lsh.is_match(lsh.signatures()[a as int], b as int, threshold));
                }
                assert(respects(qs, f));
            }
            let rel = lsh.match_relation(threshold);
            assert forall|f: spec_fn(usize) -> int, x: usize, y: usize|
                #[trigger] agrees_on(rel, f) && #[trigger] joined(r.doc_lookup@, x, y) implies f(x) == f(y) by {
                assert forall|a: usize, b: usize| a < n
                    && #[trigger] lsh.is_match(lsh.signatures()[a as int], b as int, threshold) implies f(a) == f(b) by {
                    assert(rel(a, b));
                }
                assert(lsh.respected_by(threshold, f));
                assert(r.same_cluster(x, y));
            }
            assert forall|x: usize, y: usize| x < n && #[trigger] rel(x, y) implies joined(r.doc_lookup@, x, y) by {
                assert(lsh.is_match(lsh.signatures()[x as int], y as int, threshold));
            }
            assert forall|z: int| 0 <= z < n implies (#[trigger] r.doc_lookup@[z]) is Some by {
                assert(r.doc_lookup@[(z as usize) as int] is Some);
            }
        }
        r
    }

    /// The clusters, each as its members in increasing order; empty clusters
    /// are left out.
    pub fn grouped_ids(&self) -> (r: Vec<Vec<usize>>)
        requires
            self.wf(),
        ensures
            grouped_ok(self.doc_lookup@, r@.map_values(|g: Vec<usize>| g@)),
    {
        let n = self.doc_lookup.len();
        let mut by_id: Vec<Vec<usize>> = Vec::new();
        let mut c: usize = 0;
        while c < self.next_id
            invariant
                c <= self.next_id,
                by_id.len() == c,
                forall|k: int| 0 <= k < c ==> (#[trigger] by_id@[k])@.len() == 0,
            decreases self.next_id - c,
        {
            by_id.push(Vec::new());
            c = c + 1;
        }
        let mut x: usize = 0;
        while x < n
            invariant
                self.wf(),
                n == self.doc_lookup.len(),
                x <= n,
                by_id.len() == self.next_id,
                forall|k: int, p: int| 0 <= k < by_id.len() && 0 <= p < by_id@[k]@.len() ==>
                    #[trigger] by_id@[k]@[p] < x && self.doc_lookup@[by_id@[k]@[p] as int] == Some(k as usize),
                forall|k: int, p: int, q: int| 0 <= k < by_id.len() && 0 <= p < q < by_id@[k]@.len() ==>
                    #[trigger] by_id@[k]@[p] < #[trigger] by_id@[k]@[q],
                forall|y: int| 0 <= y < x ==> match #[trigger] self.doc_lookup@[y] {
                    Some(k) => by_id@[k as int]@.contains(y as usize),
                    None => true,
                },
            decreases n - x,
        {
            match self.doc_lookup[x] {
                Some(k) => {
                    let mut g: Vec<usize> = Vec::new();
                    by_id.set_and_swap(k, &mut g);
                    let ghost g0 = g@;
                    g.push(x);
                    proof {
                        assert(g@[g0.len() as int] == x);
                        assert forall|y: int| 0 <= y < x implies match #[trigger] self.doc_lookup@[y] {
                            Some(k2) => by_id@.update(k as int, g)[k2 as int]@.contains(y as usize),
                            None => true,
                        } by {
                            if self.doc_lookup@[y] == Some(k) {
                                let p = choose|p: int| 0 <= p < g0.len() && g0[p] == y as usize;
                                assert(g@[p] == y as usize);
                            }
                        }
                    }
                    by_id.set(k, g);
                },
                None => {},
            }
            x = x + 1;
        }
        let ghost all = by_id@.map_values(|g: Vec<usize>| g@);
        let mut out: Vec<Vec<usize>> = Vec::new();
        let ghost mut ids: Seq<usize> = Seq::empty();
        let mut k: usize = 0;
        while k < by_id.len()
            invariant
                self.wf(),
                n == self.doc_lookup.len(),
                by_id.len() == self.next_id,
                all.len() == by_id.len(),
                k <= by_id.len(),
                forall|j: int| k <= j < by_id.len() ==> (#[trigger] by_id@[j])@ == all[j],
                forall|j: int, p: int| 0 <= j < all.len() && 0 <= p < all[j].len() ==>
                    #[trigger] all[j][p] < n && self.doc_lookup@[all[j][p] as int] == Some(j as usize),
                forall|j: int, p: int, q: int| 0 <= j < all.len() && 0 <= p < q < all[j].len() ==>
                    #[trigger] all[j][p] < #[trigger] all[j][q],
                ids.len() == out.len(),
                forall|i: int| 0 <= i < ids.len() ==> #[trigger] ids[i] < k && all[ids[i] as int].len() > 0
                    && out@[i]@ == all[ids[i] as int],
                forall|i: int, j: int| 0 <= i < j < ids.len() ==> #[trigger] ids[i] < #[trigger] ids[j],
                forall|j: int| 0 <= j < k && (#[trigger] all[j]).len() > 0 ==> ids.contains(j as usize),
            decreases by_id.len() - k,
        {
            let mut g: Vec<usize> = Vec::new();
            let ghost ids0 = ids;
            by_id.set_and_swap(k, &mut g);
            assert(g@ == all[k as int]);
            if g.len() > 0 {
                proof {
                    ids = ids.push(k);
                }
                out.push(g);
            }
            proof {
                assert forall|j: int| 0 <= j < k + 1 && (#[trigger] all[j]).len() > 0 implies ids.contains(j as usize) by {
                    if j == k {
                        assert(ids[ids.len() - 1] == k);
                    } else {
                        assert(ids0.contains(j as usize));
                        let i = choose|i: int| 0 <= i < ids0.len() && ids0[i] == j as usize;
                        assert(ids[i] == j as usize);
                    }
                }
            }
            k = k + 1;
        }
        proof {
            let gs = out@.map_values(|g: Vec<usize>| g@);
            let lookup = self.doc_lookup@;
            assert forall|i: int| 0 <= i < gs.len() implies (#[trigger] gs[i]).len() > 0 && gs[i] == all[ids[i] as int] by {
                assert(gs[i] == out@[i]@);
                assert(ids[i] < k);
            }
            assert forall|i: int, p: int| 0 <= i < gs.len() && 0 <= p < gs[i].len() implies
                #[trigger] gs[i][p] < lookup.len() && lookup[gs[i][p] as int] == Some(ids[i]) by {
                assert(gs[i] == all[ids[i] as int]);
            }
            assert forall|x: int| 0 <= x < lookup.len() && #[trigger] lookup[x] is Some implies
                exists|i: int, p: int| 0 <= i < gs.len() && 0 <= p < gs[i].len() && #[trigger] gs[i][p] == x as usize by {
                let c = lookup[x]->Some_0;
                assert(all[c as int].contains(x as usize));
                let p = choose|p: int| 0 <= p < all[c as int].len() && all[c as int][p] == x as usize;
                assert(ids.contains(c));
                let i = choose|i: int| 0 <= i < ids.len() && ids[i] == c;
                assert(gs[i][p] == x as usize);
            }
            assert forall|i: int, j: int| 0 <= i < gs.len() && 0 <= j < gs.len() && i != j implies
                lookup[(#[trigger] gs[i])[0] as int] != lookup[(#[trigger] gs[j])[0] as int] by {
                assert(lookup[gs[i][0] as int] == Some(ids[i]));
                assert(lookup[gs[j][0] as int] == Some(ids[j]));
                if i < j { assert(ids[i] < ids[j]); } else { assert(ids[j] < ids[i]); }
            }
            assert forall|i: int, p: int, q: int| 0 <= i < gs.len() && 0 <= p < q < gs[i].len() implies
                #[trigger] gs[i][p] < #[trigger] gs[i][q] by {
                assert(gs[i] == all[ids[i] as int]);
            }
        }
        out
    }
}

} // verus!
