//! The batch pipeline: signatures, index, clustering and the output rows.
use vstd::prelude::*;
use crate::dedup::{grouped_ok, joined, DeduplicationTable};
use crate::dto::{Record, RecordResult};
use crate::error::{ServiceError, Status};
use crate::lsh::{collides, record_signature, valid_bands, MinHashLSH};
use crate::minhash::{match_count, Threshold};
use crate::text::{replace_text, replaced};

verus! {

/// The decimal digit `d`.
pub open spec fn digit(d: nat) -> char {
    seq!['0', '1', '2', '3', '4', '5', '6', '7', '8', '9'][d as int]
}

/// The decimal numeral of `n`, without leading zeros.
pub open spec fn decimal(n: nat) -> Seq<char>
    decreases n,
{
    if n < 10 {
        seq![digit(n)]
    } else {
        decimal(n / 10).push(digit(n % 10))
    }
}

/// The identifier `"{index}-{size}"` of a cluster.
pub open spec fn label_spec(index: nat, size: nat) -> Seq<char> {
    decimal(index) + seq!['-'] + decimal(size)
}

pub open spec fn is_digit(c: char) -> bool {
    '0' <= c <= '9'
}

/// A numeral is non-empty and made of digits only.
pub proof fn lemma_decimal_digits(n: nat)
    ensures
        decimal(n).len() > 0,
        forall|k: int| 0 <= k < decimal(n).len() ==> is_digit(#[trigger] decimal(n)[k]),
    decreases n,
{
    if n >= 10 {
        lemma_decimal_digits(n / 10);
    }
}

/// A cluster identifier is digits, one `-`, and digits, and what follows the
/// `-` is the numeral of the cluster's size.
pub proof fn lemma_label_format(index: nat, size: nat)
    ensures
        ({
            let l = label_spec(index, size);
            let d = decimal(index).len() as int;
            &&& 0 < d < l.len() - 1
            &&& forall|k: int| 0 <= k < l.len() ==> (#[trigger] l[k] == '-' <==> k == d)
            &&& forall|k: int| 0 <= k < l.len() && k != d ==> is_digit(#[trigger] l[k])
            &&& l.subrange(d + 1, l.len() as int) == decimal(size)
        }),
{
    lemma_decimal_digits(index);
    lemma_decimal_digits(size);
    let l = label_spec(index, size);
    let d = decimal(index).len() as int;
    assert forall|k: int| 0 <= k < l.len() implies (#[trigger] l[k] == '-' <==> k == d) && (k != d ==> is_digit(l[k])) by {
        if k < d {
            assert(l[k] == decimal(index)[k]);
        } else if k > d {
            assert(l[k] == decimal(size)[k - d - 1]);
        }
    }
    assert(l.subrange(d + 1, l.len() as int) =~= decimal(size));
}

proof fn lemma_digit_injective(a: nat, b: nat)
    requires
        a < 10,
        b < 10,
        digit(a) == digit(b),
    ensures
        a == b,
{
    let ds = seq!['0', '1', '2', '3', '4', '5', '6', '7', '8', '9'];
    assert(ds[0] == '0' && ds[1] == '1' && ds[2] == '2' && ds[3] == '3' && ds[4] == '4');
    assert(ds[5] == '5' && ds[6] == '6' && ds[7] == '7' && ds[8] == '8' && ds[9] == '9');
}

proof fn lemma_decimal_len(n: nat)
    ensures
        n < 10 <==> decimal(n).len() == 1,
    decreases n,
{
    if n >= 10 {
        lemma_decimal_digits(n / 10);
    }
}

/// Different numbers have different numerals.
pub proof fn lemma_decimal_injective(a: nat, b: nat)
    requires
        decimal(a) == decimal(b),
    ensures
        a == b,
    decreases a,
{
    lemma_decimal_len(a);
    lemma_decimal_len(b);
    if a < 10 {
        assert(b < 10);
        assert(decimal(a)[0] == digit(a));
        assert(decimal(b)[0] == digit(b));
        lemma_digit_injective(a, b);
    } else {
        let da = decimal(a);
        assert(da.last() == digit(a % 10));
        assert(decimal(b).last() == digit(b % 10));
        lemma_digit_injective(a % 10, b % 10);
        assert(da.drop_last() =~= decimal(a / 10));
        assert(decimal(b).drop_last() =~= decimal(b / 10));
        lemma_decimal_injective(a / 10, b / 10);
    }
}

/// Two clusters with different indices get different identifiers, and an
/// identifier gives back its index and size.
pub proof fn lemma_label_injective(i: nat, s: nat, i2: nat, s2: nat)
    requires
        label_spec(i, s) == label_spec(i2, s2),
    ensures
        i == i2,
        s == s2,
{
    lemma_label_format(i, s);
    lemma_label_format(i2, s2);
    let l = label_spec(i, s);
    let d = decimal(i).len() as int;
    let d2 = decimal(i2).len() as int;
    assert(l[d] == '-');
    assert(d == d2);
    assert(l.subrange(0, d) =~= decimal(i));
    assert(label_spec(i2, s2).subrange(0, d2) =~= decimal(i2));
    lemma_decimal_injective(i, i2);
    lemma_decimal_injective(s, s2);
}

/// Relies on `ToString` through `Display for usize`: the decimal numeral of
/// the number, without leading zeros.
#[verifier::external_body]
fn decimal_string(n: usize) -> (r: String)
    ensures
        r@ == decimal(n as nat),
{
    n.to_string()
}

/// The identifier `"{index}-{size}"` of a cluster.
pub fn cluster_label(index: usize, size: usize) -> (r: String)
    ensures
        r@ == label_spec(index as nat, size as nat),
{
    let mut label = decimal_string(index);
    let dash = "-";
    proof {
        reveal_strlit("-");
    }
    label.append(dash);
    let suffix = decimal_string(size);
    label.append(suffix.as_str());
    proof {
        assert(dash@ =~= seq!['-']);
    }
    label
}

/// The output rows for clusters given as record indices, cluster by cluster:
/// each member's identifier with its cluster's identifier.
pub open spec fn rows_of(ids: Seq<Seq<char>>, groups: Seq<Seq<usize>>) -> Seq<(Seq<char>, Seq<char>)>
    decreases groups.len(),
{
    if groups.len() == 0 {
        Seq::empty()
    } else {
        let i = groups.len() - 1;
        rows_of(ids, groups.drop_last()) + groups[i].map_values(
            |m: usize| (ids[m as int], label_spec(i as nat, groups[i].len())),
        )
    }
}

/// Every output row carries the identifier of the cluster it comes from,
/// whose suffix is that cluster's size.
pub proof fn lemma_rows_labelled(ids: Seq<Seq<char>>, groups: Seq<Seq<usize>>, k: int)
    requires
        0 <= k < rows_of(ids, groups).len(),
    ensures
        exists|i: int, p: int| 0 <= i < groups.len() && 0 <= p < groups[i].len()
            && #[trigger] rows_of(ids, groups)[k] == (ids[groups[i][p] as int], label_spec(i as nat, groups[i].len())),
    decreases groups.len(),
{
    let i = groups.len() - 1;
    let front = rows_of(ids, groups.drop_last());
    if k < front.len() {
        lemma_rows_labelled(ids, groups.drop_last(), k);
        let (i2, p) = choose|i2: int, p: int| 0 <= i2 < groups.drop_last().len() && 0 <= p < groups.drop_last()[i2].len()
            && #[trigger] front[k] == (ids[groups.drop_last()[i2][p] as int], label_spec(i2 as nat, groups.drop_last()[i2].len()));
        assert(rows_of(ids, groups)[k] == front[k]);
        assert(groups[i2] == groups.drop_last()[i2]);
    } else {
        let p = k - front.len();
        assert(rows_of(ids, groups)[k] == (ids[groups[i][p] as int], label_spec(i as nat, groups[i].len())));
    }
}

/// How many rows carry the cluster identifier `l`.
pub open spec fn count_label(rows: Seq<(Seq<char>, Seq<char>)>, l: Seq<char>) -> nat
    decreases rows.len(),
{
    if rows.len() == 0 {
        0
    } else {
        count_label(rows.drop_last(), l) + if rows.last().1 == l { 1nat } else { 0nat }
    }
}

proof fn lemma_count_concat(a: Seq<(Seq<char>, Seq<char>)>, b: Seq<(Seq<char>, Seq<char>)>, l: Seq<char>)
    ensures
        count_label(a + b, l) == count_label(a, l) + count_label(b, l),
    decreases b.len(),
{
    if b.len() == 0 {
        assert(a + b =~= a);
    } else {
        assert((a + b).drop_last() =~= a + b.drop_last());
        assert((a + b).last() == b.last());
        lemma_count_concat(a, b.drop_last(), l);
    }
}

proof fn lemma_count_group(ids: Seq<Seq<char>>, g: Seq<usize>, lab: Seq<char>, l: Seq<char>)
    ensures
        count_label(g.map_values(|m: usize| (ids[m as int], lab)), l) == if lab == l { g.len() } else { 0 },
    decreases g.len(),
{
    if g.len() > 0 {
        assert(g.map_values(|m: usize| (ids[m as int], lab)).drop_last()
            =~= g.drop_last().map_values(|m: usize| (ids[m as int], lab)));
        lemma_count_group(ids, g.drop_last(), lab, l);
    }
}

/// The size in a cluster identifier is the number of rows that carry it:
/// the rows labelled with cluster `i`'s identifier are exactly as many as
/// its members, and no identifier of another shape occurs.
pub proof fn lemma_label_counts(ids: Seq<Seq<char>>, groups: Seq<Seq<usize>>, i: nat, s: nat)
    ensures
        count_label(rows_of(ids, groups), label_spec(i, s))
            == if i < groups.len() && s == groups[i as int].len() { s } else { 0 },
    decreases groups.len(),
{
    if groups.len() > 0 {
        let last = (groups.len() - 1) as nat;
        let g = groups[last as int];
        let lab = label_spec(last, g.len());
        lemma_label_counts(ids, groups.drop_last(), i, s);
        lemma_count_concat(rows_of(ids, groups.drop_last()),
            g.map_values(|m: usize| (ids[m as int], lab)), label_spec(i, s));
        lemma_count_group(ids, g, lab, label_spec(i, s));
        if lab == label_spec(i, s) {
            lemma_label_injective(last, g.len(), i, s);
        }
    }
}

/// The identifier of each record.
pub open spec fn record_ids(records: Seq<Record>) -> Seq<Seq<char>> {
    records.map_values(|r: Record| r.id@)
}

/// Output rows as pairs of character sequences.
pub open spec fn rows_view(rows: Seq<RecordResult>) -> Seq<(Seq<char>, Seq<char>)> {
    rows.map_values(|r: RecordResult| (r.id@, r.cluster_id@))
}

/// Turns clusters of record indices into output rows, numbering the
/// clusters in the order given.
pub fn emit_rows(records: &Vec<Record>, groups: &Vec<Vec<usize>>) -> (r: Vec<RecordResult>)
    requires
        forall|i: int, p: int| 0 <= i < groups.len() && 0 <= p < groups@[i]@.len() ==>
            #[trigger] groups@[i]@[p] < records.len(),
    ensures
        rows_view(r@) == rows_of(record_ids(records@), groups@.map_values(|g: Vec<usize>| g@)),
{
    let ghost ids = record_ids(records@);
    let ghost gs = groups@.map_values(|g: Vec<usize>| g@);
    let mut out: Vec<RecordResult> = Vec::new();
    let mut i: usize = 0;
    while i < groups.len()
        invariant
            ids == record_ids(records@),
            gs == groups@.map_values(|g: Vec<usize>| g@),
            i <= groups.len(),
            forall|i: int, p: int| 0 <= i < groups.len() && 0 <= p < groups@[i]@.len() ==>
                #[trigger] groups@[i]@[p] < records.len(),
            rows_view(out@) == rows_of(ids, gs.take(i as int)),
        decreases groups.len() - i,
    {
        let group = &groups[i];
        let size = group.len();
        let label = cluster_label(i, size);
        let ghost base = out@;
        let mut p: usize = 0;
        while p < size
            invariant
                ids == record_ids(records@),
                gs == groups@.map_values(|g: Vec<usize>| g@),
                i < groups.len(),
                *group == groups@[i as int],
                size == group.len(),
                label@ == label_spec(i as nat, size as nat),
                p <= size,
                forall|i: int, p: int| 0 <= i < groups.len() && 0 <= p < groups@[i]@.len() ==>
                    #[trigger] groups@[i]@[p] < records.len(),
                rows_view(out@) == rows_view(base) + group@.take(p as int).map_values(
                    |m: usize| (ids[m as int], label_spec(i as nat, size as nat))),
            decreases size - p,
        {
            let m = group[p];
            assert(groups@[i as int]@[p as int] == m);
            let row = RecordResult { id: records[m].id.clone(), cluster_id: label.clone() };
            let ghost before = out@;
            out.push(row);
            proof {
                assert(rows_view(out@) =~= rows_view(before).push((ids[m as int], label_spec(i as nat, size as nat))));
                assert(group@.take(p as int + 1) =~= group@.take(p as int).push(m));
                assert(rows_view(out@) =~= rows_view(base) + group@.take(p as int + 1).map_values(
                    |m: usize| (ids[m as int], label_spec(i as nat, size as nat))));
            }
            p = p + 1;
        }
        proof {
            assert(gs.take(i as int + 1).drop_last() =~= gs.take(i as int));
            assert(gs.take(i as int + 1)[i as int] == group@);
            assert(group@.take(p as int) =~= group@);
        }
        i = i + 1;
    }
    proof {
        assert(gs.take(i as int) =~= gs);
    }
    out
}

/// Record `y` is returned for record `x`: under signatures over `perms` cut in
/// `num_bands` bands, they share a band hash and reach the threshold.
pub open spec fn matched(records: Seq<Record>, perms: Seq<(u64, u64)>, num_bands: nat, t: Threshold, x: int, y: int) -> bool {
    let sx = record_signature(records[x].text@, perms);
    let sy = record_signature(records[y].text@, perms);
    &&& 0 <= y < records.len()
    &&& collides(sx, sy, perms.len() / num_bands, num_bands as int)
    &&& t.admits_spec(match_count(sx, sy, sx.len()), sx.len())
}

/// The bucket that results go to: the input bucket with `/input` replaced
/// by `/output`.
pub fn output_bucket(bucket: &str) -> (r: String)
    ensures
        r@ == replaced(bucket@, "/input"@, "/output"@),
{
    proof {
        reveal_strlit("/input");
    }
    replace_text(bucket, "/input", "/output")
}

/// A labelling of records that agrees between each record and every record
/// returned for it.
pub open spec fn respects_matches(records: Seq<Record>, perms: Seq<(u64, u64)>, num_bands: nat, t: Threshold, f: spec_fn(usize) -> int) -> bool {
    forall|x: usize, y: usize| x < records.len() && #[trigger] matched(records, perms, num_bands, t, x as int, y as int)
        ==> f(x) == f(y)
}

/// Clusters the records and returns one row per record with its cluster's
/// identifier `"{index}-{size}"`.
pub fn dedup_records(records: &Vec<Record>, num_perm: usize, num_bands: usize, threshold: Threshold)
    -> (r: Result<Vec<RecordResult>, ServiceError>)
    requires
        records.len() < usize::MAX,
    ensures
        match r {
            Ok(rows) => valid_bands(num_perm, num_bands) && threshold.wf() && exists|perms: Seq<(u64, u64)>, lookup: Seq<Option<usize>>, groups: Seq<Seq<usize>>| {
                &&& perms.len() == num_perm
                &&& lookup.len() == records.len()
                &&& forall|x: int| 0 <= x < records.len() ==> (#[trigger] lookup[x]) is Some
                &&& grouped_ok(lookup, groups)
                &&& forall|x: usize, y: usize| x < records.len() && #[trigger] matched(records@, perms, num_bands as nat, threshold, x as int, y as int)
                    ==> joined(lookup, x, y)
                &&& forall|f: spec_fn(usize) -> int, x: usize, y: usize|
                    #[trigger] respects_matches(records@, perms, num_bands as nat, threshold, f) && #[trigger] joined(lookup, x, y)
                    ==> f(x) == f(y)
                &&& rows_view(rows@) == rows_of(record_ids(records@), groups)
            },
            Err(e) => {
                &&& (e.status == Status::BadRequest <==> !(valid_bands(num_perm, num_bands) && threshold.wf()))
                &&& (e.status == Status::BadRequest || e.status == Status::InternalServerError)
            },
        },
{
    if !(threshold.denominator > 0 && threshold.numerator <= threshold.denominator) {
        return Err(ServiceError::bad_request("threshold must lie between 0 and 1"));
    }
    let lsh = match MinHashLSH::new(records, num_perm, num_bands) {
        Ok(lsh) => lsh,
        Err(e) => {
            return Err(e);
        },
    };
    let ghost perms = choose|perms: Seq<(u64, u64)>| perms.len() == num_perm
        && #[trigger] lsh.indexes(records@, perms, num_perm, num_bands);
    let table = DeduplicationTable::new(&lsh, Some(threshold));
    let groups = table.grouped_ids();
    let ghost gs = groups@.map_values(|g: Vec<usize>| g@);
    proof {
        assert forall|i: int, p: int| 0 <= i < groups.len() && 0 <= p < groups@[i]@.len() implies
            #[trigger] groups@[i]@[p] < records.len() by {
            assert(gs[i][p] == groups@[i]@[p]);
        }
    }
    let rows = emit_rows(records, &groups);
    proof {
        let lookup = table.doc_lookup@;
        assert(lsh.band_size_spec() == (num_perm as nat) / (num_bands as nat)) by {
            vstd::arithmetic::div_mod::lemma_div_multiples_vanish(lsh.band_size_spec() as int, num_bands as int);
            vstd::arithmetic::mul::lemma_mul_is_commutative(lsh.band_size_spec() as int, num_bands as int);
        }
        assert forall|x: usize, y: usize| x < records.len() && #[trigger] matched(records@, perms, num_bands as nat, threshold, x as int, y as int)
            implies joined(lookup, x, y) by {
            assert(lsh.signatures()[x as int] == record_signature(records@[x as int].text@, perms));
            assert(lsh.signatures()[y as int] == record_signature(records@[y as int].text@, perms));
            assert(lsh.is_match(lsh.signatures()[x as int], y as int, Some(threshold)));
        }
        assert forall|f: spec_fn(usize) -> int, x: usize, y: usize|
            #[trigger] respects_matches(records@, perms, num_bands as nat, threshold, f) && #[trigger] joined(lookup, x, y)
            implies f(x) == f(y) by {
            assert forall|a: usize, b: usize| a < lsh.minhash_map.len()
                && #[trigger] lsh.is_match(lsh.signatures()[a as int], b as int, Some(threshold)) implies f(a) == f(b) by {
                assert(lsh.signatures()[a as int] == record_signature(records@[a as int].text@, perms));
                assert(lsh.signatures()[b as int] == record_signature(records@[b as int].text@, perms));
                assert(matched(records@, perms, num_bands as nat, threshold, a as int, b as int));
            }
            assert(lsh.respected_by(Some(threshold), f));
            assert(table.same_cluster(x, y));
        }
        assert forall|x: int| 0 <= x < records.len() implies (#[trigger] lookup[x]) is Some by {
            assert(table.doc_lookup@[(x as usize) as int] is Some);
        }
    }
    Ok(rows)
}

} // verus!
