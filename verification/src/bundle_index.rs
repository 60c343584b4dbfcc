use crate::matrix::Matrix;
use crate::model::n_dims;
use crate::node::is_cut_value;
use crate::observation_bundle::ObservationBundle;
use std::collections::BTreeMap;
use vstd::prelude::*;
use vstd::std_specs::btree::increasing_seq;
use vstd::std_specs::cmp::OrdSpec;

verus! {

broadcast use vstd::std_specs::btree::group_btree_axioms;

/// The members of `bundle` are the observations whose covariate `p` is the
/// bundle's cut point, and there is at least one.
pub open spec fn bundle_holds(bundle: ObservationBundle, cov: Seq<Seq<int>>, p: int) -> bool {
    &&& exists|m: usize| #[trigger] bundle.members().contains(m)
    &&& forall|m: usize| #[trigger]
        bundle.members().contains(m) <==> m < cov.len() && cov[m as int][p] == bundle.cut_point
}

/// The cut points of `dim` ascend strictly.
pub open spec fn cuts_ascend(dim: Seq<ObservationBundle>) -> bool {
    forall|b: int, c: int| 0 <= b < c < dim.len() ==> dim[b].cut_point < dim[c].cut_point
}

/// Some bundle of `dim` has the cut point `value`.
pub open spec fn has_cut(dim: Seq<ObservationBundle>, value: int) -> bool {
    exists|b: int| 0 <= b < dim.len() && (#[trigger] dim[b]).cut_point == value
}

/// `dim` is the bundles of covariate `p`: one for each value that it takes,
/// in ascending order of the values.
pub open spec fn dim_wf(dim: Seq<ObservationBundle>, cov: Seq<Seq<int>>, p: int) -> bool {
    &&& cuts_ascend(dim)
    &&& forall|b: int| 0 <= b < dim.len() ==> bundle_holds(#[trigger] dim[b], cov, p)
    &&& forall|i: int| 0 <= i < cov.len() ==> has_cut(dim, #[trigger] cov[i][p])
}

/// `sets` is the bundle index of `cov`: the bundles of each covariate.
pub open spec fn index_wf(sets: Seq<Vec<ObservationBundle>>, cov: Seq<Seq<int>>) -> bool {
    &&& sets.len() == n_dims(cov)
    &&& forall|p: int| 0 <= p < sets.len() ==> dim_wf((#[trigger] sets[p])@, cov, p)
}

/// `tree` maps each value that covariate `p` takes to the bundle of the
/// observations with that value.
pub open spec fn tree_holds(tree: Map<i64, ObservationBundle>, cov: Seq<Seq<int>>, p: int) -> bool {
    &&& forall|v: i64| #[trigger] tree.contains_key(v) <==> is_cut_value(cov, p, v as int)
    &&& forall|v: i64| #[trigger]
        tree.contains_key(v) ==> tree[v].cut_point == v && bundle_holds(tree[v], cov, p)
}

/// References to keys in increasing order refer to ascending numbers.
proof fn lemma_keys_ascend(s: Seq<&i64>)
    requires
        increasing_seq(s),
    ensures
        forall|i: int, j: int| 0 <= i < j < s.len() ==> *s[i] < *s[j],
{
    broadcast use vstd::laws_cmp::group_laws_cmp;

    assert(vstd::laws_cmp::obeys_cmp::<&i64>());
    vstd::std_specs::btree::axiom_increasing_seq_meaning::<&i64>(s);
    assert forall|i: int, j: int| 0 <= i < j < s.len() implies *s[i] < *s[j] by {
        assert(OrdSpec::cmp_spec(&s[i], &s[j]) is Less);
    }
}

/// The keys of `tree` in ascending order.
fn sorted_keys(tree: &BTreeMap<i64, ObservationBundle>) -> (keys: Vec<i64>)
    ensures
        forall|v: i64| keys@.contains(v) <==> tree@.contains_key(v),
        forall|i: int, j: int| 0 <= i < j < keys@.len() ==> keys@[i] < keys@[j],
{
    let mut keys: Vec<i64> = Vec::new();
    for key in iter: tree.keys()
        invariant
            iter.seq().unref().to_set() == tree@.dom(),
            increasing_seq(iter.seq()),
            keys@ == iter.seq().unref().take(iter.index() as int),
            forall|i: int, j: int| 0 <= i < j < keys@.len() ==> keys@[i] < keys@[j],
            forall|v: i64|
                keys@.contains(v) <==> (exists|t: int|
                    0 <= t < iter.index() && #[trigger] iter.seq().unref()[t] == v),
    {
        assert(key == iter.seq()[iter.index() as int]);
        keys.push(*key);
        proof {
            assert(keys@ =~= iter.seq().unref().take(iter.index() + 1));
            lemma_keys_ascend(iter.seq());
            assert forall|i: int, j: int| 0 <= i < j < keys@.len() implies keys@[i]
                < keys@[j] by {
                assert(keys@[i] == *iter.seq()[i]);
                assert(keys@[j] == *iter.seq()[j]);
            }
            assert forall|v: i64|
                keys@.contains(v) <==> (exists|t: int|
                    0 <= t < iter.index() + 1 && #[trigger] iter.seq().unref()[t] == v) by {
                if keys@.contains(v) {
                    let t = choose|t: int| 0 <= t < keys@.len() && keys@[t] == v;
                    assert(iter.seq().unref()[t] == v);
                }
                if exists|t: int|
                    0 <= t < iter.index() + 1 && #[trigger] iter.seq().unref()[t] == v {
                    let t = choose|t: int|
                        0 <= t < iter.index() + 1 && #[trigger] iter.seq().unref()[t] == v;
                    assert(keys@[t] == v);
                }
            }
        }
    }
    proof {
        assert forall|v: i64| keys@.contains(v) <==> tree@.contains_key(v) by {
            assert(tree@.dom().contains(v) <==> tree@.contains_key(v));
        }
    }
    keys
}

/// Puts observation `i`, whose covariate is `value`, into its bundle in
/// `tree`, a new one where no observation before had that value.
fn put(tree: &mut BTreeMap<i64, ObservationBundle>, value: i64, i: usize)
    ensures
        final(tree)@.dom() == old(tree)@.dom().insert(value),
        final(tree)@[value].cut_point == value,
        old(tree)@.contains_key(value) ==> final(tree)@[value].members() == old(
            tree,
        )@[value].members().insert(i),
        !old(tree)@.contains_key(value) ==> final(tree)@[value].members() == set![i],
        forall|v: i64|
            v != value && old(tree)@.contains_key(v) ==> final(tree)@[v] == old(tree)@[v],
{
    match tree.remove(&value) {
        Some(bundle) => {
            let mut bundle = bundle;
            bundle.add(i);
            tree.insert(value, ObservationBundle { cut_point: value, indexes: bundle.indexes });
        },
        None => {
            tree.insert(value, ObservationBundle::new(value, i));
        },
    }
    assert(final(tree)@.dom() =~= old(tree)@.dom().insert(value));
}

/// The bundles of covariate `p` of `dataset`, in ascending order of their
/// cut points: an ordered map from values to bundles is filled row by row
/// and then emptied in the order of its keys.
fn sorted_set(dataset: &Matrix, p: usize) -> (dim: Vec<ObservationBundle>)
    requires
        dataset.wf(),
        p < dataset.ncols,
    ensures
        dim_wf(dim@, dataset@, p as int),
{
    let ghost cov = dataset@;
    let n: usize = dataset.nrows();
    let mut tree: BTreeMap<i64, ObservationBundle> = BTreeMap::new();
    let mut i: usize = 0;
    while i < n
        invariant
            i <= n,
            n == cov.len(),
            cov == dataset@,
            dataset.wf(),
            p < dataset.ncols,
            tree_holds(tree@, cov.take(i as int), p as int),
        decreases n - i,
    {
        let value: i64 = dataset.get(i, p);
        let ghost before = tree@;
        let ghost seen = cov.take(i as int);
        let ghost next = cov.take(i + 1);
        put(&mut tree, value, i);
        proof {
            let after = tree@;
            assert(next[i as int][p as int] == value);
            assert forall|v: i64| #[trigger] after.contains_key(v) <==> is_cut_value(
                next,
                p as int,
                v as int,
            ) by {
                assert(after.dom().contains(v) <==> before.dom().contains(v) || v == value);
                if is_cut_value(seen, p as int, v as int) {
                    let r = choose|r: int| 0 <= r < seen.len() && #[trigger] seen[r][p as int] == v;
                    assert(next[r][p as int] == v);
                }
                if is_cut_value(next, p as int, v as int) && v != value {
                    let r = choose|r: int| 0 <= r < next.len() && #[trigger] next[r][p as int] == v;
                    assert(seen[r][p as int] == v);
                }
            }
            assert forall|v: i64| #[trigger] after.contains_key(v) implies after[v].cut_point == v
                && bundle_holds(after[v], next, p as int) by {
                assert(after.dom().contains(v) <==> before.dom().contains(v) || v == value);
                if v == value {
                    assert(after[v].members().contains(i));
                    if before.contains_key(v) {
                        assert(bundle_holds(before[v], seen, p as int));
                    }
                    assert forall|m: usize| #[trigger]
                        after[v].members().contains(m) <==> m < next.len()
                            && next[m as int][p as int] == after[v].cut_point by {
                        if m < i && seen[m as int][p as int] == value {
                            assert(is_cut_value(seen, p as int, value as int));
                        }
                    }
                } else {
                    assert(bundle_holds(before[v], seen, p as int));
                    let w = choose|m: usize| #[trigger] before[v].members().contains(m);
                    assert(after[v].members().contains(w));
                }
            }
        }
        i += 1;
    }
    proof {
        assert(cov.take(n as int) =~= cov);
    }
    let keys = sorted_keys(&tree);
    let ghost full = tree@;
    proof {
        assert forall|c: int| 0 <= c < keys@.len() implies full.contains_key(
            #[trigger] keys@[c],
        ) by {
            assert(keys@.contains(keys@[c]));
        }
    }
    let mut dim: Vec<ObservationBundle> = Vec::new();
    let mut b: usize = 0;
    while b < keys.len()
        invariant
            b <= keys@.len(),
            dim@.len() == b,
            tree_holds(full, cov, p as int),
            forall|v: i64| keys@.contains(v) <==> full.contains_key(v),
            forall|i: int, j: int| 0 <= i < j < keys@.len() ==> keys@[i] < keys@[j],
            forall|c: int| 0 <= c < b ==> #[trigger] dim@[c] == full[keys@[c]],
            forall|c: int|
                b <= c < keys@.len() ==> tree@.contains_key(#[trigger] keys@[c]) && tree@[keys@[c]]
                    == full[keys@[c]],
        decreases keys@.len() - b,
    {
        let key: i64 = keys[b];
        let ghost before = tree@;
        assert(before.contains_key(keys@[b as int]));
        let bundle = tree.remove(&key).unwrap();
        proof {
            assert forall|c: int| b + 1 <= c < keys@.len() implies tree@.contains_key(
                #[trigger] keys@[c],
            ) && tree@[keys@[c]] == full[keys@[c]] by {
                assert(keys@[b as int] < keys@[c]);
                assert(before.contains_key(keys@[c]));
            }
        }
        dim.push(bundle);
        b += 1;
    }
    proof {
        let done = dim@;
        assert forall|c: int| 0 <= c < done.len() implies bundle_holds(
            #[trigger] done[c],
            cov,
            p as int,
        ) && done[c].cut_point == keys@[c] by {
            assert(keys@.contains(keys@[c]));
            assert(full.contains_key(keys@[c]));
        }
        assert(cuts_ascend(done)) by {
            assert forall|c: int, d: int| 0 <= c < d < done.len() implies done[c].cut_point
                < done[d].cut_point by {
                assert(keys@[c] < keys@[d]);
            }
        }
        assert forall|r: int| 0 <= r < cov.len() implies has_cut(
            done,
            #[trigger] cov[r][p as int],
        ) by {
            let v: i64 = dataset.rows@[r]@[p as int];
            assert(cov[r][p as int] == v);
            assert(is_cut_value(cov, p as int, v as int));
            assert(full.contains_key(v));
            assert(keys@.contains(v));
            let c = choose|c: int| 0 <= c < keys@.len() && keys@[c] == v;
            assert(done[c].cut_point == v);
        }
    }
    dim
}

/// Builds the bundle index of `dataset`: for each covariate its bundles, one
/// for each value that it takes, in ascending order of the values. There is
/// no index of a table without rows or without columns.
pub fn new_sorted_sets(dataset: &Matrix) -> (r: Option<Vec<Vec<ObservationBundle>>>)
    requires
        dataset.wf(),
    ensures
        r.is_none() <==> (dataset@.len() == 0 || dataset.ncols == 0),
        r.is_some() ==> index_wf(r.unwrap()@, dataset@),
{
    if dataset.nrows() == 0 || dataset.ncols() == 0 {
        return None;
    }
    let np: usize = dataset.ncols();
    assert(dataset.rows@[0]@.len() == np);
    let mut sets: Vec<Vec<ObservationBundle>> = Vec::new();
    let mut p: usize = 0;
    while p < np
        invariant
            p <= np,
            np == dataset.ncols,
            dataset.wf(),
            sets@.len() == p,
            forall|q: int| 0 <= q < p ==> dim_wf((#[trigger] sets@[q])@, dataset@, q),
        decreases np - p,
    {
        let dim = sorted_set(dataset, p);
        sets.push(dim);
        p += 1;
    }
    Some(sets)
}

} // verus!
