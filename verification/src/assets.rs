//! Asset registry: declared assets, their composite keys (relative path,
//! load strategy), and Script load-order bookkeeping.

use vstd::prelude::*;

use crate::EditorError;

verus! {

/// Kind of a declared asset, inferred from its file extension at import time.
#[derive(Clone, Copy, Debug, PartialEq, Eq, Structural)]
pub enum AssetType {
    Script,
    Texture,
    Sfx,
    Music,
    Font,
}

/// Whether an asset's bytes are bundled into the generated program
/// (`Emdedded`) or loaded from disk at runtime (`External`).
#[derive(Clone, Copy, Debug, PartialEq, Eq, Structural)]
pub enum LoadType {
    External,
    Emdedded,
}

/// A declared external resource the generated program will load.
pub struct Asset {
    pub name: String,
    pub path: String,
    pub absolute_path: String,
    pub type_of: AssetType,
    pub load_type: LoadType,
    pub load_order: Option<usize>,
}

impl Clone for Asset {
    fn clone(&self) -> (r: Self)
        ensures
            r == *self,
    {
        Asset {
            name: self.name.clone(),
            path: self.path.clone(),
            absolute_path: self.absolute_path.clone(),
            type_of: self.type_of,
            load_type: self.load_type,
            load_order: self.load_order,
        }
    }
}

/// Whether `a` carries the composite registry key `(path, lt)`.
pub open spec fn asset_key_matches(a: Asset, path: Seq<char>, lt: LoadType) -> bool {
    a.path@ == path && a.load_type == lt
}

/// No two assets share a composite key.
pub open spec fn keys_distinct(s: Seq<Asset>) -> bool {
    forall|i: int, j: int|
        0 <= i < j < s.len()
            ==> !asset_key_matches(#[trigger] s[j], (#[trigger] s[i]).path@, s[i].load_type)
}

/// Per-asset shape: Scripts are embedded and ordered, Fonts are embedded,
/// and only Scripts carry a load order.
pub open spec fn asset_wf(a: Asset) -> bool {
    &&& a.type_of is Script ==> a.load_type is Emdedded
    &&& a.type_of is Font ==> a.load_type is Emdedded
    &&& (a.type_of is Script <==> a.load_order is Some)
}

/// No two Script assets share a load-order value.
pub open spec fn script_orders_distinct(s: Seq<Asset>) -> bool {
    forall|i: int, j: int|
        0 <= i < j < s.len() && (#[trigger] s[i]).type_of is Script
            && (#[trigger] s[j]).type_of is Script ==> s[i].load_order != s[j].load_order
}

/// Registry invariant: distinct keys, well-shaped assets, distinct orders.
pub open spec fn registry_wf(s: Seq<Asset>) -> bool {
    &&& keys_distinct(s)
    &&& forall|i: int| 0 <= i < s.len() ==> asset_wf(#[trigger] s[i])
    &&& script_orders_distinct(s)
}

/// Some Script asset carries load order `o`.
pub open spec fn order_used(s: Seq<Asset>, o: usize) -> bool {
    exists|i: int|
        0 <= i < s.len() && (#[trigger] s[i]).type_of is Script && s[i].load_order == Some(o)
}

/// `o` is the smallest load order not in use: the next unused order, which a
/// newly registered Script receives.
pub open spec fn is_next_free_order(s: Seq<Asset>, o: usize) -> bool {
    &&& !order_used(s, o)
    &&& forall|m: usize| m < o ==> order_used(s, m)
}

/// Number of Script assets.
pub open spec fn script_count(s: Seq<Asset>) -> nat
    decreases s.len(),
{
    if s.len() == 0 {
        0
    } else {
        script_count(s.drop_last()) + if s.last().type_of is Script {
            1nat
        } else {
            0nat
        }
    }
}

/// Load orders form the contiguous range `0 .. script_count`: every order is
/// below the count and every value below the count is in use.
pub open spec fn orders_contiguous(s: Seq<Asset>) -> bool {
    &&& forall|i: int|
        0 <= i < s.len() && (#[trigger] s[i]).type_of is Script
            ==> (s[i].load_order matches Some(o) && o < script_count(s))
    &&& forall|o: usize| o < script_count(s) ==> order_used(s, o)
}

/// The registry with every asset keyed `(path, lt)` filtered out.
pub open spec fn spec_remove_key(s: Seq<Asset>, path: Seq<char>, lt: LoadType) -> Seq<Asset>
    decreases s.len(),
{
    if s.len() == 0 {
        Seq::empty()
    } else {
        let rest = spec_remove_key(s.drop_last(), path, lt);
        if asset_key_matches(s.last(), path, lt) {
            rest
        } else {
            rest.push(s.last())
        }
    }
}

/// Every element of the filtered registry is an element of the original,
/// no filtered element carries the removed key, and the invariant survives.
pub proof fn lemma_remove_key_wf(s: Seq<Asset>, path: Seq<char>, lt: LoadType)
    requires
        registry_wf(s),
    ensures
        registry_wf(spec_remove_key(s, path, lt)),
        forall|k: int|
            0 <= k < spec_remove_key(s, path, lt).len()
                ==> !asset_key_matches(#[trigger] spec_remove_key(s, path, lt)[k], path, lt),
        forall|k: int|
            0 <= k < spec_remove_key(s, path, lt).len()
                ==> exists|i: int|
                0 <= i < s.len() && s[i] == #[trigger] spec_remove_key(s, path, lt)[k],
    decreases s.len(),
{
    if s.len() > 0 {
        let d = s.drop_last();
        assert(registry_wf(d)) by {
            assert(forall|i: int| 0 <= i < d.len() ==> d[i] == s[i]);
        }
        lemma_remove_key_wf(d, path, lt);
        let rest = spec_remove_key(d, path, lt);
        if !asset_key_matches(s.last(), path, lt) {
            let r = rest.push(s.last());
            assert(s[s.len() - 1] == s.last());
            assert forall|k: int| 0 <= k < r.len() implies exists|i: int|
                0 <= i < s.len() && s[i] == #[trigger] r[k] by {
                if k < rest.len() {
                    let i = choose|i: int| 0 <= i < d.len() && d[i] == rest[k];
                    assert(s[i] == r[k]);
                } else {
                    assert(s[s.len() - 1] == r[k]);
                }
            }
            assert(keys_distinct(r)) by {
                assert forall|i: int, j: int| 0 <= i < j < r.len() implies !asset_key_matches(
                    r[j],
                    r[i].path@,
                    r[i].load_type,
                ) by {
                    if j < rest.len() {
                    } else {
                        let i0 = choose|i0: int| 0 <= i0 < d.len() && d[i0] == rest[i];
                        assert(!asset_key_matches(s.last(), s[i0].path@, s[i0].load_type));
                    }
                }
            }
            assert(script_orders_distinct(r)) by {
                assert forall|i: int, j: int|
                    0 <= i < j < r.len() && r[i].type_of is Script && r[j].type_of is Script
                    implies r[i].load_order != r[j].load_order by {
                    if j < rest.len() {
                    } else {
                        let i0 = choose|i0: int| 0 <= i0 < d.len() && d[i0] == rest[i];
                        assert(s[i0] == r[i] && s[s.len() - 1] == r[j]);
                    }
                }
            }
        }
    }
}

/// Filtering a key that no asset carries leaves the registry unchanged.
pub proof fn lemma_remove_key_absent(s: Seq<Asset>, path: Seq<char>, lt: LoadType)
    requires
        forall|i: int| 0 <= i < s.len() ==> !asset_key_matches(#[trigger] s[i], path, lt),
    ensures
        spec_remove_key(s, path, lt) == s,
    decreases s.len(),
{
    if s.len() > 0 {
        let d = s.drop_last();
        assert(forall|i: int| 0 <= i < d.len() ==> d[i] == s[i]);
        lemma_remove_key_absent(d, path, lt);
        assert(s[s.len() - 1] == s.last());
        assert(spec_remove_key(s, path, lt) =~= s);
    }
}

/// LAW: an asset is never yielded after its key is removed. Once every asset
/// with key `(path, lt)` has been erased — as `remove` ensures — no asset
/// carrying that key, in particular none returned by an earlier `register`
/// under that key, is in the registry any more.
pub proof fn lemma_removed_key_absent(s: Seq<Asset>, path: Seq<char>, lt: LoadType, a: Asset)
    requires
        forall|i: int| 0 <= i < s.len() ==> !asset_key_matches(#[trigger] s[i], path, lt),
        asset_key_matches(a, path, lt),
    ensures
        forall|i: int| 0 <= i < s.len() ==> s[i] != a,
{
}

/// At most as many Script assets as assets.
pub proof fn lemma_script_count_le_len(s: Seq<Asset>)
    ensures
        script_count(s) <= s.len(),
    decreases s.len(),
{
    if s.len() > 0 {
        lemma_script_count_le_len(s.drop_last());
    }
}

/// Dropping one asset lowers the Script count by one exactly when the
/// dropped asset is a Script.
pub proof fn lemma_script_count_remove(s: Seq<Asset>, i: int)
    requires
        0 <= i < s.len(),
    ensures
        script_count(s.remove(i)) + if s[i].type_of is Script {
            1nat
        } else {
            0nat
        } == script_count(s),
    decreases s.len(),
{
    if i == s.len() - 1 {
        assert(s.remove(i) =~= s.drop_last());
        assert(s[i] == s.last());
    } else {
        assert(s.remove(i).drop_last() =~= s.drop_last().remove(i));
        assert(s.remove(i).last() == s.last());
        assert(s.drop_last()[i] == s[i]);
        lemma_script_count_remove(s.drop_last(), i);
    }
}

/// Pigeonhole for load orders: when `k` distinct order values are all in
/// use, there are at least `k` Script assets.
pub proof fn lemma_orders_pigeonhole(s: Seq<Asset>, k: nat)
    requires
        k <= usize::MAX + 1,
        script_orders_distinct(s),
        forall|m: usize| m < k ==> order_used(s, m),
    ensures
        k <= script_count(s),
    decreases k,
{
    if k > 0 {
        let last: usize = (k - 1) as usize;
        assert(order_used(s, last));
        let i = choose|i: int|
            0 <= i < s.len() && (#[trigger] s[i]).type_of is Script && s[i].load_order == Some(
                last,
            );
        let t = s.remove(i);
        assert(forall|j: int| 0 <= j < i ==> t[j] == s[j]);
        assert(forall|j: int| i <= j < t.len() ==> t[j] == s[j + 1]);
        assert(script_orders_distinct(t)) by {
            assert forall|p: int, q: int|
                0 <= p < q < t.len() && (#[trigger] t[p]).type_of is Script
                    && (#[trigger] t[q]).type_of is Script implies t[p].load_order
                != t[q].load_order by {
                let p0: int = if p < i {
                    p
                } else {
                    p + 1
                };
                let q0: int = if q < i {
                    q
                } else {
                    q + 1
                };
                assert(t[p] == s[p0] && t[q] == s[q0]);
            }
        }
        assert forall|m: usize| m < last implies order_used(t, m) by {
            assert(order_used(s, m));
            let j = choose|j: int|
                0 <= j < s.len() && (#[trigger] s[j]).type_of is Script && s[j].load_order == Some(
                    m,
                );
            assert(j != i);
            if j < i {
                assert(t[j] == s[j]);
            } else {
                assert(t[j - 1] == s[j]);
            }
        }
        lemma_orders_pigeonhole(t, last as nat);
        lemma_script_count_remove(s, i);
    }
}

/// LAW: registering a Script keeps load orders contiguous. Appending a fresh
/// embedded Script whose order is the next unused order of a registry with
/// contiguous orders yields a registry with contiguous orders again; at
/// registration time orders are therefore always `0 .. script_count`.
pub proof fn lemma_next_order_extends_contiguous(s: Seq<Asset>, a: Asset)
    requires
        registry_wf(s),
        orders_contiguous(s),
        a.type_of is Script,
        a.load_type is Emdedded,
        a.load_order matches Some(o) && is_next_free_order(s, o),
        forall|i: int| 0 <= i < s.len() ==> !asset_key_matches(#[trigger] s[i], a.path@, a.load_type),
    ensures
        registry_wf(s.push(a)),
        orders_contiguous(s.push(a)),
        a.load_order == Some(script_count(s) as usize),
{
    let o = a.load_order->Some_0;
    let t = s.push(a);
    let n = script_count(s);
    assert(t.drop_last() =~= s);
    assert(script_count(t) == n + 1);
    assert(forall|i: int| 0 <= i < s.len() ==> t[i] == s[i]);
    assert(t[t.len() - 1] == a);

    lemma_script_count_le_len(s);
    // the next unused order equals the script count
    assert(o == n) by {
        if o < n {
            assert(order_used(s, o));
            assert(false);
        }
        if o > n {
            assert((n as usize) < o);
            assert(order_used(s, n as usize));
            let i = choose|i: int|
                0 <= i < s.len() && (#[trigger] s[i]).type_of is Script && s[i].load_order == Some(
                    n as usize,
                );
            assert(s[i].load_order matches Some(m) && m < n);
            assert(false);
        }
    }

    assert(keys_distinct(t)) by {
        assert forall|i: int, j: int| 0 <= i < j < t.len() implies !asset_key_matches(
            t[j],
            t[i].path@,
            t[i].load_type,
        ) by {
            if j == t.len() - 1 {
                assert(!asset_key_matches(a, s[i].path@, s[i].load_type));
            }
        }
    }
    assert(script_orders_distinct(t)) by {
        assert forall|i: int, j: int|
            0 <= i < j < t.len() && t[i].type_of is Script && t[j].type_of is Script
            implies t[i].load_order != t[j].load_order by {
            if j == t.len() - 1 {
                assert(order_used(s, o) || s[i].load_order != Some(o));
            }
        }
    }
    assert forall|i: int| 0 <= i < t.len() && (#[trigger] t[i]).type_of is Script
        implies t[i].load_order matches Some(m) && m < script_count(t) by {
        if i < s.len() {
            assert(s[i].load_order matches Some(m) && m < n);
        }
    }
    assert forall|m: usize| m < script_count(t) implies order_used(t, m) by {
        if m < n {
            assert(order_used(s, m));
            let i = choose|i: int|
                0 <= i < s.len() && (#[trigger] s[i]).type_of is Script && s[i].load_order
                    == Some(m);
            assert(t[i].type_of is Script && t[i].load_order == Some(m));
        } else {
            assert(t[t.len() - 1].type_of is Script && t[t.len() - 1].load_order == Some(m));
        }
    }
}

/// The registry with the load orders of the assets at `ia` and `ib` swapped.
pub open spec fn swapped_orders(s: Seq<Asset>, ia: int, ib: int) -> Seq<Asset> {
    s.update(ia, Asset { load_order: s[ib].load_order, ..s[ia] }).update(
        ib,
        Asset { load_order: s[ia].load_order, ..s[ib] },
    )
}

/// Some pair of indexes points at ordered Script assets under the two keys.
pub open spec fn some_reorder_applies(s: Seq<Asset>, a_path: Seq<char>, b_path: Seq<char>) -> bool {
    exists|ia: int, ib: int| reorder_applies(s, a_path, b_path, ia, ib)
}

/// `ia` and `ib` point at ordered Script assets keyed by the two paths.
pub open spec fn reorder_applies(
    s: Seq<Asset>,
    a_path: Seq<char>,
    b_path: Seq<char>,
    ia: int,
    ib: int,
) -> bool {
    &&& 0 <= ia < s.len() && 0 <= ib < s.len()
    &&& asset_key_matches(s[ia], a_path, LoadType::Emdedded)
    &&& s[ia].type_of is Script && s[ia].load_order is Some
    &&& asset_key_matches(s[ib], b_path, LoadType::Emdedded)
    &&& s[ib].type_of is Script && s[ib].load_order is Some
}

/// Replacing an asset by one of the same kind keeps the Script count.
pub proof fn lemma_script_count_update(s: Seq<Asset>, i: int, a: Asset)
    requires
        0 <= i < s.len(),
        a.type_of == s[i].type_of,
    ensures
        script_count(s.update(i, a)) == script_count(s),
    decreases s.len(),
{
    let t = s.update(i, a);
    if i == s.len() - 1 {
        assert(t.drop_last() =~= s.drop_last());
        assert(t.last() == a);
    } else {
        assert(t.drop_last() =~= s.drop_last().update(i, a));
        assert(t.last() == s.last());
        assert(s.drop_last()[i] == s[i]);
        lemma_script_count_update(s.drop_last(), i, a);
    }
}

/// LAW: reorder keeps load orders a permutation of what they were. Swapping
/// the load orders of two Script assets preserves the registry invariant,
/// the Script count, and the set of orders in use; in particular orders
/// contiguous before a swap (`0 .. N-1`, no duplicates, no gaps) are
/// contiguous after it.
pub proof fn lemma_swap_preserves_contiguous(s: Seq<Asset>, ia: int, ib: int)
    requires
        registry_wf(s),
        0 <= ia < s.len(),
        0 <= ib < s.len(),
        s[ia].type_of is Script,
        s[ib].type_of is Script,
    ensures
        registry_wf(swapped_orders(s, ia, ib)),
        script_count(swapped_orders(s, ia, ib)) == script_count(s),
        forall|o: usize| order_used(swapped_orders(s, ia, ib), o) == order_used(s, o),
        orders_contiguous(s) ==> orders_contiguous(swapped_orders(s, ia, ib)),
{
    let t = swapped_orders(s, ia, ib);
    assert(t.len() == s.len());
    assert(forall|i: int| 0 <= i < s.len() && i != ia && i != ib ==> t[i] == s[i]);
    assert(t[ib] == Asset { load_order: s[ia].load_order, ..s[ib] });
    if ia != ib {
        assert(t[ia] == Asset { load_order: s[ib].load_order, ..s[ia] });
    }
    assert(forall|i: int|
        0 <= i < s.len() ==> (#[trigger] t[i]).path@ == s[i].path@ && t[i].load_type
            == s[i].load_type && t[i].type_of == s[i].type_of);

    assert(script_count(t) == script_count(s)) by {
        lemma_script_count_update(s, ia, Asset { load_order: s[ib].load_order, ..s[ia] });
        let u = s.update(ia, Asset { load_order: s[ib].load_order, ..s[ia] });
        assert(u[ib].type_of == s[ib].type_of);
        lemma_script_count_update(u, ib, Asset { load_order: s[ia].load_order, ..s[ib] });
    }

    assert forall|o: usize| order_used(t, o) == order_used(s, o) by {
        if order_used(s, o) {
            let i = choose|i: int|
                0 <= i < s.len() && (#[trigger] s[i]).type_of is Script && s[i].load_order == Some(
                    o,
                );
            if i == ia {
                assert(t[ib].type_of is Script && t[ib].load_order == Some(o));
            } else if i == ib {
                assert(t[ia].type_of is Script && t[ia].load_order == Some(o));
            } else {
                assert(t[i].type_of is Script && t[i].load_order == Some(o));
            }
            assert(order_used(t, o));
        }
        if order_used(t, o) {
            let i = choose|i: int|
                0 <= i < t.len() && (#[trigger] t[i]).type_of is Script && t[i].load_order == Some(
                    o,
                );
            if i == ia {
                assert(s[ib].type_of is Script && s[ib].load_order == Some(o));
            } else if i == ib {
                assert(s[ia].type_of is Script && s[ia].load_order == Some(o));
            } else {
                assert(s[i].type_of is Script && s[i].load_order == Some(o));
            }
            assert(order_used(s, o));
        }
    }

    assert(keys_distinct(t)) by {
        assert forall|i: int, j: int| 0 <= i < j < t.len() implies !asset_key_matches(
            t[j],
            t[i].path@,
            t[i].load_type,
        ) by {
            assert(!asset_key_matches(s[j], s[i].path@, s[i].load_type));
        }
    }
    assert(script_orders_distinct(t)) by {
        assert forall|i: int, j: int|
            0 <= i < j < t.len() && (#[trigger] t[i]).type_of is Script
                && (#[trigger] t[j]).type_of is Script implies t[i].load_order
            != t[j].load_order by {
            let i0: int = if i == ia {
                ib
            } else if i == ib {
                ia
            } else {
                i
            };
            let j0: int = if j == ia {
                ib
            } else if j == ib {
                ia
            } else {
                j
            };
            assert(t[i].load_order == s[i0].load_order);
            assert(t[j].load_order == s[j0].load_order);
            assert(s[i0].type_of is Script && s[j0].type_of is Script);
            if i0 != j0 {
                assert(s[i0].load_order != s[j0].load_order);
            } else {
                assert(i == ia && j == ib && ia != ib);
                assert(s[ia].load_order != s[ib].load_order);
                assert(false);
            }
        }
    }
    assert(forall|i: int| 0 <= i < t.len() ==> asset_wf(#[trigger] t[i]));

    if orders_contiguous(s) {
        assert forall|i: int| 0 <= i < t.len() && (#[trigger] t[i]).type_of is Script implies (t[i].load_order matches Some(
            m,
        ) && m < script_count(t)) by {
            let i0: int = if i == ia {
                ib
            } else if i == ib {
                ia
            } else {
                i
            };
            assert(t[i].load_order == s[i0].load_order);
            assert(s[i0].load_order matches Some(m) && m < script_count(s));
        }
        assert forall|o: usize| o < script_count(t) implies order_used(t, o) by {
            assert(order_used(s, o));
        }
    }
}

/// What `pathdiff::diff_paths` yields for a path and a base directory, as a
/// character sequence: the relative path from `base` to `path`, or `None`
/// when none exists. A pure function of the two paths.
pub uninterp spec fn path_diff(path: Seq<char>, base: Seq<char>) -> Option<Seq<char>>;

/// Relies on pathdiff::diff_paths: computes the relative path from `base` to
/// `path`, a deterministic function of the two arguments alone; `None` when
/// no relative path exists (or it is not valid UTF-8).
#[verifier::external_body]
fn diff_paths_str(path: &str, base: &str) -> (r: Option<String>)
    ensures
        match r {
            Some(s) => path_diff(path@, base@) == Some(s@),
            None => path_diff(path@, base@) is None,
        },
{
    match pathdiff::diff_paths(path, base) {
        Some(p) => p.to_str().map(|s| s.to_string()),
        None => None,
    }
}

/// The relative path climbs out of its base directory: it is `..` or
/// starts with `../`, so the file lies outside the base.
pub open spec fn escapes_base(rel: Seq<char>) -> bool {
    rel.len() >= 2 && rel[0] == '.' && rel[1] == '.' && (rel.len() == 2 || rel[2] == '/')
}

/// The base directory an asset path is made relative to: the project root
/// for external assets, the project's source sub-directory for embedded
/// ones.
pub open spec fn base_dir_of(load_type: LoadType, project_root: Seq<char>) -> Seq<char> {
    match load_type {
        LoadType::External => project_root,
        LoadType::Emdedded => project_root + "/src"@,
    }
}

/// The display name of an asset: everything after the last `/` of its path.
pub open spec fn file_name_of(p: Seq<char>) -> Seq<char>
    decreases p.len(),
{
    if p.len() == 0 {
        p
    } else if p.last() == '/' {
        Seq::empty()
    } else {
        file_name_of(p.drop_last()).push(p.last())
    }
}

proof fn lemma_file_name_suffix(p: Seq<char>, i: int)
    requires
        0 <= i < p.len(),
        p[i] == '/',
        forall|j: int| i < j < p.len() ==> p[j] != '/',
    ensures
        file_name_of(p) == p.subrange(i + 1, p.len() as int),
    decreases p.len(),
{
    if i == p.len() - 1 {
        assert(p.subrange(i + 1, p.len() as int) =~= Seq::<char>::empty());
    } else {
        let d = p.drop_last();
        assert(forall|j: int| 0 <= j < d.len() ==> d[j] == p[j]);
        lemma_file_name_suffix(d, i);
        assert(p.subrange(i + 1, p.len() as int) =~= d.subrange(i + 1, d.len() as int).push(
            p.last(),
        ));
    }
}

proof fn lemma_file_name_plain(p: Seq<char>)
    requires
        forall|j: int| 0 <= j < p.len() ==> p[j] != '/',
    ensures
        file_name_of(p) == p,
    decreases p.len(),
{
    if p.len() > 0 {
        let d = p.drop_last();
        assert(forall|j: int| 0 <= j < d.len() ==> d[j] == p[j]);
        lemma_file_name_plain(d);
        assert(file_name_of(p) =~= p);
    }
}

/// Everything after the last `/` of `path` (all of it when it has none).
pub fn file_name(path: &str) -> (r: String)
    ensures
        r@ == file_name_of(path@),
{
    let n = path.unicode_len();
    let mut last_slash: Option<usize> = None;
    for i in 0..n
        invariant
            n == path@.len(),
            match last_slash {
                Some(k) => k < i <= n && path@[k as int] == '/' && (forall|j: int|
                    k < j < i ==> path@[j] != '/'),
                None => forall|j: int| 0 <= j < i ==> path@[j] != '/',
            },
    {
        if path.get_char(i) == '/' {
            last_slash = Some(i);
        }
    }
    match last_slash {
        Some(k) => {
            proof {
                lemma_file_name_suffix(path@, k as int);
            }
            path.substring_char(k + 1, n).to_owned()
        },
        None => {
            proof {
                lemma_file_name_plain(path@);
            }
            path.to_owned()
        },
    }
}

/// The extension of a file name: everything after its last `.`, `None` when
/// it has none.
pub open spec fn ext_of_name(name: Seq<char>) -> Option<Seq<char>>
    decreases name.len(),
{
    if name.len() == 0 {
        None
    } else if name.last() == '.' {
        Some(Seq::empty())
    } else {
        match ext_of_name(name.drop_last()) {
            Some(e) => Some(e.push(name.last())),
            None => None,
        }
    }
}

/// The extension of the file a path names.
pub open spec fn extension_of(p: Seq<char>) -> Option<Seq<char>> {
    ext_of_name(file_name_of(p))
}

proof fn lemma_ext_suffix(name: Seq<char>, d: int)
    requires
        0 <= d < name.len(),
        name[d] == '.',
        forall|j: int| d < j < name.len() ==> name[j] != '.',
    ensures
        ext_of_name(name) == Some(name.subrange(d + 1, name.len() as int)),
    decreases name.len(),
{
    if d == name.len() - 1 {
        assert(name.subrange(d + 1, name.len() as int) =~= Seq::<char>::empty());
    } else {
        let t = name.drop_last();
        assert(forall|j: int| 0 <= j < t.len() ==> t[j] == name[j]);
        lemma_ext_suffix(t, d);
        assert(name.subrange(d + 1, name.len() as int) =~= t.subrange(
            d + 1,
            t.len() as int,
        ).push(name.last()));
    }
}

proof fn lemma_ext_none(name: Seq<char>)
    requires
        forall|j: int| 0 <= j < name.len() ==> name[j] != '.',
    ensures
        ext_of_name(name) is None,
    decreases name.len(),
{
    if name.len() > 0 {
        let t = name.drop_last();
        assert(forall|j: int| 0 <= j < t.len() ==> t[j] == name[j]);
        lemma_ext_none(t);
    }
}

/// The extension of the file `path` names: everything after the last `.` of
/// its file name, `None` when the name has no dot.
pub fn extension(path: &str) -> (r: Option<String>)
    ensures
        match r {
            Some(e) => extension_of(path@) == Some(e@),
            None => extension_of(path@) is None,
        },
{
    let n = path.unicode_len();
    let mut last_slash: Option<usize> = None;
    let mut last_dot: Option<usize> = None;
    for i in 0..n
        invariant
            n == path@.len(),
            match last_slash {
                Some(k) => k < i <= n && path@[k as int] == '/' && (forall|j: int|
                    k < j < i ==> path@[j] != '/'),
                None => forall|j: int| 0 <= j < i ==> path@[j] != '/',
            },
            match last_dot {
                Some(k) => k < i <= n && path@[k as int] == '.' && (forall|j: int|
                    k < j < i ==> path@[j] != '.'),
                None => forall|j: int| 0 <= j < i ==> path@[j] != '.',
            },
    {
        let c = path.get_char(i);
        if c == '/' {
            last_slash = Some(i);
        }
        if c == '.' {
            last_dot = Some(i);
        }
    }
    let name_start: usize = match last_slash {
        Some(k) => {
            proof {
                lemma_file_name_suffix(path@, k as int);
            }
            k + 1
        },
        None => {
            proof {
                lemma_file_name_plain(path@);
            }
            0
        },
    };
    let ghost name = file_name_of(path@);
    assert(name =~= path@.subrange(name_start as int, n as int));
    match last_dot {
        Some(d) => {
            if d >= name_start {
                proof {
                    assert(name[d - name_start] == '.');
                    assert(forall|j: int|
                        d - name_start < j < name.len() ==> name[j] != '.');
                    lemma_ext_suffix(name, d - name_start);
                    assert(name.subrange(d - name_start + 1, name.len() as int) =~= path@.subrange(
                        d + 1,
                        n as int,
                    ));
                }
                Some(path.substring_char(d + 1, n).to_owned())
            } else {
                proof {
                    assert(forall|j: int| 0 <= j < name.len() ==> name[j] != '.');
                    lemma_ext_none(name);
                }
                None
            }
        },
        None => {
            proof {
                assert(forall|j: int| 0 <= j < name.len() ==> name[j] != '.');
                lemma_ext_none(name);
            }
            None
        },
    }
}

/// The asset kind a file extension implies, `None` for unsupported ones.
pub open spec fn kind_for_extension(ext: Seq<char>) -> Option<AssetType> {
    if ext == "wren"@ {
        Some(AssetType::Script)
    } else if ext == "png"@ {
        Some(AssetType::Texture)
    } else if ext == "wav"@ {
        Some(AssetType::Sfx)
    } else if ext == "mp3"@ {
        Some(AssetType::Music)
    } else if ext == "ttf"@ {
        Some(AssetType::Font)
    } else {
        None
    }
}

/// The asset kind a whole path implies, through its file extension.
pub open spec fn kind_for_path(p: Seq<char>) -> Option<AssetType> {
    match extension_of(p) {
        Some(e) => kind_for_extension(e),
        None => None,
    }
}

/// The kind of asset the file extension implies: Wren sources are Scripts,
/// PNG images Textures, WAV sound effects, MP3 music, TTF fonts.
pub fn asset_kind_for_extension(ext: &str) -> (r: Option<AssetType>)
    ensures
        r == kind_for_extension(ext@),
{
    let e = ext.to_owned();
    if e == String::from_str("wren") {
        Some(AssetType::Script)
    } else if e == String::from_str("png") {
        Some(AssetType::Texture)
    } else if e == String::from_str("wav") {
        Some(AssetType::Sfx)
    } else if e == String::from_str("mp3") {
        Some(AssetType::Music)
    } else if e == String::from_str("ttf") {
        Some(AssetType::Font)
    } else {
        None
    }
}

/// A successful registration: `post` is `pre` with any entry under the new
/// asset's key replaced by the asset `a`, whose fields are derived from the
/// absolute path, base directory and kind as `register` describes.
pub open spec fn register_ok(
    pre: Seq<Asset>,
    post: Seq<Asset>,
    a: Asset,
    absolute_path: Seq<char>,
    project_root: Seq<char>,
    type_of: AssetType,
    load_type: LoadType,
) -> bool {
    &&& (path_diff(absolute_path, base_dir_of(load_type, project_root)) matches Some(rel)
        && a.path@ == rel && !escapes_base(rel))
    &&& a.absolute_path@ == absolute_path
    &&& a.name@ == file_name_of(absolute_path)
    &&& a.type_of == type_of
    &&& a.load_type == load_type
    &&& (type_of is Script ==> (a.load_order matches Some(o) && is_next_free_order(
        spec_remove_key(pre, a.path@, load_type),
        o,
    )))
    &&& (!(type_of is Script) ==> a.load_order is None)
    &&& post == spec_remove_key(pre, a.path@, load_type).push(a)
    &&& !((type_of is Script || type_of is Font) && load_type is External)
}

/// Project configuration: the asset registry and project-wide settings.
pub struct Config {
    /// The asset catalog. Keys `(path, load_type)` are unique; see
    /// [`registry_wf`].
    pub assets: Vec<Asset>,
    /// Target window dimensions of the generated program, in pixels.
    pub window_size: (u32, u32),
}

impl Config {
    /// The registry invariant holds of the asset catalog.
    pub open spec fn wf(&self) -> bool {
        registry_wf(self.assets@)
    }

    /// A fresh configuration: no assets, default window size.
    pub fn new() -> (r: Self)
        ensures
            r.wf(),
            r.assets@.len() == 0,
            r.window_size == (800u32, 600u32),
    {
        Config { assets: Vec::new(), window_size: (800, 600) }
    }

    /// Whether the registry invariant holds, checked at run time: used to
    /// validate a configuration read back from storage.
    pub fn is_wf(&self) -> (r: bool)
        ensures
            r == self.wf(),
    {
        let n = self.assets.len();
        for i in 0..n
            invariant
                n == self.assets@.len(),
                forall|j: int| 0 <= j < i ==> asset_wf(#[trigger] self.assets@[j]),
        {
            let a = &self.assets[i];
            let script = match a.type_of {
                AssetType::Script => true,
                _ => false,
            };
            let font = match a.type_of {
                AssetType::Font => true,
                _ => false,
            };
            let embedded = match a.load_type {
                LoadType::Emdedded => true,
                _ => false,
            };
            let shape_ok = (!script || (embedded && a.load_order.is_some())) && (!font || embedded)
                && (script == a.load_order.is_some());
            if !shape_ok {
                return false;
            }
        }
        for i in 0..n
            invariant
                n == self.assets@.len(),
                forall|p: int, q: int|
                    0 <= p < q < self.assets@.len() && p < i ==> !asset_key_matches(
                        #[trigger] self.assets@[q],
                        (#[trigger] self.assets@[p]).path@,
                        self.assets@[p].load_type,
                    ),
        {
            for j in (i + 1)..n
                invariant
                    n == self.assets@.len(),
                    i < n,
                    forall|q: int|
                        i < q < j ==> !asset_key_matches(
                            #[trigger] self.assets@[q],
                            self.assets@[i as int].path@,
                            self.assets@[i as int].load_type,
                        ),
            {
                let a = &self.assets[i];
                let b = &self.assets[j];
                if a.load_type == b.load_type && a.path == b.path {
                    return false;
                }
            }
        }
        for i in 0..n
            invariant
                n == self.assets@.len(),
                forall|p: int, q: int|
                    0 <= p < q < self.assets@.len() && p < i && (
                    #[trigger] self.assets@[p]).type_of is Script && (
                    #[trigger] self.assets@[q]).type_of is Script ==> self.assets@[p].load_order
                        != self.assets@[q].load_order,
        {
            for j in (i + 1)..n
                invariant
                    n == self.assets@.len(),
                    i < n,
                    forall|q: int|
                        i < q < j && self.assets@[i as int].type_of is Script && (
                        #[trigger] self.assets@[q]).type_of is Script
                            ==> self.assets@[i as int].load_order != self.assets@[q].load_order,
            {
                let a = &self.assets[i];
                let b = &self.assets[j];
                let both_scripts = match (a.type_of, b.type_of) {
                    (AssetType::Script, AssetType::Script) => true,
                    _ => false,
                };
                if both_scripts {
                    let same = match (a.load_order, b.load_order) {
                        (Some(x), Some(y)) => x == y,
                        (None, None) => true,
                        _ => false,
                    };
                    if same {
                        return false;
                    }
                }
            }
        }
        true
    }

    /// The declared assets, in storage order. Callers needing Script
    /// ordering must sort by load order.
    pub fn all(&self) -> (r: &Vec<Asset>)
        ensures
            r@ == self.assets@,
    {
        &self.assets
    }

    fn order_is_used(&self, o: usize) -> (r: bool)
        ensures
            r == order_used(self.assets@, o),
    {
        let n = self.assets.len();
        for i in 0..n
            invariant
                n == self.assets@.len(),
                forall|j: int|
                    0 <= j < i ==> !((#[trigger] self.assets@[j]).type_of is Script
                        && self.assets@[j].load_order == Some(o)),
        {
            let a = &self.assets[i];
            match a.type_of {
                AssetType::Script => {
                    if let Some(m) = a.load_order {
                        if m == o {
                            assert(self.assets@[i as int].type_of is Script
                                && self.assets@[i as int].load_order == Some(o));
                            return true;
                        }
                    }
                },
                _ => {},
            }
        }
        false
    }

    fn next_free_order(&self) -> (r: usize)
        requires
            registry_wf(self.assets@),
        ensures
            is_next_free_order(self.assets@, r),
    {
        let n = self.assets.len();
        for o in 0..n
            invariant
                n == self.assets@.len(),
                registry_wf(self.assets@),
                forall|m: usize| m < o ==> order_used(self.assets@, m),
        {
            if !self.order_is_used(o) {
                return o;
            }
        }
        proof {
            if order_used(self.assets@, n) {
                lemma_orders_pigeonhole(self.assets@, n as nat + 1);
                lemma_script_count_le_len(self.assets@);
            }
        }
        n
    }

    /// Deletes the entry under the composite key `(path, load_type)`.
    /// Remaining Script load orders are not renumbered: gaps are permitted.
    /// Afterwards no asset carries the removed key.
    pub fn remove(&mut self, path: &str, load_type: LoadType)
        requires
            registry_wf(old(self).assets@),
        ensures
            registry_wf(final(self).assets@),
            final(self).window_size == old(self).window_size,
            final(self).assets@ == spec_remove_key(old(self).assets@, path@, load_type),
            forall|i: int|
                0 <= i < final(self).assets@.len() ==> !asset_key_matches(
                    #[trigger] final(self).assets@[i],
                    path@,
                    load_type,
                ),
    {
        let ghost s0 = self.assets@;
        let key_path = path.to_owned();
        let n = self.assets.len();
        let mut kept: Vec<Asset> = Vec::new();
        for i in 0..n
            invariant
                n == s0.len(),
                self.assets@ == s0,
                key_path@ == path@,
                kept@ == spec_remove_key(s0.take(i as int), path@, load_type),
        {
            let a = &self.assets[i];
            proof {
                assert(s0.take(i + 1).drop_last() =~= s0.take(i as int));
                assert(s0.take(i + 1).last() == s0[i as int]);
            }
            if !(a.load_type == load_type && a.path == key_path) {
                kept.push(a.clone());
            }
        }
        proof {
            assert(s0.take(n as int) =~= s0);
            lemma_remove_key_wf(s0, path@, load_type);
        }
        self.assets = kept;
    }

    /// Registers the file at `absolute_path` under the given kind and
    /// strategy. The stored path is made relative to the project root
    /// (external) or its source sub-directory (embedded); a Script receives
    /// the next unused load order. Registering a key already present
    /// replaces the old entry (the registry is a map). Fails with
    /// `InvalidStrategy` for an external Script or Font, and with
    /// `PathResolution` when the file lies outside the base directory (or no
    /// relative path exists at all); either failure leaves the registry
    /// unchanged.
    pub fn register(
        &mut self,
        absolute_path: &str,
        project_root: &str,
        type_of: AssetType,
        load_type: LoadType,
    ) -> (r: Result<Asset, EditorError>)
        requires
            registry_wf(old(self).assets@),
        ensures
            registry_wf(final(self).assets@),
            final(self).window_size == old(self).window_size,
            match r {
                Ok(a) => register_ok(
                    old(self).assets@,
                    final(self).assets@,
                    a,
                    absolute_path@,
                    project_root@,
                    type_of,
                    load_type,
                ),
                Err(EditorError::InvalidStrategy) => {
                    &&& (type_of is Script || type_of is Font) && load_type is External
                    &&& *final(self) == *old(self)
                },
                Err(EditorError::PathResolution) => {
                    &&& !((type_of is Script || type_of is Font) && load_type is External)
                    &&& match path_diff(absolute_path@, base_dir_of(load_type, project_root@)) {
                        None => true,
                        Some(rel) => escapes_base(rel),
                    }
                    &&& *final(self) == *old(self)
                },
                Err(_) => false,
            },
    {
        let illegal = match (type_of, load_type) {
            (AssetType::Script, LoadType::External) => true,
            (AssetType::Font, LoadType::External) => true,
            _ => false,
        };
        if illegal {
            return Err(EditorError::InvalidStrategy);
        }
        let base = match load_type {
            LoadType::External => project_root.to_owned(),
            LoadType::Emdedded => project_root.to_owned().concat("/src"),
        };
        assert(base@ == base_dir_of(load_type, project_root@));
        let rel = match diff_paths_str(absolute_path, base.as_str()) {
            Some(p) => p,
            None => {
                return Err(EditorError::PathResolution);
            },
        };
        let rel_len = rel.as_str().unicode_len();
        if rel_len >= 2 && rel.as_str().get_char(0) == '.' && rel.as_str().get_char(1) == '.' && (
        rel_len == 2 || rel.as_str().get_char(2) == '/') {
            // the file lies outside the base directory
            return Err(EditorError::PathResolution);
        }
        assert(!escapes_base(rel@));
        self.remove(rel.as_str(), load_type);
        let order = match type_of {
            AssetType::Script => Some(self.next_free_order()),
            _ => None,
        };
        let a = Asset {
            name: file_name(absolute_path),
            path: rel,
            absolute_path: absolute_path.to_owned(),
            type_of,
            load_type,
            load_order: order,
        };
        proof {
            let t = self.assets@.push(a);
            assert(t.drop_last() =~= self.assets@);
            assert(t[t.len() - 1] == a);
            assert(forall|i: int| 0 <= i < self.assets@.len() ==> t[i] == self.assets@[i]);
            assert(keys_distinct(t)) by {
                assert forall|i: int, j: int| 0 <= i < j < t.len() implies !asset_key_matches(
                    t[j],
                    t[i].path@,
                    t[i].load_type,
                ) by {
                    if j == t.len() - 1 {
                        assert(!asset_key_matches(self.assets@[i], a.path@, a.load_type));
                    }
                }
            }
            assert(script_orders_distinct(t)) by {
                assert forall|i: int, j: int|
                    0 <= i < j < t.len() && (#[trigger] t[i]).type_of is Script
                        && (#[trigger] t[j]).type_of is Script implies t[i].load_order
                    != t[j].load_order by {
                    if j == t.len() - 1 {
                        assert(order_used(self.assets@, a.load_order->Some_0) || t[i].load_order
                            != t[j].load_order);
                    }
                }
            }
        }
        self.assets.push(a.clone());
        Ok(a)
    }

    fn find_script(&self, path: &str) -> (r: Option<usize>)
        ensures
            match r {
                Some(i) => i < self.assets@.len() && asset_key_matches(
                    self.assets@[i as int],
                    path@,
                    LoadType::Emdedded,
                ) && self.assets@[i as int].type_of is Script
                    && self.assets@[i as int].load_order is Some,
                None => forall|i: int|
                    0 <= i < self.assets@.len() ==> !(asset_key_matches(
                        #[trigger] self.assets@[i],
                        path@,
                        LoadType::Emdedded,
                    ) && self.assets@[i].type_of is Script && self.assets@[i].load_order is Some),
            },
    {
        let key_path = path.to_owned();
        let n = self.assets.len();
        for i in 0..n
            invariant
                n == self.assets@.len(),
                key_path@ == path@,
                forall|j: int|
                    0 <= j < i ==> !(asset_key_matches(
                        #[trigger] self.assets@[j],
                        path@,
                        LoadType::Emdedded,
                    ) && self.assets@[j].type_of is Script && self.assets@[j].load_order is Some),
        {
            let a = &self.assets[i];
            let is_script = match a.type_of {
                AssetType::Script => true,
                _ => false,
            };
            if is_script && a.load_order.is_some() && a.load_type == LoadType::Emdedded && a.path
                == key_path {
                return Some(i);
            }
        }
        None
    }

    /// Swaps the load-order values of the two Script assets keyed by the
    /// given paths (Scripts are always embedded); a no-op when either key
    /// does not name an ordered Script.
    pub fn reorder(&mut self, a_path: &str, b_path: &str)
        requires
            registry_wf(old(self).assets@),
        ensures
            registry_wf(final(self).assets@),
            final(self).window_size == old(self).window_size,
            some_reorder_applies(old(self).assets@, a_path@, b_path@) ==> exists|ia: int, ib: int|
                reorder_applies(old(self).assets@, a_path@, b_path@, ia, ib)
                    && final(self).assets@ == swapped_orders(old(self).assets@, ia, ib),
            !some_reorder_applies(old(self).assets@, a_path@, b_path@) ==> *final(self) == *old(
                self,
            ),
    {
        let ia = match self.find_script(a_path) {
            Some(i) => i,
            None => {
                return ;
            },
        };
        let ib = match self.find_script(b_path) {
            Some(i) => i,
            None => {
                return ;
            },
        };
        let a_order = self.assets[ia].load_order;
        let b_order = self.assets[ib].load_order;
        let mut ai = self.assets[ia].clone();
        ai.load_order = b_order;
        let mut bi = self.assets[ib].clone();
        bi.load_order = a_order;
        proof {
            assert(reorder_applies(self.assets@, a_path@, b_path@, ia as int, ib as int));
            lemma_swap_preserves_contiguous(self.assets@, ia as int, ib as int);
            assert(ai == Asset { load_order: self.assets@[ib as int].load_order, ..self.assets@[ia as int] });
            assert(bi == Asset { load_order: self.assets@[ia as int].load_order, ..self.assets@[ib as int] });
        }
        self.assets.set(ia, ai);
        self.assets.set(ib, bi);
    }
}

} // verus!
