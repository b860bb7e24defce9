//! The bookmarks of all remotes as one list in the order of their symbols.

use vstd::prelude::*;
use vstd::view::View as _;
use itertools::Itertools;
use crate::byte_order::Order;
use crate::byte_order::compare_bytes;
use crate::byte_order::lemma_lex_lt_asymmetric;
use crate::byte_order::lemma_lex_total;
use crate::byte_order::lex_lt;
use crate::op_store::RemoteView;
use crate::op_store::remote_refs_wf;
use crate::op_store::remote_views_model;
use crate::ref_name::RemoteRefSymbol;
use crate::ref_target::RemoteRef;
use crate::ref_target::RemoteRefModel;
use crate::sorted_map::SortedMap;
use crate::sorted_map::among_first;
use crate::sorted_map::enumerates;
use crate::sorted_map::name_key;
use crate::str_util::StringPattern;
use crate::str_util::names_of;

verus! {

/// The key of a symbol: the bytes of the bookmark's name, then those of the
/// remote's name.
pub open spec fn symbol_key(symbol: RemoteRefSymbol<'_>) -> (Seq<u8>, Seq<u8>) {
    (name_key(symbol.name@), name_key(symbol.remote@))
}

/// The order of symbols: by the bookmark's name, then by the remote's.
pub open spec fn pair_lt(a: (Seq<u8>, Seq<u8>), b: (Seq<u8>, Seq<u8>)) -> bool {
    lex_lt(a.0, b.0) || (a.0 == b.0 && lex_lt(a.1, b.1))
}

/// The keys of a list of remote bookmarks, in the order of the list.
pub open spec fn symbol_keys<'a>(items: Seq<(RemoteRefSymbol<'a>, &'a RemoteRef)>) -> Seq<
    (Seq<u8>, Seq<u8>),
> {
    Seq::new(items.len(), |i: int| symbol_key(items[i].0))
}

/// No item of the list comes before an earlier one.
pub open spec fn sorted_symbols<'a>(items: Seq<(RemoteRefSymbol<'a>, &'a RemoteRef)>) -> bool {
    forall|i: int, j: int|
        0 <= i < j < items.len() ==> !pair_lt(
            #[trigger] symbol_keys(items)[j],
            #[trigger] symbol_keys(items)[i],
        )
}

/// `keys` lists the members of `set`, each once, in the order of symbols.
pub open spec fn enumerates_symbols(keys: Seq<(Seq<u8>, Seq<u8>)>, set: Set<(Seq<u8>, Seq<u8>)>)
    -> bool {
    &&& forall|i: int, j: int| 0 <= i < j < keys.len() ==> pair_lt(#[trigger] keys[i], #[trigger] keys[j])
    &&& forall|j: int| 0 <= j < keys.len() ==> set.contains(#[trigger] keys[j])
    &&& forall|k: (Seq<u8>, Seq<u8>)|
        set.contains(k) ==> exists|j: int| 0 <= j < keys.len() && #[trigger] keys[j] == k
}

/// The items of all the lists, one list after the other.
pub open spec fn flat_items<'a>(lists: Seq<Vec<(RemoteRefSymbol<'a>, &'a RemoteRef)>>) -> Seq<
    (RemoteRefSymbol<'a>, &'a RemoteRef),
> {
    lists.map_values(|l: Vec<(RemoteRefSymbol<'a>, &'a RemoteRef)>| l@).flatten()
}

/// Whether the first symbol comes before the second.
pub fn symbol_lt(a: &RemoteRefSymbol<'_>, b: &RemoteRefSymbol<'_>) -> (r: bool)
    ensures
        r == pair_lt(symbol_key(*a), symbol_key(*b)),
{
    proof {
        lemma_lex_total(symbol_key(*a).0, symbol_key(*b).0);
        lemma_lex_total(symbol_key(*a).1, symbol_key(*b).1);
    }
    match compare_bytes(a.name.as_bytes(), b.name.as_bytes()) {
        Order::Less => true,
        Order::Greater => false,
        Order::Equal => match compare_bytes(a.remote.as_bytes(), b.remote.as_bytes()) {
            Order::Less => true,
            _ => false,
        },
    }
}

/// Merges lists of remote bookmarks into one list.
///
/// Calls [`itertools::Itertools::kmerge_by`] with [`symbol_lt`] as the
/// order. The result holds the items of all the lists, each as often as
/// the lists hold it, and it is in order if every list is. The contract
/// is assumed, not proved.
#[verifier::external_body]
fn kmerge_by_symbol<'a>(lists: Vec<Vec<(RemoteRefSymbol<'a>, &'a RemoteRef)>>) -> (r: Vec<
    (RemoteRefSymbol<'a>, &'a RemoteRef),
>)
    ensures
        r@.to_multiset() == flat_items(lists@).to_multiset(),
        (forall|k: int| 0 <= k < lists.len() ==> sorted_symbols(#[trigger] lists[k]@))
            ==> sorted_symbols(r@),
{
    lists.into_iter().kmerge_by(|a, b| symbol_lt(&a.0, &b.0)).collect()
}

/// The bookmarks of one remote as items under the remote's name.
fn items_of_remote<'a>(remote: &'a str, refs: Vec<(&'a str, &'a RemoteRef)>) -> (r: Vec<
    (RemoteRefSymbol<'a>, &'a RemoteRef),
>)
    ensures
        r.len() == refs.len(),
        forall|i: int|
            0 <= i < r.len() ==> (#[trigger] r[i]).0.name@ == refs[i].0@ && r[i].0.remote@
                == remote@ && r[i].1 == refs[i].1,
{
    let mut out: Vec<(RemoteRefSymbol<'a>, &'a RemoteRef)> = Vec::new();
    let mut i: usize = 0;
    while i < refs.len()
        invariant
            i <= refs.len(),
            out.len() == i,
            forall|j: int|
                0 <= j < i ==> (#[trigger] out[j]).0.name@ == refs[j].0@ && out[j].0.remote@
                    == remote@ && out[j].1 == refs[j].1,
        decreases refs.len() - i,
    {
        let (name, remote_ref) = refs[i];
        out.push((RemoteRefSymbol { name, remote }, remote_ref));
        i += 1;
    }
    out
}

/// The remote bookmarks that the two patterns select.
pub open spec fn selected(
    m: Map<Seq<u8>, Map<Seq<u8>, RemoteRefModel>>,
    bookmark_pattern: StringPattern,
    remote_pattern: StringPattern,
) -> Set<(Seq<u8>, Seq<u8>)> {
    Set::new(
        |k: (Seq<u8>, Seq<u8>)|
            remote_pattern.matches_key(k.1) && bookmark_pattern.matches_key(k.0) && m.contains_key(
                k.1,
            ) && m[k.1].contains_key(k.0),
    )
}

/// The bookmarks of the remotes that `remote_pattern` selects whose names
/// `bookmark_pattern` selects, in the order of their symbols.
pub fn merged_remote_bookmarks<'a>(
    remote_views: &'a SortedMap<String, RemoteView>,
    bookmark_pattern: &StringPattern,
    remote_pattern: &StringPattern,
) -> (r: Vec<(RemoteRefSymbol<'a>, &'a RemoteRef)>)
    requires
        remote_views.wf(),
        forall|k: Seq<u8>| #[trigger]
            remote_views@.contains_key(k) ==> remote_refs_wf(
                remote_views@[k].bookmarks,
            ),
    ensures
        enumerates_symbols(
            symbol_keys(r@),
            selected(
                remote_views_model(remote_views@),
                *bookmark_pattern,
                *remote_pattern,
            ),
        ),
        forall|j: int|
            0 <= j < r.len() ==> (#[trigger] r[j]).1.wf() && r[j].1@
                == remote_views_model(remote_views@)[symbol_keys(
                r@,
            )[j].1][symbol_keys(r@)[j].0],
{
    let ghost m = remote_views_model(remote_views@);
    let ghost set = selected(m, *bookmark_pattern, *remote_pattern);
    let remotes = remote_pattern.filter_sorted_map(remote_views);
    let ghost rn = names_of(remotes@);
    let mut lists: Vec<Vec<(RemoteRefSymbol<'a>, &'a RemoteRef)>> = Vec::new();
    let ghost mut flat: Seq<(RemoteRefSymbol<'a>, &'a RemoteRef)> = Seq::empty();
    // For each place of `flat`, the place of its remote in `remotes`.
    let ghost mut owner: Seq<int> = Seq::empty();
    let mut t: usize = 0;
    while t < remotes.len()
        invariant
            t <= remotes.len(),
            remote_views.wf(),
            forall|k: Seq<u8>| #[trigger]
                remote_views@.contains_key(k) ==> remote_refs_wf(
                    remote_views@[k].bookmarks,
                ),
            m == remote_views_model(remote_views@),
            set == selected(m, *bookmark_pattern, *remote_pattern),
            rn == names_of(remotes@),
            enumerates(
                rn,
                Set::new(
                    |k: Seq<u8>| remote_views@.contains_key(k) && remote_pattern.matches_key(k),
                ),
            ),
            forall|j: int|
                0 <= j < remotes.len() ==> *(#[trigger] remotes[j]).1 == remote_views@[rn[j]],
            flat == flat_items(lists@),
            owner.len() == flat.len(),
            forall|k: int| 0 <= k < lists.len() ==> sorted_symbols(#[trigger] lists[k]@),
            forall|p: int|
                0 <= p < flat.len() ==> 0 <= #[trigger] owner[p] < t && symbol_keys(flat)[p].1
                    == rn[owner[p]],
            forall|p: int| 0 <= p < flat.len() ==> set.contains(#[trigger] symbol_keys(flat)[p]),
            forall|p: int|
                0 <= p < flat.len() ==> (#[trigger] flat[p]).1.wf() && flat[p].1@ == m[symbol_keys(
                    flat,
                )[p].1][symbol_keys(flat)[p].0],
            forall|p: int, q: int|
                0 <= p < q < flat.len() ==> #[trigger] symbol_keys(flat)[p] != #[trigger] symbol_keys(
                    flat,
                )[q],
            forall|k: (Seq<u8>, Seq<u8>)|
                #[trigger] set.contains(k) && among_first(rn, t as int, k.1) ==> exists|p: int|
                    0 <= p < flat.len() && #[trigger] symbol_keys(flat)[p] == k,
        decreases remotes.len() - t,
    {
        let (remote, remote_view) = remotes[t];
        let ghost rk = rn[t as int];
        let refs = bookmark_pattern.filter_sorted_map(&remote_view.bookmarks);
        let ghost names = names_of(refs@);
        let items = items_of_remote(remote, refs);
        let ghost old_flat = flat;
        let ghost old_lists = lists@;
        proof {
            assert forall|i: int| 0 <= i < items.len() implies #[trigger] symbol_keys(items@)[i] == (
                names[i],
                rk,
            ) by {}
            assert(sorted_symbols(items@)) by {
                assert forall|i: int, j: int| 0 <= i < j < items.len() implies !pair_lt(
                    #[trigger] symbol_keys(items@)[j],
                    #[trigger] symbol_keys(items@)[i],
                ) by {
                    lemma_lex_lt_asymmetric(names[i], names[j]);
                }
            }
        }
        lists.push(items);
        proof {
            let f = |l: Vec<(RemoteRefSymbol<'a>, &'a RemoteRef)>| l@;
            assert(lists@.map_values(f) =~= old_lists.map_values(f).push(items@));
            old_lists.map_values(f).lemma_flatten_push(items@);
            flat = old_flat + items@;
            owner = owner + Seq::new(items.len() as nat, |i: int| t as int);
            let n0 = old_flat.len() as int;
            assert forall|p: int| 0 <= p < flat.len() implies #[trigger] symbol_keys(flat)[p] == (
                if p < n0 {
                    symbol_keys(old_flat)[p]
                } else {
                    symbol_keys(items@)[p - n0]
                }) by {}
            assert forall|p: int| n0 <= p < flat.len() implies set.contains(
                #[trigger] symbol_keys(flat)[p],
            ) && flat[p].1.wf() && flat[p].1@ == m[symbol_keys(flat)[p].1][symbol_keys(
                flat,
            )[p].0] by {}
            assert forall|p: int, q: int| 0 <= p < q < flat.len() implies #[trigger] symbol_keys(
                flat,
            )[p] != #[trigger] symbol_keys(flat)[q] by {
                if p < n0 && q >= n0 {
                    lemma_lex_lt_asymmetric(rn[owner[p]], rk);
                } else if p >= n0 {
                    lemma_lex_lt_asymmetric(names[p - n0], names[q - n0]);
                }
            }
            assert forall|k: (Seq<u8>, Seq<u8>)|
                #[trigger] set.contains(k) && among_first(rn, t + 1, k.1) implies exists|p: int|
                0 <= p < flat.len() && #[trigger] symbol_keys(flat)[p] == k by {
                let u = choose|u: int| 0 <= u < t + 1 && #[trigger] rn[u] == k.1;
                if u < t {
                    let p = choose|p: int|
                        0 <= p < old_flat.len() && #[trigger] symbol_keys(old_flat)[p] == k;
                    assert(symbol_keys(flat)[p] == k);
                } else {
                    assert(Set::new(
                        |x: Seq<u8>|
                            remote_view.bookmarks@.contains_key(x) && bookmark_pattern.matches_key(x),
                    ).contains(k.0));
                    let i = choose|i: int| 0 <= i < names.len() && #[trigger] names[i] == k.0;
                    assert(symbol_keys(flat)[n0 + i] == k);
                }
            }
        }
        t += 1;
    }
    let merged = kmerge_by_symbol(lists);
    proof {
        broadcast use vstd::seq_lib::group_to_multiset_ensures;

        let keys = symbol_keys(merged@);
        assert(flat.no_duplicates()) by {
            assert forall|p: int, q: int| 0 <= p < flat.len() && 0 <= q < flat.len() && p
                != q implies flat[p] != flat[q] by {}
        }
        flat.lemma_multiset_has_no_duplicates();
        merged@.lemma_multiset_has_no_duplicates_conv();
        flat.to_multiset_ensures();
        merged@.to_multiset_ensures();
        assert forall|j: int| 0 <= j < merged.len() implies set.contains(#[trigger] keys[j])
            && merged[j].1.wf() && merged[j].1@ == m[keys[j].1][keys[j].0] by {
            assert(merged@.to_multiset().count(merged[j]) > 0);
        }
        assert forall|j: int| 0 <= j < merged.len() implies (#[trigger] merged[j]).1.wf()
            && merged[j].1@ == m[keys[j].1][keys[j].0] by {
            assert(set.contains(keys[j]));
        }
        assert forall|k: (Seq<u8>, Seq<u8>)| set.contains(k) implies exists|j: int|
            0 <= j < keys.len() && #[trigger] keys[j] == k by {
            assert(Set::new(
                |x: Seq<u8>| remote_views@.contains_key(x) && remote_pattern.matches_key(x),
            ).contains(k.1));
            let p = choose|p: int| 0 <= p < flat.len() && #[trigger] symbol_keys(flat)[p] == k;
            assert(flat.to_multiset().count(flat[p]) > 0);
        }
        assert forall|i: int, j: int| 0 <= i < j < keys.len() implies pair_lt(
            #[trigger] keys[i],
            #[trigger] keys[j],
        ) by {
            lemma_lex_total(keys[i].0, keys[j].0);
            lemma_lex_total(keys[i].1, keys[j].1);
            if keys[i] == keys[j] {
                assert(merged@.to_multiset().count(merged[i]) > 0);
                assert(merged@.to_multiset().count(merged[j]) > 0);
            }
        }
    }
    merged
}

} // verus!
