use vstd::prelude::*;
use crate::api::{Api, ConvertError};
use crate::types::{TypeName, TypeNameV};

verus! {

/// The set of identities named by an allow-list.
pub open spec fn allow_set(al: Seq<TypeName>) -> Set<TypeNameV> {
    Set::new(|t: TypeNameV| exists|k: int| 0 <= k < al.len() && (#[trigger] al[k])@ == t)
}

/// Whether the item at index `j` is seeded directly by the allow-list,
/// matched through its allow-list name.
pub open spec fn seeded(items: Seq<Api>, allow: Set<TypeNameV>, j: int) -> bool {
    allow.contains(items[j].typename_for_allowlist_spec())
}

/// Whether `t` appears in the dependency set of item `a`.
pub open spec fn dep_of(a: Api, t: TypeNameV) -> bool {
    exists|k: int| 0 <= k < a.deps@.len() && (#[trigger] a.deps@[k])@ == t
}

/// Whether the item at index `j` is reachable from the allow-list in at
/// most `n` dependency steps.
pub open spec fn retained_within(items: Seq<Api>, allow: Set<TypeNameV>, j: int, n: nat) -> bool
    decreases n,
{
    seeded(items, allow, j) || (n > 0 && exists|i: int|
        #![trigger retained_within(items, allow, i, (n - 1) as nat)]
        #![trigger dep_of(items[i], items[j].typename_spec())]
        0 <= i < items.len() && retained_within(items, allow, i, (n - 1) as nat)
            && dep_of(items[i], items[j].typename_spec()))
}

/// Whether the item at index `j` survives reduction: it is reachable from
/// the allow-list through the dependency edges in some number of steps.
pub open spec fn retained(items: Seq<Api>, allow: Set<TypeNameV>, j: int) -> bool {
    exists|n: nat| retained_within(items, allow, j, n)
}

/// The per-index retention verdict over a whole candidate sequence.
pub open spec fn retained_flags(items: Seq<Api>, allow: Set<TypeNameV>) -> Seq<bool> {
    Seq::new(items.len(), |j: int| retained(items, allow, j))
}

/// How many entries of `s` are set.
pub open spec fn count_trues(s: Seq<bool>) -> nat
    decreases s.len(),
{
    if s.len() == 0 {
        0
    } else {
        count_trues(s.drop_last()) + (if s.last() {
            1nat
        } else {
            0nat
        })
    }
}

pub proof fn lemma_count_trues_le(s: Seq<bool>)
    ensures
        count_trues(s) <= s.len(),
    decreases s.len(),
{
    if s.len() > 0 {
        lemma_count_trues_le(s.drop_last());
    }
}

proof fn lemma_count_trues_update(s: Seq<bool>, j: int)
    requires
        0 <= j < s.len(),
        !s[j],
    ensures
        count_trues(s.update(j, true)) == count_trues(s) + 1,
    decreases s.len(),
{
    let t = s.update(j, true);
    if j == s.len() - 1 {
        assert(t.drop_last() =~= s.drop_last());
        assert(t.last());
    } else {
        lemma_count_trues_update(s.drop_last(), j);
        assert(t.drop_last() =~= s.drop_last().update(j, true));
        assert(t.last() == s.last());
    }
}

/// Whether `t` is named by an entry of the allow-list.
fn in_allowlist(allowlist: &Vec<TypeName>, t: &TypeName) -> (r: bool)
    ensures
        r == allow_set(allowlist@).contains(t@),
{
    let mut found = false;
    let mut i: usize = 0;
    while i < allowlist.len()
        invariant
            i <= allowlist.len(),
            found == exists|k: int| 0 <= k < i && (#[trigger] allowlist@[k])@ == t@,
        decreases allowlist.len() - i,
    {
        if allowlist[i].matches_typename(t) {
            found = true;
            proof {
                assert(allowlist@[i as int]@ == t@);
            }
        }
        i += 1;
    }
    found
}

/// Whether the dependency set of `a` names `t`.
fn deps_contain(a: &Api, t: &TypeName) -> (r: bool)
    ensures
        r == dep_of(*a, t@),
{
    let mut found = false;
    let mut i: usize = 0;
    while i < a.deps.len()
        invariant
            i <= a.deps.len(),
            found == exists|k: int| 0 <= k < i && (#[trigger] a.deps@[k])@ == t@,
        decreases a.deps.len() - i,
    {
        if a.deps[i].matches_typename(t) {
            found = true;
            proof {
                assert(a.deps@[i as int]@ == t@);
            }
        }
        i += 1;
    }
    found
}

proof fn lemma_retained_step(
    items: Seq<Api>,
    allow: Set<TypeNameV>,
    i: int,
    j: int,
    n: nat,
)
    requires
        0 <= i < items.len(),
        0 <= j < items.len(),
        retained_within(items, allow, i, n),
        dep_of(items[i], items[j].typename_spec()),
    ensures
        retained_within(items, allow, j, (n + 1) as nat),
{
    let m: nat = (n + 1) as nat;
    assert(retained_within(items, allow, i, (m - 1) as nat));
    assert(exists|i0: int|
        0 <= i0 < items.len() && #[trigger] retained_within(items, allow, i0, (m - 1) as nat)
            && dep_of(items[i0], items[j].typename_spec()));
    assert(retained_within(items, allow, j, m)) by {
        reveal_with_fuel(retained_within, 2);
    }
}

/// Law: every candidate whose allow-list name matches an allow-list entry
/// is retained.
pub proof fn lemma_seeds_retained(items: Seq<Api>, allow: Set<TypeNameV>, j: int)
    requires
        0 <= j < items.len(),
        seeded(items, allow, j),
    ensures
        retained(items, allow, j),
{
    assert(retained_within(items, allow, j, 0));
}

/// Law: the retained set is closed under dependency edges — a candidate
/// whose identity appears in the dependency set of a retained item is
/// itself retained, so nothing needed transitively is ever lost.
pub proof fn lemma_retained_closed_under_deps(
    items: Seq<Api>,
    allow: Set<TypeNameV>,
    i: int,
    j: int,
)
    requires
        0 <= i < items.len(),
        0 <= j < items.len(),
        retained(items, allow, i),
        dep_of(items[i], items[j].typename_spec()),
    ensures
        retained(items, allow, j),
{
    let n = choose|n: nat| retained_within(items, allow, i, n);
    lemma_retained_step(items, allow, i, j, n);
}

/// Law: the retained set is the least set of candidates that contains the
/// seeds and is closed under dependency edges — any per-index verdict with
/// both properties covers every retained item, so an item with no path
/// from the allow-list is never kept by reduction.
pub proof fn lemma_retained_is_least(
    items: Seq<Api>,
    allow: Set<TypeNameV>,
    keep: Seq<bool>,
    j: int,
    n: nat,
)
    requires
        keep.len() == items.len(),
        0 <= j < items.len(),
        forall|k: int| 0 <= k < items.len() && seeded(items, allow, k) ==> keep[k],
        forall|j2: int, i2: int|
            0 <= j2 < items.len() && 0 <= i2 < items.len() && keep[i2]
                && #[trigger] dep_of(items[i2], items[j2].typename_spec()) ==> keep[j2],
        retained_within(items, allow, j, n),
    ensures
        keep[j],
    decreases n,
{
    if seeded(items, allow, j) {
    } else {
        let i = choose|i: int|
            0 <= i < items.len() && retained_within(items, allow, i, (n - 1) as nat)
                && dep_of(items[i], items[j].typename_spec());
        lemma_retained_is_least(items, allow, keep, i, (n - 1) as nat);
    }
}

/// Mark phase of the liveness reduction: decide, for every candidate,
/// whether it is reachable from the allow-list. The verdict for each index
/// is exactly membership in the reachability closure, so it cannot depend
/// on traversal or container iteration order.
pub fn compute_retained(items: &Vec<Api>, allowlist: &Vec<TypeName>) -> (keep: Vec<bool>)
    ensures
        keep@.len() == items@.len(),
        forall|j: int|
            0 <= j < items@.len() ==> (keep@[j] == retained(
                items@,
                allow_set(allowlist@),
                j,
            )),
{
    let ghost allow = allow_set(allowlist@);
    let n = items.len();
    let mut keep: Vec<bool> = Vec::new();
    let mut j: usize = 0;
    while j < n
        invariant
            allow == allow_set(allowlist@),
            n == items@.len(),
            j <= n,
            keep@.len() == j as nat,
            forall|k: int| 0 <= k < j ==> (keep@[k] == seeded(items@, allow, k)),
        decreases n - j,
    {
        let tfa = items[j].typename_for_allowlist();
        let s = in_allowlist(allowlist, &tfa);
        proof {
            assert(tfa@ == items@[j as int].typename_for_allowlist_spec());
            assert(s == seeded(items@, allow, j as int));
        }
        keep.push(s);
        j += 1;
    }
    proof {
        assert forall|k: int| 0 <= k < n && keep@[k] implies retained(items@, allow, k) by {
            assert(retained_within(items@, allow, k, 0));
        }
    }
    let mut changed = true;
    while changed
        invariant
            n == items@.len(),
            keep@.len() == n as nat,
            forall|k: int| 0 <= k < n && #[trigger] keep@[k] ==> retained(items@, allow, k),
            forall|k: int| 0 <= k < n && seeded(items@, allow, k) ==> keep@[k],
            !changed ==> (forall|j2: int, i2: int|
                0 <= j2 < n && 0 <= i2 < n && keep@[i2]
                    && #[trigger] dep_of(items@[i2], items@[j2].typename_spec()) ==> keep@[j2]),
        decreases n as int - count_trues(keep@) + (if changed {
            1int
        } else {
            0int
        }),
    {
        proof {
            lemma_count_trues_le(keep@);
        }
        let ghost keep0 = keep@;
        changed = false;
        let mut j: usize = 0;
        while j < n
            invariant
                n == items@.len(),
                j <= n,
                keep@.len() == n as nat,
                forall|k: int| 0 <= k < n && #[trigger] keep@[k] ==> retained(items@, allow, k),
                forall|k: int| 0 <= k < n && seeded(items@, allow, k) ==> keep@[k],
                count_trues(keep@) >= count_trues(keep0),
                changed ==> count_trues(keep@) > count_trues(keep0),
                !changed ==> keep@ == keep0,
                !changed ==> (forall|j2: int, i2: int|
                    0 <= j2 < j && 0 <= i2 < n && keep@[i2]
                        && #[trigger] dep_of(items@[i2], items@[j2].typename_spec())
                        ==> keep@[j2]),
            decreases n - j,
        {
            if !keep[j] {
                let tn_j = items[j].typename();
                let mut found = false;
                let mut i: usize = 0;
                while i < n
                    invariant
                        n == items@.len(),
                        i <= n,
                        keep@.len() == n as nat,
                        tn_j@ == items@[j as int].typename_spec(),
                        0 <= j < n,
                        found ==> (exists|i2: int|
                            0 <= i2 < n && #[trigger] keep@[i2] && dep_of(
                                items@[i2],
                                tn_j@,
                            )),
                        !found ==> (forall|i2: int|
                            0 <= i2 < i ==> !(#[trigger] keep@[i2] && dep_of(
                                items@[i2],
                                tn_j@,
                            ))),
                    decreases n - i,
                {
                    if keep[i] {
                        if deps_contain(&items[i], &tn_j) {
                            found = true;
                            proof {
                                assert(keep@[i as int] && dep_of(items@[i as int], tn_j@));
                            }
                        }
                    }
                    i += 1;
                }
                if found {
                    proof {
                        let i2 = choose|i2: int|
                            0 <= i2 < n && #[trigger] keep@[i2] && dep_of(items@[i2], tn_j@);
                        let ni = choose|ni: nat| retained_within(items@, allow, i2, ni);
                        lemma_retained_step(items@, allow, i2, j as int, ni);
                        assert(retained(items@, allow, j as int));
                        lemma_count_trues_update(keep@, j as int);
                    }
                    keep.set(j, true);
                    changed = true;
                }
            }
            j += 1;
        }
        proof {
            lemma_count_trues_le(keep@);
        }
    }
    proof {
        assert forall|j2: int| 0 <= j2 < n && retained(items@, allow, j2) implies keep@[j2] by {
            let nn = choose|nn: nat| retained_within(items@, allow, j2, nn);
            lemma_retained_is_least(items@, allow, keep@, j2, nn);
        }
    }
    keep
}

/// The subsequence of `s` at the positions where `k` is set, in order.
pub open spec fn select<T>(s: Seq<T>, k: Seq<bool>) -> Seq<T>
    decreases s.len(),
{
    if s.len() == 0 || k.len() == 0 {
        Seq::empty()
    } else if k[0] {
        seq![s[0]] + select(s.drop_first(), k.drop_first())
    } else {
        select(s.drop_first(), k.drop_first())
    }
}

proof fn lemma_select_push<T>(s: Seq<T>, k: Seq<bool>, x: T, b: bool)
    requires
        s.len() == k.len(),
    ensures
        select(s.push(x), k.push(b)) == select(s, k) + (if b {
            seq![x]
        } else {
            Seq::<T>::empty()
        }),
    decreases s.len(),
{
    let tail = (if b {
        seq![x]
    } else {
        Seq::<T>::empty()
    });
    if s.len() == 0 {
        assert(s.push(x).drop_first() =~= Seq::<T>::empty());
        assert(k.push(b).drop_first() =~= Seq::<bool>::empty());
        assert(s.push(x)[0] == x);
        assert(k.push(b)[0] == b);
        assert(select(Seq::<T>::empty(), Seq::<bool>::empty()) == Seq::<T>::empty());
        assert(select(s, k) == Seq::<T>::empty());
        assert(select(s.push(x), k.push(b)) =~= select(s, k) + tail);
    } else {
        assert(s.push(x).drop_first() =~= s.drop_first().push(x));
        assert(k.push(b).drop_first() =~= k.drop_first().push(b));
        lemma_select_push(s.drop_first(), k.drop_first(), x, b);
        assert(s.push(x)[0] == s[0]);
        assert(k.push(b)[0] == k[0]);
        assert(select(s.drop_first().push(x), k.drop_first().push(b)) == select(
            s.drop_first(),
            k.drop_first(),
        ) + tail);
        if k[0] {
            assert(select(s.push(x), k.push(b)) == seq![s[0]] + (select(
                s.drop_first(),
                k.drop_first(),
            ) + tail));
            assert(select(s, k) == seq![s[0]] + select(s.drop_first(), k.drop_first()));
            assert(seq![s[0]] + (select(s.drop_first(), k.drop_first()) + tail) =~= (seq![s[0]]
                + select(s.drop_first(), k.drop_first())) + tail);
        } else {
            assert(select(s.push(x), k.push(b)) == select(s.drop_first(), k.drop_first()) + tail);
            assert(select(s, k) == select(s.drop_first(), k.drop_first()));
        }
        assert(select(s.push(x), k.push(b)) =~= select(s, k) + tail);
    }
}

/// Law: a selection keeps one element per set flag.
pub proof fn lemma_select_len<T>(s: Seq<T>, k: Seq<bool>)
    requires
        s.len() == k.len(),
    ensures
        select(s, k).len() == count_trues(k),
    decreases s.len(),
{
    if s.len() > 0 {
        lemma_select_len(s.drop_last(), k.drop_last());
        assert(s =~= s.drop_last().push(s.last()));
        assert(k =~= k.drop_last().push(k.last()));
        lemma_select_push(s.drop_last(), k.drop_last(), s.last(), k.last());
    }
}

/// Keep, in order, exactly the elements whose flag is set.
pub(crate) fn select_by_flags<T>(items: Vec<T>, flags: &Vec<bool>) -> (r: Vec<T>)
    requires
        flags@.len() == items@.len(),
    ensures
        r@ == select(items@, flags@),
{
    let ghost items0 = items@;
    let total = items.len();
    let mut items = items;
    let mut kept: Vec<T> = Vec::new();
    let mut j: usize = 0;
    while items.len() > 0
        invariant
            items0.len() == total as nat,
            flags@.len() == items0.len(),
            j as nat + items@.len() == items0.len(),
            items@ == items0.skip(j as int),
            kept@ == select(items0.take(j as int), flags@.take(j as int)),
        decreases items@.len(),
    {
        let a = items.remove(0);
        proof {
            assert(items0.skip(j as int).remove(0) =~= items0.skip(j as int + 1));
            assert(a == items0[j as int]);
        }
        if flags[j] {
            kept.push(a);
        }
        proof {
            assert(items0.take(j as int + 1) =~= items0.take(j as int).push(items0[j as int]));
            assert(flags@.take(j as int + 1) =~= flags@.take(j as int).push(flags@[j as int]));
            lemma_select_push(
                items0.take(j as int),
                flags@.take(j as int),
                items0[j as int],
                flags@[j as int],
            );
        }
        j += 1;
    }
    proof {
        assert(items0.take(j as int) =~= items0);
        assert(flags@.take(j as int) =~= flags@);
    }
    kept
}

/// Liveness reduction over the candidate set: retain exactly the items
/// reachable from the allow-list, in candidate order; escalate an empty
/// retained set as `NoContent`, since nothing then survives from the
/// requested generation directives.
pub fn reduce(items: Vec<Api>, allowlist: &Vec<TypeName>) -> (r: Result<Vec<Api>, ConvertError>)
    ensures
        r matches Result::Err(e) ==> (e matches ConvertError::NoContent && (forall|j: int|
            0 <= j < items@.len() ==> !retained(items@, allow_set(allowlist@), j))),
        r matches Result::Ok(kept) ==> (kept@ == select(
            items@,
            retained_flags(items@, allow_set(allowlist@)),
        ) && (exists|j: int| 0 <= j < items@.len() && retained(items@, allow_set(allowlist@), j))),
{
    let flags = compute_retained(&items, allowlist);
    proof {
        assert(flags@ =~= retained_flags(items@, allow_set(allowlist@)));
    }
    let mut any = false;
    let flen = flags.len();
    let mut j: usize = 0;
    while j < flags.len()
        invariant
            j <= flags@.len(),
            flags@.len() == flen as nat,
            any == exists|k: int| 0 <= k < j && #[trigger] flags@[k],
        decreases flags@.len() - j,
    {
        if flags[j] {
            any = true;
            proof {
                assert(flags@[j as int]);
            }
        }
        j += 1;
    }
    if !any {
        proof {
            assert forall|j2: int|
                0 <= j2 < items@.len() implies !retained(
                items@,
                allow_set(allowlist@),
                j2,
            ) by {
                assert(!flags@[j2]);
            }
        }
        Result::Err(ConvertError::NoContent)
    } else {
        proof {
            let k = choose|k: int| 0 <= k < flags@.len() && #[trigger] flags@[k];
            assert(retained(items@, allow_set(allowlist@), k));
        }
        Result::Ok(select_by_flags(items, &flags))
    }
}

/// The set of identities that survive reduction.
pub open spec fn retained_set(items: Seq<Api>, allow: Set<TypeNameV>) -> Set<TypeNameV> {
    Set::new(|t: TypeNameV| exists|j: int|
        0 <= j < items.len() && (#[trigger] items[j]).typename_spec() == t && retained(
            items,
            allow,
            j,
        ))
}

proof fn lemma_retained_transfer(
    items1: Seq<Api>,
    items2: Seq<Api>,
    allow: Set<TypeNameV>,
    j1: int,
    j2: int,
    n: nat,
)
    requires
        forall|a: Api| items1.contains(a) ==> items2.contains(a),
        0 <= j1 < items1.len(),
        0 <= j2 < items2.len(),
        items1[j1] == items2[j2],
        retained_within(items1, allow, j1, n),
    ensures
        retained_within(items2, allow, j2, n),
    decreases n,
{
    if seeded(items1, allow, j1) {
        assert(seeded(items2, allow, j2));
    } else {
        let i1 = choose|i1: int|
            0 <= i1 < items1.len() && retained_within(items1, allow, i1, (n - 1) as nat)
                && dep_of(items1[i1], items1[j1].typename_spec());
        assert(items1.contains(items1[i1]));
        assert(items2.contains(items1[i1]));
        let i2 = choose|i2: int| 0 <= i2 < items2.len() && items2[i2] == items1[i1];
        lemma_retained_transfer(items1, items2, allow, i1, i2, (n - 1) as nat);
        assert(dep_of(items2[i2], items2[j2].typename_spec()));
        assert(retained_within(items2, allow, j2, n));
    }
}

proof fn lemma_retained_set_subset(items1: Seq<Api>, items2: Seq<Api>, allow: Set<TypeNameV>)
    requires
        forall|a: Api| items1.contains(a) ==> items2.contains(a),
    ensures
        forall|t: TypeNameV|
            retained_set(items1, allow).contains(t) ==> retained_set(items2, allow).contains(t),
{
    assert forall|t: TypeNameV|
        retained_set(items1, allow).contains(t) implies retained_set(items2, allow).contains(
        t,
    ) by {
        let j1 = choose|j1: int|
            0 <= j1 < items1.len() && (#[trigger] items1[j1]).typename_spec() == t && retained(
                items1,
                allow,
                j1,
            );
        let n = choose|n: nat| retained_within(items1, allow, j1, n);
        assert(items1.contains(items1[j1]));
        assert(items2.contains(items1[j1]));
        let j2 = choose|j2: int| 0 <= j2 < items2.len() && items2[j2] == items1[j1];
        lemma_retained_transfer(items1, items2, allow, j1, j2, n);
        assert(items2[j2].typename_spec() == t && retained(items2, allow, j2));
    }
}

/// Law: reduction is a pure set-closure operation. For a fixed allow-list,
/// two candidate sequences that list the same candidate items — in any
/// order, however often repeated — have the same retained set of
/// identities, so repeated reduction runs give identical results.
pub proof fn lemma_reduction_deterministic(
    items1: Seq<Api>,
    items2: Seq<Api>,
    allow: Set<TypeNameV>,
)
    requires
        forall|a: Api| items1.contains(a) <==> items2.contains(a),
    ensures
        retained_set(items1, allow) == retained_set(items2, allow),
{
    lemma_retained_set_subset(items1, items2, allow);
    lemma_retained_set_subset(items2, items1, allow);
    assert(retained_set(items1, allow) =~= retained_set(items2, allow));
}

} // verus!
