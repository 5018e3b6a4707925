//! Facts about sequences that the proofs of this library share.

use vstd::prelude::*;

verus! {

/// Filtering a sequence that got one more item: the item is kept at the
/// end if it passes, and left out if it does not.
pub proof fn lemma_filter_push<T>(items: Seq<T>, item: T, keep: spec_fn(T) -> bool)
    ensures
        items.push(item).filter(keep) == if keep(item) {
            items.filter(keep).push(item)
        } else {
            items.filter(keep)
        },
{
    reveal_with_fuel(Seq::filter, 2);
    assert(items.push(item).drop_last() =~= items);
}

/// Every item of a filtered sequence passes the filter and comes from the
/// sequence; every item of the sequence that passes is in the filtered one.
pub proof fn lemma_filter_members<T>(items: Seq<T>, keep: spec_fn(T) -> bool, item: T)
    ensures
        items.filter(keep).contains(item) <==> items.contains(item) && keep(item),
    decreases items.len(),
{
    reveal_with_fuel(Seq::filter, 2);
    if items.len() > 0 {
        let rest = items.drop_last();
        let last = items.last();
        lemma_filter_members(rest, keep, item);
        assert(rest.push(last) =~= items);
        lemma_filter_push(rest, last, keep);
        lemma_push_members(rest, last, item);
        if keep(last) {
            lemma_push_members(rest.filter(keep), last, item);
        }
    } else {
        assert(items.filter(keep) =~= Seq::<T>::empty());
    }
}

/// What a sequence holds after one more item is put at its end.
pub proof fn lemma_push_members<T>(items: Seq<T>, item: T, other: T)
    ensures
        items.push(item).contains(other) <==> (items.contains(other) || other == item),
{
    let longer = items.push(item);
    if items.contains(other) {
        let k = choose|k: int| 0 <= k < items.len() && items[k] == other;
        assert(longer[k] == other);
    }
    if other == item {
        assert(longer[items.len() as int] == other);
    }
    if longer.contains(other) {
        let k = choose|k: int| 0 <= k < longer.len() && longer[k] == other;
        if k < items.len() {
            assert(items[k] == other);
        }
    }
}

/// Two filters that agree on every item of a sequence keep the same items
/// of it.
pub proof fn lemma_filter_agree<T>(items: Seq<T>, first: spec_fn(T) -> bool, second: spec_fn(T) -> bool)
    requires
        forall|i: int| 0 <= i < items.len() ==> first(#[trigger] items[i]) == second(items[i]),
    ensures
        items.filter(first) == items.filter(second),
    decreases items.len(),
{
    reveal_with_fuel(Seq::filter, 2);
    if items.len() > 0 {
        let rest = items.drop_last();
        assert forall|i: int| 0 <= i < rest.len() implies first(#[trigger] rest[i]) == second(
            rest[i],
        ) by {
            assert(rest[i] == items[i]);
        }
        lemma_filter_agree(rest, first, second);
        assert(first(items[items.len() - 1]) == second(items[items.len() - 1]));
    }
}

/// A sequence made of two holds what either of them holds.
pub proof fn lemma_concat_members<T>(first: Seq<T>, second: Seq<T>, item: T)
    ensures
        (first + second).contains(item) <==> (first.contains(item) || second.contains(item)),
{
    let both = first + second;
    if first.contains(item) {
        let k = choose|k: int| 0 <= k < first.len() && first[k] == item;
        assert(both[k] == item);
    }
    if second.contains(item) {
        let k = choose|k: int| 0 <= k < second.len() && second[k] == item;
        assert(both[first.len() + k] == item);
    }
    if both.contains(item) {
        let k = choose|k: int| 0 <= k < both.len() && both[k] == item;
        if k < first.len() {
            assert(first[k] == item);
        } else {
            assert(second[k - first.len()] == item);
        }
    }
}

/// A sequence that holds no item twice still holds none twice when some
/// of its items are left out.
pub proof fn lemma_filter_no_duplicates<T>(items: Seq<T>, keep: spec_fn(T) -> bool)
    requires
        items.no_duplicates(),
    ensures
        items.filter(keep).no_duplicates(),
    decreases items.len(),
{
    reveal_with_fuel(Seq::filter, 1);
    if items.len() > 0 {
        let rest = items.drop_last();
        let last = items.last();
        assert(rest.no_duplicates()) by {
            assert forall|a: int, b: int| 0 <= a < rest.len() && 0 <= b < rest.len() && a
                != b implies rest[a] != rest[b] by {
                assert(rest[a] == items[a] && rest[b] == items[b]);
            }
        }
        lemma_filter_no_duplicates(rest, keep);
        assert(rest.push(last) =~= items);
        lemma_filter_push(rest, last, keep);
        if keep(last) {
            let kept = rest.filter(keep);
            let all = kept.push(last);
            lemma_filter_members(rest, keep, last);
            if rest.contains(last) {
                let k = choose|k: int| 0 <= k < rest.len() && rest[k] == last;
                assert(items[k] == items[items.len() - 1]);
            }
            assert forall|a: int, b: int| 0 <= a < all.len() && 0 <= b < all.len() && a
                != b implies all[a] != all[b] by {
                if a < kept.len() && b < kept.len() {
                    assert(all[a] == kept[a] && all[b] == kept[b]);
                } else if a < kept.len() {
                    assert(kept.contains(kept[a]));
                } else {
                    assert(kept.contains(kept[b]));
                }
            }
        }
    }
}

/// The first finding in a run of findings, if there is one.
pub open spec fn first_some<T>(findings: Seq<Option<T>>) -> Option<T>
    decreases findings.len(),
{
    if findings.len() == 0 {
        None
    } else if first_some(findings.drop_last()) is Some {
        first_some(findings.drop_last())
    } else {
        findings.last()
    }
}

/// A run without a finding has no first finding.
pub proof fn lemma_first_some_none<T>(findings: Seq<Option<T>>)
    requires
        forall|k: int| 0 <= k < findings.len() ==> (#[trigger] findings[k]) is None,
    ensures
        first_some(findings) is None,
    decreases findings.len(),
{
    if findings.len() > 0 {
        let rest = findings.drop_last();
        assert forall|k: int| 0 <= k < rest.len() implies (#[trigger] rest[k]) is None by {
            assert(rest[k] == findings[k]);
        }
        lemma_first_some_none(rest);
        assert(findings[findings.len() - 1] is None);
    }
}

/// A finding with none before it is the first finding.
pub proof fn lemma_first_some_found<T>(findings: Seq<Option<T>>, at: int)
    requires
        0 <= at < findings.len(),
        findings[at] is Some,
        forall|k: int| 0 <= k < at ==> (#[trigger] findings[k]) is None,
    ensures
        first_some(findings) == findings[at],
    decreases findings.len(),
{
    let rest = findings.drop_last();
    if at == findings.len() - 1 {
        assert forall|k: int| 0 <= k < rest.len() implies (#[trigger] rest[k]) is None by {
            assert(rest[k] == findings[k]);
        }
        lemma_first_some_none(rest);
    } else {
        assert(rest[at] == findings[at]);
        assert forall|k: int| 0 <= k < at implies (#[trigger] rest[k]) is None by {
            assert(rest[k] == findings[k]);
        }
        lemma_first_some_found(rest, at);
    }
}

} // verus!
