use crate::component::Component;
use crate::entry::Entry;
use crate::identity::Identity;
use vstd::prelude::*;

verus! {

/// Some entry of `entries` is registered under `id`.
pub open spec fn registered<C>(entries: Seq<Entry<C>>, id: Identity) -> bool {
    exists|i: int| 0 <= i < entries.len() && (#[trigger] entries[i]).identity == id
}

/// Where in `entries` the entry registered under `id` stands.
pub open spec fn index_of<C>(entries: Seq<Entry<C>>, id: Identity) -> int {
    choose|i: int| 0 <= i < entries.len() && (#[trigger] entries[i]).identity == id
}

/// No two entries are registered under one identity.
pub open spec fn distinct<C>(entries: Seq<Entry<C>>) -> bool {
    forall|i: int, j: int|
        0 <= i < j < entries.len() ==> (#[trigger] entries[i]).identity != (
        #[trigger] entries[j]).identity
}

/// The stored priorities ascend from the first entry to the last.
pub open spec fn sorted<C>(entries: Seq<Entry<C>>) -> bool {
    forall|i: int, j: int|
        0 <= i <= j < entries.len() ==> (#[trigger] entries[i]).order <= (
        #[trigger] entries[j]).order
}

/// The entries of one stored priority.
pub open spec fn of_order<C>(order: usize) -> spec_fn(Entry<C>) -> bool {
    |entry: Entry<C>| entry.order == order
}

/// The entry with its priority read anew from the component.
pub open spec fn refresh<C: Component>(entry: Entry<C>) -> Entry<C> {
    Entry { identity: entry.identity, order: entry.component.order(), component: entry.component }
}

/// Every entry with its priority read anew.
pub open spec fn refreshed<C: Component>(entries: Seq<Entry<C>>) -> Seq<Entry<C>> {
    entries.map_values(|entry: Entry<C>| refresh(entry))
}

/// The place behind the last entry whose priority is not above `order`.
pub open spec fn insert_pos<C>(entries: Seq<Entry<C>>, order: usize) -> int
    decreases entries.len(),
{
    if entries.len() == 0 || entries.last().order <= order {
        entries.len() as int
    } else {
        insert_pos(entries.drop_last(), order)
    }
}

/// `entries` with `entry` put behind every entry of the same or a lower
/// priority.
pub open spec fn sorted_insert<C>(entries: Seq<Entry<C>>, entry: Entry<C>) -> Seq<Entry<C>> {
    entries.insert(insert_pos(entries, entry.order), entry)
}

/// The entries in ascending stored priority, those of one priority in the
/// order in which `entries` has them.
pub open spec fn stable_sort<C>(entries: Seq<Entry<C>>) -> Seq<Entry<C>>
    decreases entries.len(),
{
    if entries.len() == 0 {
        entries
    } else {
        sorted_insert(stable_sort(entries.drop_last()), entries.last())
    }
}

/// Where identities are distinct, an entry is found at its own place.
pub proof fn lemma_index_of<C>(entries: Seq<Entry<C>>, i: int)
    requires
        distinct(entries),
        0 <= i < entries.len(),
    ensures
        registered(entries, entries[i].identity),
        index_of(entries, entries[i].identity) == i,
{
    let j = index_of(entries, entries[i].identity);
    assert(entries[j].identity == entries[i].identity);
}

/// `insert_pos` splits the entries: from it on all priorities are above
/// `order`, and the entry before it, if any, is not.
pub proof fn lemma_insert_pos<C>(entries: Seq<Entry<C>>, order: usize)
    ensures
        0 <= insert_pos(entries, order) <= entries.len(),
        forall|j: int|
            insert_pos(entries, order) <= j < entries.len() ==> (#[trigger] entries[j]).order
                > order,
        insert_pos(entries, order) > 0 ==> entries[insert_pos(entries, order) - 1].order <= order,
    decreases entries.len(),
{
    if entries.len() == 0 || entries.last().order <= order {
    } else {
        let front = entries.drop_last();
        lemma_insert_pos(front, order);
        assert forall|j: int| insert_pos(entries, order) <= j < entries.len() implies (
        #[trigger] entries[j]).order > order by {
            if j < front.len() {
                assert(front[j] == entries[j]);
            }
        }
        let pos = insert_pos(entries, order);
        if pos > 0 {
            assert(front[pos - 1] == entries[pos - 1]);
        }
    }
}

/// A place that splits the entries as `insert_pos` does is `insert_pos`.
pub proof fn lemma_insert_pos_is<C>(entries: Seq<Entry<C>>, order: usize, pos: int)
    requires
        0 <= pos <= entries.len(),
        forall|j: int| pos <= j < entries.len() ==> (#[trigger] entries[j]).order > order,
        pos > 0 ==> entries[pos - 1].order <= order,
    ensures
        insert_pos(entries, order) == pos,
    decreases entries.len(),
{
    if pos < entries.len() {
        assert(entries.last() == entries[entries.len() - 1]);
        lemma_insert_pos_is(entries.drop_last(), order, pos);
    }
}

/// Putting an entry in behind its equals keeps ascending priorities ascending.
pub proof fn lemma_sorted_insert_sorted<C>(entries: Seq<Entry<C>>, entry: Entry<C>)
    requires
        sorted(entries),
    ensures
        sorted(sorted_insert(entries, entry)),
{
    let pos = insert_pos(entries, entry.order);
    let out = sorted_insert(entries, entry);
    lemma_insert_pos(entries, entry.order);
    entries.insert_ensures(pos, entry);
    assert forall|i: int, j: int| 0 <= i <= j < out.len() implies (#[trigger] out[i]).order <= (
    #[trigger] out[j]).order by {
        let a = if i < pos {
            entries[i]
        } else if i == pos {
            entry
        } else {
            entries[i - 1]
        };
        let b = if j < pos {
            entries[j]
        } else if j == pos {
            entry
        } else {
            entries[j - 1]
        };
        assert(out[i] == a);
        assert(out[j] == b);
        if i < pos {
            assert(entries[i].order <= entries[pos - 1].order);
        }
    }
}

/// What is registered after an entry was put in: what was before, and it.
pub proof fn lemma_sorted_insert_registered<C>(
    entries: Seq<Entry<C>>,
    entry: Entry<C>,
    id: Identity,
)
    ensures
        registered(sorted_insert(entries, entry), id) <==> registered(entries, id)
            || entry.identity == id,
{
    let pos = insert_pos(entries, entry.order);
    let out = sorted_insert(entries, entry);
    lemma_insert_pos(entries, entry.order);
    entries.insert_ensures(pos, entry);
    if registered(entries, id) {
        let i = index_of(entries, id);
        if i < pos {
            assert(out[i].identity == id);
        } else {
            assert(out[i + 1].identity == id);
        }
    }
    if entry.identity == id {
        assert(out[pos].identity == id);
    }
    if registered(out, id) {
        let k = index_of(out, id);
        if k < pos {
            assert(entries[k].identity == id);
        } else if k > pos {
            assert(out[(k - 1) + 1] == entries[k - 1]);
            assert(entries[k - 1].identity == id);
        }
    }
}

/// An entry under a new identity keeps the identities distinct.
pub proof fn lemma_sorted_insert_distinct<C>(entries: Seq<Entry<C>>, entry: Entry<C>)
    requires
        distinct(entries),
        !registered(entries, entry.identity),
    ensures
        distinct(sorted_insert(entries, entry)),
{
    let pos = insert_pos(entries, entry.order);
    let out = sorted_insert(entries, entry);
    lemma_insert_pos(entries, entry.order);
    entries.insert_ensures(pos, entry);
    assert forall|i: int, j: int| 0 <= i < j < out.len() implies (#[trigger] out[i]).identity != (
    #[trigger] out[j]).identity by {
        let a = if i < pos {
            i
        } else {
            i - 1
        };
        let b = if j < pos {
            j
        } else {
            j - 1
        };
        if i != pos {
            assert(out[i] == entries[a]);
        }
        if j != pos {
            assert(out[j] == entries[b]);
        }
    }
}

/// Putting an entry in changes the run of its own priority only, and this
/// by the entry at its end.
pub proof fn lemma_sorted_insert_ties<C>(entries: Seq<Entry<C>>, entry: Entry<C>, order: usize)
    ensures
        sorted_insert(entries, entry).filter(of_order(order)) == if entry.order == order {
            entries.filter(of_order(order)).push(entry)
        } else {
            entries.filter(of_order(order))
        },
{
    let pos = insert_pos(entries, entry.order);
    let pred = of_order::<C>(order);
    let front = entries.subrange(0, pos);
    let back = entries.subrange(pos, entries.len() as int);
    lemma_insert_pos(entries, entry.order);
    assert(entries == front + back);
    Seq::filter_distributes_over_add(front, back, pred);
    Seq::filter_distributes_over_add(front.push(entry), back, pred);
    front.lemma_filter_push(entry, pred);
    if entry.order == order {
        assert(back.all(|e: Entry<C>| !pred(e))) by {
            assert forall|j: int| 0 <= j < back.len() implies !pred(#[trigger] back[j]) by {
                assert(back[j] == entries[pos + j]);
            }
        }
        back.lemma_all_neg_filter_empty(pred);
        assert(back.filter(pred) == Seq::<Entry<C>>::empty());
        assert(front.filter(pred).push(entry) + back.filter(pred) == (front.filter(pred)
            + back.filter(pred)).push(entry));
    }
}

/// Sorting loses and adds no entry.
pub proof fn lemma_stable_sort_permutes<C>(entries: Seq<Entry<C>>)
    ensures
        stable_sort(entries).len() == entries.len(),
        stable_sort(entries).to_multiset() == entries.to_multiset(),
    decreases entries.len(),
{
    if entries.len() > 0 {
        let front = entries.drop_last();
        lemma_stable_sort_permutes(front);
        lemma_insert_pos(stable_sort(front), entries.last().order);
        stable_sort(front).insert_ensures(
            insert_pos(stable_sort(front), entries.last().order),
            entries.last(),
        );
        vstd::seq_lib::to_multiset_insert(
            stable_sort(front),
            insert_pos(stable_sort(front), entries.last().order),
            entries.last(),
        );
        vstd::seq_lib::to_multiset_build(front, entries.last());
        assert(front.push(entries.last()) == entries);
    }
}

/// The sorted entries ascend in stored priority.
pub proof fn lemma_stable_sort_sorted<C>(entries: Seq<Entry<C>>)
    ensures
        sorted(stable_sort(entries)),
    decreases entries.len(),
{
    if entries.len() > 0 {
        lemma_stable_sort_sorted(entries.drop_last());
        lemma_sorted_insert_sorted(stable_sort(entries.drop_last()), entries.last());
    }
}

/// Entries of equal stored priority keep the order they had among
/// themselves: sorting is stable.
pub proof fn lemma_stable_sort_keeps_ties<C>(entries: Seq<Entry<C>>, order: usize)
    ensures
        stable_sort(entries).filter(of_order(order)) == entries.filter(of_order(order)),
    decreases entries.len(),
{
    if entries.len() > 0 {
        let front = entries.drop_last();
        lemma_stable_sort_keeps_ties(front, order);
        lemma_sorted_insert_ties(stable_sort(front), entries.last(), order);
        front.lemma_filter_push(entries.last(), of_order(order));
        assert(front.push(entries.last()) == entries);
    }
}

/// Two ascending sequences with the same entries of every priority, in the
/// same order among themselves, are one sequence.
pub proof fn lemma_sorted_unique<C>(one: Seq<Entry<C>>, other: Seq<Entry<C>>)
    requires
        sorted(one),
        sorted(other),
        forall|order: usize| one.filter(of_order(order)) == other.filter(of_order(order)),
    ensures
        one == other,
    decreases one.len() + other.len(),
{
    if one.len() == 0 && other.len() == 0 {
        assert(one == other);
    } else {
        let (full, rest) = if one.len() > 0 {
            (one, other)
        } else {
            (other, one)
        };
        let top = full.last().order;
        let tied = of_order::<C>(top);
        assert(full.drop_last().push(full.last()) == full);
        full.drop_last().lemma_filter_push(full.last(), tied);
        assert(full.filter(tied).last() == full.last());
        assert(rest.filter(tied).len() > 0);
        rest.lemma_filter_len(tied);
        assert(rest.drop_last().push(rest.last()) == rest);
        let high = rest.last().order;
        if high != top {
            let other_tied = of_order::<C>(high);
            rest.drop_last().lemma_filter_push(rest.last(), other_tied);
            assert(full.filter(other_tied).len() > 0);
            let above = full.filter(other_tied)[0];
            full.lemma_filter_pred(other_tied, 0);
            assert(full.filter(other_tied).contains(above));
            full.lemma_filter_contains_rev(other_tied, above);
            let a = choose|i: int| 0 <= i < full.len() && full[i] == above;
            assert(full[a].order <= full[full.len() - 1].order);
            let below = rest.filter(tied)[0];
            rest.lemma_filter_pred(tied, 0);
            assert(rest.filter(tied).contains(below));
            rest.lemma_filter_contains_rev(tied, below);
            let b = choose|i: int| 0 <= i < rest.len() && rest[i] == below;
            assert(rest[b].order <= rest[rest.len() - 1].order);
            assert(false);
        }
        rest.drop_last().lemma_filter_push(rest.last(), tied);
        assert(rest.filter(tied).last() == rest.last());
        assert(one.last() == other.last());
        assert forall|order: usize|
            one.drop_last().filter(of_order(order)) == other.drop_last().filter(
                of_order(order),
            ) by {
            let pred = of_order::<C>(order);
            one.drop_last().lemma_filter_push(one.last(), pred);
            other.drop_last().lemma_filter_push(other.last(), pred);
            assert(one.filter(pred) == other.filter(pred));
            if order == top {
                assert(one.filter(pred).drop_last() == one.drop_last().filter(pred));
                assert(other.filter(pred).drop_last() == other.drop_last().filter(pred));
            }
        }
        assert forall|i: int, j: int| 0 <= i <= j < one.drop_last().len() implies (
        #[trigger] one.drop_last()[i]).order <= (#[trigger] one.drop_last()[j]).order by {
            assert(one[i].order <= one[j].order);
        }
        assert forall|i: int, j: int| 0 <= i <= j < other.drop_last().len() implies (
        #[trigger] other.drop_last()[i]).order <= (#[trigger] other.drop_last()[j]).order by {
            assert(other[i].order <= other[j].order);
        }
        lemma_sorted_unique(one.drop_last(), other.drop_last());
        assert(one == one.drop_last().push(one.last()));
        assert(other == other.drop_last().push(other.last()));
    }
}

/// The sorted entries are the only ascending sequence that keeps the entries
/// of every priority in their order: this is what sorting stably means.
pub proof fn lemma_stable_sort_unique<C>(entries: Seq<Entry<C>>, other: Seq<Entry<C>>)
    requires
        sorted(other),
        forall|order: usize| other.filter(of_order(order)) == entries.filter(of_order(order)),
    ensures
        other == stable_sort(entries),
{
    lemma_stable_sort_sorted(entries);
    assert forall|order: usize|
        stable_sort(entries).filter(of_order(order)) == other.filter(of_order(order)) by {
        lemma_stable_sort_keeps_ties(entries, order);
    }
    lemma_sorted_unique(stable_sort(entries), other);
}

/// Sorting keeps what is registered.
pub proof fn lemma_stable_sort_registered<C>(entries: Seq<Entry<C>>, id: Identity)
    ensures
        registered(stable_sort(entries), id) <==> registered(entries, id),
    decreases entries.len(),
{
    if entries.len() > 0 {
        let front = entries.drop_last();
        lemma_stable_sort_registered(front, id);
        lemma_sorted_insert_registered(stable_sort(front), entries.last(), id);
        if registered(entries, id) {
            let i = index_of(entries, id);
            if i < front.len() {
                assert(front[i].identity == id);
            }
        }
        if registered(front, id) {
            let i = index_of(front, id);
            assert(entries[i].identity == id);
        }
        if entries.last().identity == id {
            assert(entries[entries.len() - 1].identity == id);
        }
    }
}

/// Sorting keeps distinct identities distinct.
pub proof fn lemma_stable_sort_distinct<C>(entries: Seq<Entry<C>>)
    requires
        distinct(entries),
    ensures
        distinct(stable_sort(entries)),
    decreases entries.len(),
{
    if entries.len() > 0 {
        let front = entries.drop_last();
        assert forall|i: int, j: int| 0 <= i < j < front.len() implies (
        #[trigger] front[i]).identity != (#[trigger] front[j]).identity by {
            assert(front[i] == entries[i]);
            assert(front[j] == entries[j]);
        }
        lemma_stable_sort_distinct(front);
        lemma_stable_sort_registered(front, entries.last().identity);
        if registered(front, entries.last().identity) {
            let i = index_of(front, entries.last().identity);
            assert(entries[i] == front[i]);
            assert(entries[i].identity == entries[entries.len() - 1].identity);
        }
        lemma_sorted_insert_distinct(stable_sort(front), entries.last());
    }
}

/// Reading the priorities anew changes no identity and no component.
pub proof fn lemma_refreshed<C: Component>(entries: Seq<Entry<C>>)
    ensures
        refreshed(entries).len() == entries.len(),
        forall|i: int|
            0 <= i < entries.len() ==> (#[trigger] refreshed(entries)[i]) == refresh(entries[i]),
        distinct(entries) ==> distinct(refreshed(entries)),
        forall|id: Identity| registered(refreshed(entries), id) <==> registered(entries, id),
{
    let fresh = refreshed(entries);
    assert forall|id: Identity| registered(fresh, id) <==> registered(entries, id) by {
        if registered(fresh, id) {
            let i = index_of(fresh, id);
            assert(entries[i].identity == id);
        }
        if registered(entries, id) {
            let i = index_of(entries, id);
            assert(fresh[i].identity == id);
        }
    }
    if distinct(entries) {
        assert forall|i: int, j: int| 0 <= i < j < fresh.len() implies (
        #[trigger] fresh[i]).identity != (#[trigger] fresh[j]).identity by {
            assert(entries[i].identity != entries[j].identity);
        }
    }
}

/// Sorting with one more entry at the end is putting that entry into the
/// sorted rest.
pub proof fn lemma_stable_sort_push<C: Component>(entries: Seq<Entry<C>>, entry: Entry<C>)
    ensures
        stable_sort(refreshed(entries.push(entry))) == sorted_insert(
            stable_sort(refreshed(entries)),
            refresh(entry),
        ),
{
    let all = refreshed(entries.push(entry));
    assert(all.drop_last() == refreshed(entries));
    assert(all.last() == refresh(entry));
}

/// The place of an entry depends on its priority alone: another entry of the
/// same priority in its place is as if that one had been put in.
pub proof fn lemma_sorted_insert_update<C>(
    entries: Seq<Entry<C>>,
    entry: Entry<C>,
    other: Entry<C>,
)
    requires
        other.order == entry.order,
    ensures
        sorted_insert(entries, entry).update(insert_pos(entries, entry.order), other)
            == sorted_insert(entries, other),
{
    lemma_insert_pos(entries, entry.order);
    entries.insert_ensures(insert_pos(entries, entry.order), entry);
    entries.insert_ensures(insert_pos(entries, entry.order), other);
}

/// Taking an entry out leaves the others distinct and ascending, and all of
/// them registered but the one taken.
pub proof fn lemma_remove<C>(entries: Seq<Entry<C>>, i: int)
    requires
        0 <= i < entries.len(),
        distinct(entries),
    ensures
        distinct(entries.remove(i)),
        sorted(entries) ==> sorted(entries.remove(i)),
        !registered(entries.remove(i), entries[i].identity),
        forall|id: Identity|
            id != entries[i].identity ==> (registered(entries.remove(i), id) <==> registered(
                entries,
                id,
            )),
{
    let rest = entries.remove(i);
    entries.remove_ensures(i);
    assert forall|a: int, b: int| 0 <= a < b < rest.len() implies (#[trigger] rest[a]).identity != (
    #[trigger] rest[b]).identity by {
        let a0 = if a < i {
            a
        } else {
            a + 1
        };
        let b0 = if b < i {
            b
        } else {
            b + 1
        };
        assert(rest[a] == entries[a0]);
        assert(rest[b] == entries[b0]);
    }
    if sorted(entries) {
        assert forall|a: int, b: int| 0 <= a <= b < rest.len() implies (#[trigger] rest[a]).order
            <= (#[trigger] rest[b]).order by {
            let a0 = if a < i {
                a
            } else {
                a + 1
            };
            let b0 = if b < i {
                b
            } else {
                b + 1
            };
            assert(rest[a] == entries[a0]);
            assert(rest[b] == entries[b0]);
        }
    }
    assert forall|id: Identity| registered(rest, id) implies registered(entries, id) && id
        != entries[i].identity by {
        let k = index_of(rest, id);
        let k0 = if k < i {
            k
        } else {
            k + 1
        };
        assert(rest[k] == entries[k0]);
        assert(entries[k0].identity == id);
    }
    assert forall|id: Identity|
        id != entries[i].identity && registered(entries, id) implies registered(rest, id) by {
        let k = index_of(entries, id);
        let k1 = if k < i {
            k
        } else {
            k - 1
        };
        assert(rest[k1] == entries[k]);
        assert(rest[k1].identity == id);
    }
}

/// Two sequences with the same identities and stored priorities at the same
/// places are distinct and ascending together, and the same identities are
/// registered in both.
pub proof fn lemma_same_keys<C>(pre: Seq<Entry<C>>, post: Seq<Entry<C>>)
    requires
        post.len() == pre.len(),
        forall|i: int|
            0 <= i < pre.len() ==> (#[trigger] post[i]).identity == pre[i].identity && post[i].order
                == pre[i].order,
    ensures
        distinct(pre) ==> distinct(post),
        sorted(pre) ==> sorted(post),
        forall|id: Identity| registered(post, id) <==> registered(pre, id),
{
    if distinct(pre) {
        assert forall|i: int, j: int| 0 <= i < j < post.len() implies (#[trigger] post[i]).identity
            != (#[trigger] post[j]).identity by {
            assert(pre[i].identity != pre[j].identity);
        }
    }
    if sorted(pre) {
        assert forall|i: int, j: int| 0 <= i <= j < post.len() implies (#[trigger] post[i]).order
            <= (#[trigger] post[j]).order by {
            assert(pre[i].order <= pre[j].order);
        }
    }
    assert forall|id: Identity| registered(post, id) <==> registered(pre, id) by {
        if registered(post, id) {
            assert(pre[index_of(post, id)].identity == id);
        }
        if registered(pre, id) {
            assert(post[index_of(pre, id)].identity == id);
        }
    }
}

} // verus!
