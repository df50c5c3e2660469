//! The list of sessions: how their names are ordered and looked up.
use vstd::prelude::*;

use crate::text;
use crate::text::text_eq;
use crate::text::text_less;
use crate::text::text_starts_with;

verus! {

/// What a list of names denotes.
pub open spec fn name_views(names: Seq<String>) -> Seq<Seq<char>> {
    names.map_values(|name: String| name@)
}

/// Whether a name stands for a run without a session: it begins with `run-`.
pub open spec fn is_unnamed(name: Seq<char>) -> bool {
    "run-"@.is_prefix_of(name)
}

/// The order of the list: sessions with a name of their own first, then the runs
/// without one; among each, by name.
pub open spec fn name_leq(a: Seq<char>, b: Seq<char>) -> bool {
    if is_unnamed(a) == is_unnamed(b) {
        a == b || text::text_lt(a, b)
    } else {
        is_unnamed(b)
    }
}

/// The names in the order of the list.
pub open spec fn listing(names: Seq<Seq<char>>) -> Seq<Seq<char>> {
    names.sort_by(|a: Seq<char>, b: Seq<char>| name_leq(a, b))
}

/// The order of the list is a total order.
pub proof fn name_leq_is_total_order()
    ensures
        vstd::relations::total_ordering(|a: Seq<char>, b: Seq<char>| name_leq(a, b)),
{
    let leq = |a: Seq<char>, b: Seq<char>| name_leq(a, b);
    assert forall|a: Seq<char>, b: Seq<char>| #[trigger] leq(a, b) && #[trigger] leq(
        b,
        a,
    ) implies a == b by {
        if a != b {
            text::text_lt_transitive(a, b, a);
            text::text_lt_irreflexive(a);
        }
    }
    assert forall|a: Seq<char>, b: Seq<char>, c: Seq<char>| #[trigger] leq(a, b)
        && #[trigger] leq(b, c) implies leq(a, c) by {
        if text::text_lt(a, b) && text::text_lt(b, c) {
            text::text_lt_transitive(a, b, c);
        }
    }
    assert forall|a: Seq<char>, b: Seq<char>| #[trigger] leq(a, b) || #[trigger] leq(b, a) by {
        text::text_lt_connected(a, b);
    }
}

/// The list holds the same names as it is given, each as often, and each name
/// goes before those that follow it.
pub proof fn listing_is_sorted(names: Seq<Seq<char>>)
    ensures
        listing(names).to_multiset() == names.to_multiset(),
        forall|i: int, j: int|
            0 <= i < j < listing(names).len() ==> name_leq(
                #[trigger] listing(names)[i],
                #[trigger] listing(names)[j],
            ),
{
    let leq = |a: Seq<char>, b: Seq<char>| name_leq(a, b);
    name_leq_is_total_order();
    names.lemma_sort_by_ensures(leq);
    assert forall|i: int, j: int| 0 <= i < j < listing(names).len() implies name_leq(
        #[trigger] listing(names)[i],
        #[trigger] listing(names)[j],
    ) by {
        assert(leq(listing(names)[i], listing(names)[j]));
    }
}

/// Runs without a session come last: nothing but such runs follows one.
pub proof fn listing_puts_unnamed_last(names: Seq<Seq<char>>, i: int, j: int)
    requires
        0 <= i < j < listing(names).len(),
        is_unnamed(listing(names)[i]),
    ensures
        is_unnamed(listing(names)[j]),
{
    listing_is_sorted(names);
}

/// The list does not depend on the order in which the names arrive.
pub proof fn listing_ignores_arrival(a: Seq<Seq<char>>, b: Seq<Seq<char>>)
    requires
        a.to_multiset() == b.to_multiset(),
    ensures
        listing(a) == listing(b),
{
    let leq = |x: Seq<char>, y: Seq<char>| name_leq(x, y);
    name_leq_is_total_order();
    a.lemma_sort_by_ensures(leq);
    b.lemma_sort_by_ensures(leq);
    vstd::seq_lib::lemma_sorted_unique(listing(a), listing(b), leq);
}

/// Whether `a` stands strictly before `b` in the list.
fn name_less(a: &str, b: &str) -> (less: bool)
    ensures
        less == !name_leq(b@, a@),
{
    let a_unnamed = text_starts_with(a, "run-");
    let b_unnamed = text_starts_with(b, "run-");
    proof {
        text::text_lt_connected(a@, b@);
        text::text_lt_irreflexive(a@);
        if text::text_lt(a@, b@) && text::text_lt(b@, a@) {
            text::text_lt_transitive(a@, b@, a@);
        }
    }
    if a_unnamed == b_unnamed {
        text_less(a, b)
    } else {
        b_unnamed
    }
}

/// Puts names in the order of the list.
pub fn sort_names(names: Vec<String>) -> (sorted: Vec<String>)
    ensures
        name_views(sorted@) == listing(name_views(names@)),
{
    let ghost leq = |a: Seq<char>, b: Seq<char>| name_leq(a, b);
    let ghost all = name_views(names@);
    let mut sorted: Vec<String> = Vec::new();
    proof {
        name_leq_is_total_order();
        assert(name_views(sorted@) =~= Seq::empty());
        assert(all.take(0) =~= Seq::empty());
    }
    for name in it: names
        invariant
            leq == (|a: Seq<char>, b: Seq<char>| name_leq(a, b)),
            vstd::relations::total_ordering(leq),
            all == name_views(it.seq()),
            vstd::relations::sorted_by(name_views(sorted@), leq),
            name_views(sorted@).to_multiset() == all.take(it.index() as int).to_multiset(),
    {
        let ghost i = it.index() as int;
        let ghost before = name_views(sorted@);
        assert(it.seq()[i] == name);
        let mut p: usize = sorted.len();
        while p > 0
            invariant
                p <= sorted@.len(),
                before == name_views(sorted@),
                forall|k: int| p <= k < before.len() ==> !name_leq(#[trigger] before[k], name@),
            ensures
                p > 0 ==> name_leq(before[p - 1], name@),
            decreases p,
        {
            if !name_less(name.as_str(), sorted[p - 1].as_str()) {
                break;
            }
            p = p - 1;
        }
        let ghost fresh = name@;
        sorted.insert(p, name);
        proof {
            let after = name_views(sorted@);
            assert(after =~= before.insert(p as int, fresh));
            assert forall|j: int, k: int| 0 <= j < k < after.len() implies #[trigger] leq(
                after[j],
                after[k],
            ) by {
                let jj = if j < p { j } else { j - 1 };
                let kk = if k < p { k } else { k - 1 };
                if j != p && k != p {
                    assert(leq(before[jj], before[kk]));
                    assert(after[j] == before[jj] && after[k] == before[kk]);
                } else if j == p {
                    assert(after[k] == before[kk]);
                    assert(leq(fresh, before[kk]) || leq(before[kk], fresh));
                } else {
                    assert(after[j] == before[jj]);
                    assert(leq(before[p - 1], fresh));
                    if jj < p - 1 {
                        assert(leq(before[jj], before[p - 1]));
                    }
                }
            }
            after.to_multiset_ensures();
            assert(after.remove(p as int) =~= before);
            assert(after[p as int] == fresh);
            assert(after.contains(fresh));
            assert(after.to_multiset() =~= before.to_multiset().insert(fresh));
            all.take(i).to_multiset_ensures();
            assert(all.take(i + 1) =~= all.take(i).push(fresh));
        }
    }
    proof {
        assert(all.take(all.len() as int) =~= all);
        all.lemma_sort_by_ensures(leq);
        vstd::seq_lib::lemma_sorted_unique(name_views(sorted@), listing(all), leq);
    }
    sorted
}

/// Finds the first place where a name stands.
pub fn find_name(names: &Vec<String>, name: &str) -> (found: Option<usize>)
    ensures
        match found {
            Some(i) => name_views(names@).index_of_first(name@) == Some(i as int),
            None => name_views(names@).index_of_first(name@) is None,
        },
        found matches Some(i) ==> i < names@.len(),
{
    let ghost views = name_views(names@);
    proof {
        views.index_of_first_ensures(name@);
    }
    let mut i: usize = 0;
    while i < names.len()
        invariant
            i <= names@.len(),
            views == name_views(names@),
            forall|k: int| 0 <= k < i ==> #[trigger] views[k] != name@,
        decreases names@.len() - i,
    {
        if text_eq(names[i].as_str(), name) {
            proof {
                views.index_of_first_ensures(name@);
                assert(views[i as int] == name@);
            }
            return Some(i);
        }
        i = i + 1;
    }
    proof {
        views.index_of_first_ensures(name@);
    }
    None
}

/// Whether a name begins with `run-`.
pub open spec fn begins_with_run(name: Seq<char>) -> bool {
    name.len() >= 4 && name[0] == 'r' && name[1] == 'u' && name[2] == 'n' && name[3] == '-'
}

proof fn unnamed_begins_with_run(name: Seq<char>)
    ensures
        is_unnamed(name) == begins_with_run(name),
{
    reveal_strlit("run-");
    if name.len() >= 4 {
        let start = name.subrange(0, 4);
        assert(start[0] == name[0] && start[1] == name[1] && start[2] == name[2] && start[3]
            == name[3]);
        if begins_with_run(name) {
            assert(start =~= "run-"@);
        }
    }
}

/// Names that begin with `run-` stand behind all others in the list.
pub proof fn bare_runs_stand_last(names: Seq<Seq<char>>, i: int, j: int)
    requires
        0 <= i < listing(names).len(),
        0 <= j < listing(names).len(),
        !begins_with_run(listing(names)[i]),
        begins_with_run(listing(names)[j]),
    ensures
        i < j,
{
    listing_is_sorted(names);
    unnamed_begins_with_run(listing(names)[i]);
    unnamed_begins_with_run(listing(names)[j]);
    if j < i {
        assert(name_leq(listing(names)[j], listing(names)[i]));
    }
}

/// Among the names that begin with `run-`, and among the others, the one with the
/// smaller character where the two first differ stands first, and so does one that
/// the other goes on from.
pub proof fn names_stand_in_order(names: Seq<Seq<char>>, i: int, j: int, k: int)
    requires
        0 <= i < listing(names).len(),
        0 <= j < listing(names).len(),
        begins_with_run(listing(names)[i]) == begins_with_run(listing(names)[j]),
        0 <= k <= listing(names)[i].len(),
        k < listing(names)[j].len(),
        listing(names)[i].take(k) == listing(names)[j].take(k),
        k < listing(names)[i].len() ==> listing(names)[i][k] < listing(names)[j][k],
    ensures
        i < j,
{
    let a = listing(names)[i];
    let b = listing(names)[j];
    listing_is_sorted(names);
    unnamed_begins_with_run(a);
    unnamed_begins_with_run(b);
    text::differing_texts_are_ordered(a, b, k);
    text::text_lt_irreflexive(a);
    if j < i {
        assert(name_leq(b, a));
    }
}

} // verus!
