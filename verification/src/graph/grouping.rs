//! Grouping the segments at a station by the name that they carry.

use petgraph::stable_graph::EdgeIndex;
use vstd::prelude::*;

verus! {

/// A segment's handle under the name of its route.
pub type Named = (Seq<char>, EdgeIndex<u32>);

/// A name with the handles of the segments that carry it.
pub type Group = (Seq<char>, Seq<EdgeIndex<u32>>);

/// The names of `named`, in order.
pub open spec fn names_of(named: Seq<Named>) -> Seq<Seq<char>> {
    named.map_values(|p: Named| p.0)
}

/// The names in `names`, each once, in the order in which they first occur.
pub open spec fn distinct(names: Seq<Seq<char>>) -> Seq<Seq<char>>
    decreases names.len(),
{
    if names.len() == 0 {
        Seq::empty()
    } else {
        let before = distinct(names.drop_last());
        if before.contains(names.last()) {
            before
        } else {
            before.push(names.last())
        }
    }
}

/// The test for standing under `name`.
pub open spec fn under(name: Seq<char>) -> spec_fn(Named) -> bool {
    |p: Named| p.0 == name
}

/// The handles in `named` that stand under `name`, in order.
pub open spec fn members(named: Seq<Named>, name: Seq<char>) -> Seq<EdgeIndex<u32>> {
    named.filter(under(name)).map_values(|p: Named| p.1)
}

/// The groups of `named`: one for each name, in the order in which the names
/// first occur, each with the handles under that name in their order.
pub open spec fn groups_of(named: Seq<Named>) -> Seq<Group> {
    distinct(names_of(named)).map_values(|name: Seq<char>| (name, members(named, name)))
}

/// Named handles as plain values.
pub open spec fn named_view(named: Seq<(String, EdgeIndex<u32>)>) -> Seq<Named> {
    named.map_values(|p: (String, EdgeIndex<u32>)| (p.0@, p.1))
}

/// Groups as plain values.
pub open spec fn groups_view(groups: Seq<(String, Vec<EdgeIndex<u32>>)>) -> Seq<Group> {
    groups.map_values(|g: (String, Vec<EdgeIndex<u32>>)| (g.0@, g.1@))
}

/// No name stands twice in `distinct(names)`.
pub proof fn lemma_distinct_no_duplicates(names: Seq<Seq<char>>)
    ensures
        distinct(names).no_duplicates(),
    decreases names.len(),
{
    if names.len() > 0 {
        lemma_distinct_no_duplicates(names.drop_last());
    }
}

/// What one more named handle does to the groups: it joins the group of its
/// name where there is one, and founds a new last group where there is none.
pub proof fn lemma_groups_push(named: Seq<Named>, p: Named)
    ensures
        distinct(names_of(named)).contains(p.0) ==> {
            &&& groups_of(named.push(p)).len() == groups_of(named).len()
            &&& forall|g: int|
                0 <= g < groups_of(named).len() ==> #[trigger] groups_of(named.push(p))[g] == (
                    if groups_of(named)[g].0 == p.0 {
                        (p.0, groups_of(named)[g].1.push(p.1))
                    } else {
                        groups_of(named)[g]
                    })
        },
        !distinct(names_of(named)).contains(p.0) ==> groups_of(named.push(p)) == groups_of(
            named,
        ).push((p.0, seq![p.1])),
        forall|g: int| 0 <= g < groups_of(named).len() ==> (#[trigger] groups_of(named)[g]).0
            == distinct(names_of(named))[g],
{
    let names = names_of(named);
    let more = named.push(p);
    assert(names_of(more) =~= names.push(p.0));
    assert(names.push(p.0).drop_last() =~= names);
    assert forall|name: Seq<char>|
        #[trigger] members(more, name) == (if p.0 == name {
            members(named, name).push(p.1)
        } else {
            members(named, name)
        }) by {
        let pred = under(name);
        named.lemma_filter_push(p, pred);
        if p.0 == name {
            assert(named.filter(pred).push(p).map_values(|q: Named| q.1) =~= named.filter(
                pred,
            ).map_values(|q: Named| q.1).push(p.1));
        }
    }
    if distinct(names).contains(p.0) {
        assert(distinct(names_of(more)) == distinct(names));
    } else {
        assert(distinct(names_of(more)) == distinct(names).push(p.0));
        assert(members(named, p.0) =~= Seq::<EdgeIndex<u32>>::empty()) by {
            lemma_no_members(named, p.0);
        }
        assert(seq![p.1] =~= Seq::<EdgeIndex<u32>>::empty().push(p.1));
        assert(groups_of(more) =~= groups_of(named).push((p.0, seq![p.1])));
    }
}

/// The distinct names of `names` are the names that occur in `names`.
pub proof fn lemma_distinct_contains(names: Seq<Seq<char>>, name: Seq<char>)
    ensures
        distinct(names).contains(name) <==> names.contains(name),
    decreases names.len(),
{
    if names.len() > 0 {
        let before = names.drop_last();
        let last = names.last();
        lemma_distinct_contains(before, name);
        lemma_distinct_contains(before, last);
        let d = distinct(before);
        if names.contains(name) {
            let i = choose|i: int| 0 <= i < names.len() && names[i] == name;
            if i < names.len() - 1 {
                assert(before[i] == name);
                assert(d.contains(name));
                if !d.contains(last) {
                    let at = choose|at: int| 0 <= at < d.len() && d[at] == name;
                    assert(d.push(last)[at] == name);
                }
            } else {
                if !d.contains(last) {
                    assert(d.push(last)[d.len() as int] == name);
                }
            }
        }
        if distinct(names).contains(name) {
            let at = choose|at: int| 0 <= at < distinct(names).len() && distinct(names)[at] == name;
            if at < d.len() {
                assert(d[at] == name);
                let i = choose|i: int| 0 <= i < before.len() && before[i] == name;
                assert(names[i] == name);
            } else {
                assert(names[names.len() - 1] == name);
            }
        }
    }
}

/// A name that does not occur in `named` has no members.
pub proof fn lemma_no_members(named: Seq<Named>, name: Seq<char>)
    requires
        !distinct(names_of(named)).contains(name),
    ensures
        members(named, name).len() == 0,
    decreases named.len(),
{
    let pred = under(name);
    if named.len() == 0 {
        reveal(Seq::filter);
        assert(named.filter(pred).len() == 0);
    } else {
        let before = named.drop_last();
        let p = named.last();
        assert(before.push(p) =~= named);
        before.lemma_filter_push(p, pred);
        lemma_distinct_contains(names_of(named), name);
        assert(names_of(named)[named.len() - 1] == p.0);
        assert forall|i: int| 0 <= i < before.len() implies names_of(before)[i] != name by {
            assert(names_of(named)[i] == names_of(before)[i]);
        }
        lemma_distinct_contains(names_of(before), name);
        lemma_no_members(before, name);
    }
}

/// Each member of a group stands in `named`.
pub proof fn lemma_member_is_named(named: Seq<Named>, name: Seq<char>, i: int)
    requires
        0 <= i < members(named, name).len(),
    ensures
        exists|at: int| 0 <= at < named.len() && (#[trigger] named[at]).1 == members(named, name)[i],
{
    let kept = named.filter(under(name));
    named.lemma_filter_contains_rev(under(name), kept[i]);
    assert(kept.contains(kept[i]));
    let at = choose|at: int| 0 <= at < named.len() && named[at] == kept[i];
    assert(named[at].1 == members(named, name)[i]);
}

/// Groups named segments by name. The groups stand in the order in which
/// their names first occur in `named`, and each lists the handles under its
/// name in the order in which they stand in `named`.
pub fn group_by_name(named: Vec<(String, EdgeIndex<u32>)>) -> (r: Vec<(String, Vec<EdgeIndex<u32>>)>)
    ensures
        groups_view(r@) == groups_of(named_view(named@)),
{
    let mut related_routes: Vec<(String, Vec<EdgeIndex<u32>>)> = Vec::new();
    let mut k: usize = 0;
    assert(named_view(named@).take(0) =~= Seq::<Named>::empty());
    assert(groups_view(related_routes@) =~= groups_of(Seq::<Named>::empty()));
    while k < named.len()
        invariant
            k <= named.len(),
            groups_view(related_routes@) == groups_of(named_view(named@).take(k as int)),
        decreases named.len() - k,
    {
        let ghost seen = named_view(named@).take(k as int);
        let ghost p: Named = (named@[k as int].0@, named@[k as int].1);
        let ghost before = groups_view(related_routes@);
        proof {
            assert(named_view(named@).take(k as int + 1) =~= seen.push(p));
            lemma_groups_push(seen, p);
            lemma_distinct_no_duplicates(names_of(seen));
        }
        let name = &named[k].0;
        let edge = named[k].1;
        let mut found: Option<usize> = None;
        let mut j: usize = 0;
        while j < related_routes.len() && found.is_none()
            invariant
                j <= related_routes.len(),
                found matches Some(at) ==> at < related_routes.len() && related_routes@[at as int].0@
                    == name@,
                found is None ==> forall|g: int|
                    0 <= g < j ==> (#[trigger] related_routes@[g]).0@ != name@,
            decreases related_routes.len() - j + (if found is None { 1int } else { 0int }),
        {
            if related_routes[j].0 == *name {
                found = Some(j);
            } else {
                j += 1;
            }
        }
        match found {
            Some(at) => {
                related_routes[at].1.push(edge);
                proof {
                    let d = distinct(names_of(seen));
                    assert(before[at as int].0 == p.0);
                    assert(d[at as int] == p.0);
                    assert(d.contains(p.0));
                    assert forall|g: int| 0 <= g < before.len() implies #[trigger] groups_view(
                        related_routes@,
                    )[g] == groups_of(seen.push(p))[g] by {
                        if g != at {
                            assert(d[g] != d[at as int]);
                        }
                    }
                    assert(groups_view(related_routes@) =~= groups_of(seen.push(p)));
                }
            },
            None => {
                proof {
                    let d = distinct(names_of(seen));
                    assert forall|g: int| 0 <= g < d.len() implies d[g] != p.0 by {
                        assert(before[g].0 == d[g]);
                    }
                    assert(!d.contains(p.0));
                }
                let mut first: Vec<EdgeIndex<u32>> = Vec::new();
                first.push(edge);
                related_routes.push((name.clone(), first));
                assert(groups_view(related_routes@) =~= before.push((p.0, seq![p.1])));
            },
        }
        k += 1;
    }
    assert(named_view(named@).take(k as int) =~= named_view(named@));
    related_routes
}

} // verus!
