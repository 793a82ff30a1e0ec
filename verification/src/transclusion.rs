//! The transclusion relation between the notes of a map.

use crate::graph::{
    add_edge, add_node, as_ints, empty_graph, graph_edges, graph_nodes, is_walk,
    lemma_topological_acyclic, on_cycle, toposort,
};
use crate::page::{paired, PageMap, PageView, Pages};
use crate::segment::transclusions_of;
use vstd::prelude::*;

verus! {

/// Whether the note `from` is in the map and transcludes `to`.
pub open spec fn transcludes(pages: Pages, from: Seq<char>, to: Seq<char>) -> bool {
    pages.contains_key(from) && transclusions_of(pages[from].body).contains(to)
}

/// Whether each note of `chain` transcludes the next.
pub open spec fn is_chain(pages: Pages, chain: Seq<Seq<char>>) -> bool {
    forall|i: int| 0 <= i < chain.len() - 1 ==> transcludes(pages, #[trigger] chain[i], chain[i + 1])
}

/// Whether `chain` leads from `name` back to `name` over one transclusion
/// or more.
pub open spec fn is_cycle_through(pages: Pages, chain: Seq<Seq<char>>, name: Seq<char>) -> bool {
    chain.len() >= 2 && is_chain(pages, chain) && chain.first() == name && chain.last() == name
}

/// Whether `name` takes part in a cycle of transclusions. A note that
/// transcludes itself does.
pub open spec fn on_transclusion_cycle(pages: Pages, name: Seq<char>) -> bool {
    exists|chain: Seq<Seq<char>>| is_cycle_through(pages, chain, name)
}

/// Whether no note takes part in a cycle of transclusions.
pub open spec fn transclusion_acyclic(pages: Pages) -> bool {
    forall|name: Seq<char>| !on_transclusion_cycle(pages, name)
}

/// Whether every note that a note of the map transcludes is in the map.
pub open spec fn transclusion_closed(pages: Pages) -> bool {
    forall|from: Seq<char>, to: Seq<char>| #[trigger]
        transcludes(pages, from, to) ==> pages.contains_key(to)
}

/// In a map without transclusion cycles no chain of transclusions meets a
/// note twice.
pub proof fn lemma_chain_without_repeats(pages: Pages, chain: Seq<Seq<char>>)
    requires
        transclusion_acyclic(pages),
        is_chain(pages, chain),
    ensures
        chain.no_duplicates(),
{
    assert forall|i: int, j: int| 0 <= i < chain.len() && 0 <= j < chain.len() && i != j implies chain[i]
        != chain[j] by {
        if chain[i] == chain[j] {
            let (low, high) = if i < j {
                (i, j)
            } else {
                (j, i)
            };
            let round = chain.subrange(low, high + 1);
            assert forall|k: int| 0 <= k < round.len() - 1 implies transcludes(
                pages,
                #[trigger] round[k],
                round[k + 1],
            ) by {
                assert(round[k] == chain[low + k]);
                assert(round[k + 1] == chain[low + k + 1]);
            }
            assert(is_cycle_through(pages, round, chain[i]));
            assert(on_transclusion_cycle(pages, chain[i]));
        }
    }
}

/// A list of notes of the map without repeats is no longer than the map.
pub proof fn lemma_distinct_notes_bound(pages: Pages, notes: Seq<Seq<char>>)
    requires
        pages.dom().finite(),
        notes.no_duplicates(),
        forall|i: int| 0 <= i < notes.len() ==> pages.contains_key(#[trigger] notes[i]),
    ensures
        notes.len() <= pages.dom().len(),
{
    notes.unique_seq_to_set();
    assert(notes.to_set().subset_of(pages.dom())) by {
        assert forall|name: Seq<char>| notes.to_set().contains(name) implies pages.dom().contains(
            name,
        ) by {
            let i = notes.index_of(name);
            assert(notes[i] == name);
        }
    }
    vstd::set_lib::lemma_len_subset(notes.to_set(), pages.dom());
}

/// Whether the note at place `from` transcludes the note at place `to`
/// among the first `upto` of its transclusions.
spec fn arc(names: Seq<Seq<char>>, pages: Seq<PageView>, from: int, to: int, upto: int) -> bool {
    &&& 0 <= from < names.len()
    &&& 0 <= to < names.len()
    &&& transclusions_of(pages[from].body).take(upto).contains(names[to])
}

/// The arcs that leave the note at place `from` for the first `upto` of
/// its transclusions.
spec fn arcs_of(names: Seq<Seq<char>>, pages: Seq<PageView>, from: int, upto: int) -> Set<
    (int, int),
> {
    Set::new(|e: (int, int)| e.0 == from && arc(names, pages, from, e.1, upto))
}

/// The arcs that leave the notes at the places before `rows`.
spec fn arcs_before(names: Seq<Seq<char>>, pages: Seq<PageView>, rows: int) -> Set<(int, int)> {
    Set::new(
        |e: (int, int)|
            0 <= e.0 < rows && arc(
                names,
                pages,
                e.0,
                e.1,
                transclusions_of(pages[e.0].body).len() as int,
            ),
    )
}

/// Taking one more transclusion of the note at place `from` into account
/// adds the arc to the place of its target, where the target is among the
/// names, and no other arc.
proof fn lemma_next_arc(
    names: Seq<Seq<char>>,
    pages: Seq<PageView>,
    from: int,
    k: int,
    place: Option<int>,
)
    requires
        names.no_duplicates(),
        names.len() == pages.len(),
        0 <= from < names.len(),
        0 <= k < transclusions_of(pages[from].body).len(),
        match place {
            Some(to) => 0 <= to < names.len() && names[to] == transclusions_of(
                pages[from].body,
            )[k],
            None => !names.contains(transclusions_of(pages[from].body)[k]),
        },
    ensures
        arcs_of(names, pages, from, k + 1) == match place {
            Some(to) => arcs_of(names, pages, from, k).insert((from, to)),
            None => arcs_of(names, pages, from, k),
        },
{
    let listed = transclusions_of(pages[from].body);
    let target = listed[k];
    let grown = match place {
        Some(to) => arcs_of(names, pages, from, k).insert((from, to)),
        None => arcs_of(names, pages, from, k),
    };
    assert(listed.take(k + 1) == listed.take(k).push(target));
    assert forall|e: (int, int)| #[trigger]
        arcs_of(names, pages, from, k + 1).contains(e) <==> grown.contains(e) by {
        if e.0 == from && 0 <= e.1 < names.len() {
            assert(names.contains(names[e.1]));
            if listed.take(k + 1).contains(names[e.1]) {
                let at = listed.take(k + 1).index_of(names[e.1]);
                assert(listed.take(k + 1)[at] == names[e.1]);
                if at < k {
                    assert(listed.take(k)[at] == names[e.1]);
                }
            }
            if listed.take(k).contains(names[e.1]) {
                let at = listed.take(k).index_of(names[e.1]);
                assert(listed.take(k + 1)[at] == names[e.1]);
            }
        }
        if let Some(to) = place {
            if e == (from, to) {
                assert(listed.take(k + 1)[k] == names[to]);
            }
        }
    }
    assert(arcs_of(names, pages, from, k + 1) =~= grown);
}

/// An arc between two places is a transclusion between the notes there.
proof fn lemma_arc_transcludes(names: Seq<Seq<char>>, pages: Seq<PageView>, from: int, to: int)
    requires
        names.no_duplicates(),
        names.len() == pages.len(),
        0 <= from < names.len(),
        0 <= to < names.len(),
    ensures
        arcs_before(names, pages, names.len() as int).contains((from, to)) <==> transcludes(
            paired(names, pages),
            names[from],
            names[to],
        ),
{
    crate::page::lemma_paired_at(names, pages, from);
    let listed = transclusions_of(pages[from].body);
    assert(listed.take(listed.len() as int) == listed);
}

/// A cycle among the places is a cycle among the notes there.
proof fn lemma_cycle_of_places(names: Seq<Seq<char>>, pages: Seq<PageView>, node: int)
    requires
        names.no_duplicates(),
        names.len() == pages.len(),
        0 <= node < names.len(),
        on_cycle(arcs_before(names, pages, names.len() as int), node),
    ensures
        on_transclusion_cycle(paired(names, pages), names[node]),
{
    let arcs = arcs_before(names, pages, names.len() as int);
    let walk = choose|walk: Seq<int>|
        walk.len() >= 2 && is_walk(arcs, walk) && walk.first() == node && walk.last() == node;
    let chain = Seq::new(walk.len(), |t: int| names[walk[t]]);
    assert forall|t: int| 0 <= t < chain.len() - 1 implies transcludes(
        paired(names, pages),
        #[trigger] chain[t],
        chain[t + 1],
    ) by {
        assert(arcs.contains((walk[t], walk[t + 1])));
        lemma_arc_transcludes(names, pages, walk[t], walk[t + 1]);
    }
    assert(is_cycle_through(paired(names, pages), chain, names[node]));
}

/// A cycle among the notes is a cycle among their places.
proof fn lemma_cycle_of_notes(names: Seq<Seq<char>>, pages: Seq<PageView>, name: Seq<char>)
    requires
        names.no_duplicates(),
        names.len() == pages.len(),
        on_transclusion_cycle(paired(names, pages), name),
    ensures
        names.contains(name),
        on_cycle(arcs_before(names, pages, names.len() as int), names.index_of(name)),
{
    let notes = paired(names, pages);
    let arcs = arcs_before(names, pages, names.len() as int);
    let chain = choose|chain: Seq<Seq<char>>| is_cycle_through(notes, chain, name);
    assert forall|t: int| 0 <= t < chain.len() implies names.contains(#[trigger] chain[t]) by {
        if t < chain.len() - 1 {
            assert(transcludes(notes, chain[t], chain[t + 1]));
        } else {
            assert(transcludes(notes, chain[0], chain[1]));
        }
    }
    let walk = Seq::new(chain.len(), |t: int| names.index_of(chain[t]));
    assert forall|t: int| 0 <= t < walk.len() - 1 implies arcs.contains(
        (#[trigger] walk[t], walk[t + 1]),
    ) by {
        assert(names.contains(chain[t]));
        assert(names.contains(chain[t + 1]));
        assert(transcludes(notes, chain[t], chain[t + 1]));
        lemma_arc_transcludes(names, pages, walk[t], walk[t + 1]);
    }
    assert(names.contains(chain[0]));
    assert(walk.first() == names.index_of(name));
    assert(walk.last() == names.index_of(name));
    assert(is_walk(arcs, walk));
}

/// Looks for a cycle in the transclusions between the notes of a map.
/// Hands back the name of a note that takes part in one, or `None` where
/// there is no cycle. A note that transcludes itself is on a cycle; a
/// transclusion of a note that the map does not hold is on none.
pub fn cyclic_transclusion_check(page_map: &PageMap) -> (found: Option<String>)
    ensures
        found is None <==> transclusion_acyclic(page_map@),
        found matches Some(name) ==> page_map@.contains_key(name@) && on_transclusion_cycle(
            page_map@,
            name@,
        ),
{
    let ghost names = page_map.names();
    let ghost pages = page_map.pages();
    proof {
        use_type_invariant(page_map);
        page_map.lemma_view();
    }
    let count = page_map.len();
    let mut graph = empty_graph();
    let mut added: usize = 0;
    while added < count
        invariant
            added <= count,
            graph_nodes(graph) == added,
            graph_edges(graph) == Set::<(int, int)>::empty(),
        decreases count - added,
    {
        let _ = add_node(&mut graph);
        added = added + 1;
    }
    assert(graph_edges(graph) =~= arcs_before(names, pages, 0));
    let mut from: usize = 0;
    while from < count
        invariant
            from <= count,
            count == names.len(),
            names == page_map.names(),
            pages == page_map.pages(),
            names.len() == pages.len(),
            names.no_duplicates(),
            graph_nodes(graph) == count,
            graph_edges(graph) == arcs_before(names, pages, from as int),
        decreases count - from,
    {
        let targets = page_map.page_at(from).hyperstring.transclusions();
        let ghost listed = transclusions_of(pages[from as int].body);
        let mut k: usize = 0;
        assert(graph_edges(graph) =~= arcs_before(names, pages, from as int).union(
            arcs_of(names, pages, from as int, 0),
        ));
        while k < targets.len()
            invariant
                k <= targets.len(),
                from < count,
                count == names.len(),
                names == page_map.names(),
                pages == page_map.pages(),
                names.len() == pages.len(),
                names.no_duplicates(),
                listed == transclusions_of(pages[from as int].body),
                crate::segment::string_views(targets@) == listed,
                graph_nodes(graph) == count,
                graph_edges(graph) == arcs_before(names, pages, from as int).union(
                    arcs_of(names, pages, from as int, k as int),
                ),
            decreases targets.len() - k,
        {
            assert(targets@[k as int]@ == listed[k as int]);
            match page_map.position(targets[k].as_str()) {
                Some(to) => {
                    proof {
                        lemma_next_arc(names, pages, from as int, k as int, Some(to as int));
                    }
                    add_edge(&mut graph, from, to);
                },
                None => {
                    proof {
                        lemma_next_arc(names, pages, from as int, k as int, None);
                    }
                },
            }
            assert(graph_edges(graph) =~= arcs_before(names, pages, from as int).union(
                arcs_of(names, pages, from as int, k + 1),
            ));
            k = k + 1;
        }
        proof {
            assert(listed.take(k as int) == listed);
            assert(graph_edges(graph) =~= arcs_before(names, pages, from + 1));
        }
        from = from + 1;
    }
    let ghost arcs = graph_edges(graph);
    match toposort(&graph) {
        Ok(order) => {
            proof {
                assert forall|name: Seq<char>| !on_transclusion_cycle(page_map@, name) by {
                    if on_transclusion_cycle(page_map@, name) {
                        lemma_cycle_of_notes(names, pages, name);
                        lemma_topological_acyclic(arcs, as_ints(order@), names.index_of(name));
                    }
                }
            }
            None
        },
        Err(node) => {
            proof {
                lemma_cycle_of_places(names, pages, node as int);
            }
            Some(page_map.name_at(node).clone())
        },
    }
}

} // verus!
