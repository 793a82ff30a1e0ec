//! The order in which the notes of a map become entries of the output.

use crate::error::Error;
use crate::page::{PageMap, Pages};
use crate::render::body_views;
use crate::segment::{links_of, string_views, Hyperstring, SegmentView};
use crate::transclusion::{
    cyclic_transclusion_check, on_transclusion_cycle, transclusion_acyclic,
};
use vstd::hash_set::StringHashSet;
use vstd::prelude::*;

verus! {

/// Whether every note that a note of the map links to is in the map.
pub open spec fn link_closed(pages: Pages) -> bool {
    forall|from: Seq<char>, to: Seq<char>|
        pages.contains_key(from) && #[trigger] links_of(pages[from].body).contains(to)
            ==> pages.contains_key(to)
}

/// Whether the map holds a note for each of `names`.
pub open spec fn all_held(pages: Pages, names: Seq<Seq<char>>) -> bool {
    forall|i: int| 0 <= i < names.len() ==> pages.contains_key(#[trigger] names[i])
}

/// Those of `links` that are not in `seen`, in their order, each once.
pub open spec fn fresh(links: Seq<Seq<char>>, seen: Set<Seq<char>>) -> Seq<Seq<char>>
    decreases links.len(),
{
    if links.len() == 0 {
        Seq::empty()
    } else {
        let head = fresh(links.drop_last(), seen);
        let link = links.last();
        if seen.contains(link) || head.contains(link) {
            head
        } else {
            head.push(link)
        }
    }
}

/// The number of notes of the map that are not in `seen`.
pub open spec fn unseen(pages: Pages, seen: Set<Seq<char>>) -> nat {
    pages.dom().difference(seen).len()
}

/// The names in the order in which a depth-first walk over the links meets
/// them, from a work stack and the set of names that were ever on it. The
/// top of the stack is its last name. A visit puts the links of the note
/// that were never on the stack on top of it, in the order of the body, so
/// the last of them is visited next.
pub open spec fn traversal(pages: Pages, stack: Seq<Seq<char>>, seen: Set<Seq<char>>) -> Seq<
    Seq<char>,
>
    decreases unseen(pages, seen), stack.len(),
    when pages.dom().finite() && link_closed(pages) && all_held(pages, stack)
    via traversal_terminates
{
    if stack.len() == 0 {
        Seq::empty()
    } else {
        let name = stack.last();
        let found = fresh(links_of(pages[name].body), seen);
        seq![name] + traversal(pages, stack.drop_last() + found, seen.union(found.to_set()))
    }
}

#[via_fn]
proof fn traversal_terminates(pages: Pages, stack: Seq<Seq<char>>, seen: Set<Seq<char>>) {
    if stack.len() > 0 {
        lemma_visit_descends(pages, stack, seen);
    }
}

/// The names in the order in which the walk from `root` meets them: `root`
/// first, then the notes that its links reach, each once.
pub open spec fn link_order(pages: Pages, root: Seq<char>) -> Seq<Seq<char>> {
    traversal(pages, seq![root], set![root])
}

/// The bodies of the notes of `names`.
pub open spec fn bodies_of(pages: Pages, names: Seq<Seq<char>>) -> Seq<Seq<SegmentView>> {
    names.map_values(|name: Seq<char>| pages[name].body)
}

/// What [`fresh`] keeps is among the links, outside `seen`, and there once.
pub proof fn lemma_fresh(links: Seq<Seq<char>>, seen: Set<Seq<char>>)
    ensures
        fresh(links, seen).no_duplicates(),
        forall|i: int|
            0 <= i < fresh(links, seen).len() ==> links.contains(#[trigger] fresh(links, seen)[i])
                && !seen.contains(fresh(links, seen)[i]),
    decreases links.len(),
{
    if links.len() > 0 {
        let front = links.drop_last();
        let head = fresh(front, seen);
        let link = links.last();
        lemma_fresh(front, seen);
        assert(links[links.len() - 1] == link);
        assert forall|i: int| 0 <= i < fresh(links, seen).len() implies links.contains(
            #[trigger] fresh(links, seen)[i],
        ) && !seen.contains(fresh(links, seen)[i]) by {
            if i < head.len() {
                let at = front.index_of(head[i]);
                assert(front.contains(head[i]));
                assert(links[at] == head[i]);
            }
        }
        if !(seen.contains(link) || head.contains(link)) {
            assert forall|i: int, j: int|
                0 <= i < head.len() + 1 && 0 <= j < head.len() + 1 && i != j implies head.push(
                link,
            )[i] != head.push(link)[j] by {
                if i < head.len() {
                    assert(head.contains(head[i]));
                }
                if j < head.len() {
                    assert(head.contains(head[j]));
                }
            }
        }
    }
}

/// A visit keeps the stack among the notes of the map, and either leaves
/// fewer notes unseen or leaves them as they are and shortens the stack.
pub proof fn lemma_visit_descends(pages: Pages, stack: Seq<Seq<char>>, seen: Set<Seq<char>>)
    requires
        pages.dom().finite(),
        link_closed(pages),
        all_held(pages, stack),
        stack.len() > 0,
    ensures
        ({
            let found = fresh(links_of(pages[stack.last()].body), seen);
            let rest = stack.drop_last() + found;
            let after = seen.union(found.to_set());
            &&& all_held(pages, rest)
            &&& unseen(pages, after) <= unseen(pages, seen)
            &&& (found.len() == 0 ==> unseen(pages, after) == unseen(pages, seen) && rest.len()
                < stack.len())
            &&& (found.len() > 0 ==> unseen(pages, after) < unseen(pages, seen))
        }),
{
    let name = stack.last();
    let links = links_of(pages[name].body);
    let found = fresh(links, seen);
    let rest = stack.drop_last() + found;
    let after = seen.union(found.to_set());
    lemma_fresh(links, seen);
    assert(pages.contains_key(stack[stack.len() - 1]));
    assert forall|i: int| 0 <= i < rest.len() implies pages.contains_key(#[trigger] rest[i]) by {
        if i < stack.len() - 1 {
            assert(rest[i] == stack[i]);
        } else {
            assert(rest[i] == found[i - (stack.len() - 1)]);
            assert(links.contains(found[i - (stack.len() - 1)]));
        }
    }
    let before_left = pages.dom().difference(seen);
    let after_left = pages.dom().difference(after);
    assert(after_left.subset_of(before_left));
    vstd::set_lib::lemma_len_subset(after_left, before_left);
    if found.len() == 0 {
        assert(found.to_set() =~= Set::<Seq<char>>::empty());
        assert(after =~= seen);
    } else {
        let first = found[0];
        assert(links.contains(first));
        assert(found.to_set().contains(first));
        assert(before_left.contains(first));
        assert(after_left.subset_of(before_left.remove(first)));
        vstd::set_lib::lemma_len_subset(after_left, before_left.remove(first));
    }
}

/// A walk from a stack without repeats whose names are all seen meets no
/// note twice, stays among the notes of the map, and meets only names of
/// the stack and names that were not seen.
pub proof fn lemma_traversal(pages: Pages, stack: Seq<Seq<char>>, seen: Set<Seq<char>>)
    requires
        pages.dom().finite(),
        link_closed(pages),
        all_held(pages, stack),
        stack.no_duplicates(),
        forall|i: int| 0 <= i < stack.len() ==> seen.contains(#[trigger] stack[i]),
    ensures
        all_held(pages, traversal(pages, stack, seen)),
        traversal(pages, stack, seen).no_duplicates(),
        forall|i: int|
            0 <= i < traversal(pages, stack, seen).len() ==> stack.contains(
                #[trigger] traversal(pages, stack, seen)[i],
            ) || !seen.contains(traversal(pages, stack, seen)[i]),
    decreases unseen(pages, seen), stack.len(),
{
    if stack.len() > 0 {
        let name = stack.last();
        let links = links_of(pages[name].body);
        let found = fresh(links, seen);
        let rest = stack.drop_last() + found;
        let after = seen.union(found.to_set());
        lemma_visit_descends(pages, stack, seen);
        lemma_fresh(links, seen);
        assert(stack[stack.len() - 1] == name);
        assert forall|i: int, j: int| 0 <= i < rest.len() && 0 <= j < rest.len() && i != j implies rest[i]
            != rest[j] by {
            let cut = stack.len() - 1;
            if i < cut && j >= cut {
                assert(rest[i] == stack[i]);
                assert(rest[j] == found[j - cut]);
            }
            if j < cut && i >= cut {
                assert(rest[j] == stack[j]);
                assert(rest[i] == found[i - cut]);
            }
        }
        assert forall|i: int| 0 <= i < rest.len() implies after.contains(#[trigger] rest[i]) by {
            let cut = stack.len() - 1;
            if i < cut {
                assert(rest[i] == stack[i]);
            } else {
                assert(rest[i] == found[i - cut]);
                assert(found.to_set().contains(found[i - cut]));
            }
        }
        lemma_traversal(pages, rest, after);
        let tail = traversal(pages, rest, after);
        let whole = traversal(pages, stack, seen);
        assert(whole == seq![name] + tail);
        assert forall|i: int| 0 <= i < whole.len() implies pages.contains_key(#[trigger] whole[i])
            && (stack.contains(whole[i]) || !seen.contains(whole[i])) by {
            if i > 0 {
                assert(whole[i] == tail[i - 1]);
                assert(pages.contains_key(tail[i - 1]));
                if rest.contains(tail[i - 1]) {
                    let at = rest.index_of(tail[i - 1]);
                    assert(rest[at] == tail[i - 1]);
                    if at < stack.len() - 1 {
                        assert(stack[at] == tail[i - 1]);
                    } else {
                        assert(found[at - (stack.len() - 1)] == tail[i - 1]);
                    }
                }
            }
        }
        assert forall|i: int, j: int| 0 <= i < whole.len() && 0 <= j < whole.len() && i != j implies whole[i]
            != whole[j] by {
            if i > 0 && j > 0 {
                assert(whole[i] == tail[i - 1]);
                assert(whole[j] == tail[j - 1]);
            } else {
                let other = if i == 0 {
                    j
                } else {
                    i
                };
                assert(whole[other] == tail[other - 1]);
                assert(after.contains(name));
                if tail[other - 1] == name {
                    assert(rest.contains(name));
                    let at = rest.index_of(name);
                    assert(rest[at] == name);
                    if at < stack.len() - 1 {
                        assert(stack[at] == name);
                    } else {
                        assert(found[at - (stack.len() - 1)] == name);
                    }
                }
            }
        }
    }
}

/// The walk over the links from a root in the map starts with the root,
/// meets no note twice and stays among the notes of the map.
pub proof fn lemma_link_order(pages: Pages, root: Seq<char>)
    requires
        pages.dom().finite(),
        link_closed(pages),
        pages.contains_key(root),
    ensures
        link_order(pages, root).len() > 0,
        link_order(pages, root)[0] == root,
        link_order(pages, root).no_duplicates(),
        all_held(pages, link_order(pages, root)),
{
    let stack = seq![root];
    assert(stack[0] == root);
    lemma_traversal(pages, stack, set![root]);
    assert(stack.last() == root);
}

/// Whether the note `from` is in the map and links to `to`.
pub open spec fn links_to(pages: Pages, from: Seq<char>, to: Seq<char>) -> bool {
    pages.contains_key(from) && links_of(pages[from].body).contains(to)
}

/// Whether each note of `path` links to the next.
pub open spec fn is_link_path(pages: Pages, path: Seq<Seq<char>>) -> bool {
    forall|i: int| 0 <= i < path.len() - 1 ==> links_to(pages, #[trigger] path[i], path[i + 1])
}

/// Whether links lead from `root` to `name`, over no link or more.
pub open spec fn link_reachable(pages: Pages, root: Seq<char>, name: Seq<char>) -> bool {
    exists|path: Seq<Seq<char>>|
        path.len() >= 1 && path.first() == root && path.last() == name && is_link_path(pages, path)
}

/// A link that is not seen is among the fresh ones.
pub proof fn lemma_fresh_keeps(links: Seq<Seq<char>>, seen: Set<Seq<char>>, link: Seq<char>)
    requires
        links.contains(link),
        !seen.contains(link),
    ensures
        fresh(links, seen).contains(link),
    decreases links.len(),
{
    let front = links.drop_last();
    let head = fresh(front, seen);
    let at = links.index_of(link);
    assert(links[at] == link);
    if at < links.len() - 1 {
        assert(front[at] == link);
        lemma_fresh_keeps(front, seen, link);
        let place = head.index_of(link);
        assert(head[place] == link);
        assert(fresh(links, seen)[place] == link);
    } else if !head.contains(link) {
        assert(head.push(link)[head.len() as int] == link);
    }
}

/// A walk meets every name of its stack, and every note that a note it
/// meets links to was seen before or is met as well.
pub proof fn lemma_traversal_complete(pages: Pages, stack: Seq<Seq<char>>, seen: Set<Seq<char>>)
    requires
        pages.dom().finite(),
        link_closed(pages),
        all_held(pages, stack),
    ensures
        forall|i: int| 0 <= i < stack.len() ==> traversal(pages, stack, seen).contains(
            #[trigger] stack[i],
        ),
        forall|from: Seq<char>, to: Seq<char>|
            traversal(pages, stack, seen).contains(from) && #[trigger] links_to(pages, from, to)
                ==> seen.contains(to) || traversal(pages, stack, seen).contains(to),
    decreases unseen(pages, seen), stack.len(),
{
    if stack.len() > 0 {
        let name = stack.last();
        let links = links_of(pages[name].body);
        let found = fresh(links, seen);
        let rest = stack.drop_last() + found;
        let after = seen.union(found.to_set());
        lemma_visit_descends(pages, stack, seen);
        lemma_traversal_complete(pages, rest, after);
        let tail = traversal(pages, rest, after);
        let whole = traversal(pages, stack, seen);
        assert(whole == seq![name] + tail);
        assert(whole[0] == name);
        assert forall|other: Seq<char>| tail.contains(other) implies whole.contains(other) by {
            let at = tail.index_of(other);
            assert(tail[at] == other);
            assert(whole[at + 1] == other);
        }
        assert forall|i: int| 0 <= i < found.len() implies tail.contains(#[trigger] found[i]) by {
            assert(rest[stack.len() - 1 + i] == found[i]);
        }
        assert forall|i: int| 0 <= i < stack.len() implies whole.contains(#[trigger] stack[i]) by {
            if i < stack.len() - 1 {
                assert(rest[i] == stack[i]);
                assert(tail.contains(rest[i]));
            }
        }
        assert forall|from: Seq<char>, to: Seq<char>|
            whole.contains(from) && #[trigger] links_to(pages, from, to) implies seen.contains(to)
            || whole.contains(to) by {
            if !seen.contains(to) {
                let at = whole.index_of(from);
                assert(whole[at] == from);
                if at > 0 {
                    assert(tail[at - 1] == from);
                    assert(tail.contains(from));
                    if !tail.contains(to) {
                        assert(after.contains(to));
                        assert(found.to_set().contains(to));
                        let place = found.index_of(to);
                        assert(found[place] == to);
                    }
                } else {
                    lemma_fresh_keeps(links, seen, to);
                    let place = found.index_of(to);
                    assert(found[place] == to);
                }
            }
        }
    }
}

/// Every name that a walk meets can be reached over links from a name of
/// its stack.
pub proof fn lemma_traversal_sound(
    pages: Pages,
    root: Seq<char>,
    stack: Seq<Seq<char>>,
    seen: Set<Seq<char>>,
)
    requires
        pages.dom().finite(),
        link_closed(pages),
        all_held(pages, stack),
        forall|i: int| 0 <= i < stack.len() ==> link_reachable(pages, root, #[trigger] stack[i]),
    ensures
        forall|i: int|
            0 <= i < traversal(pages, stack, seen).len() ==> link_reachable(
                pages,
                root,
                #[trigger] traversal(pages, stack, seen)[i],
            ),
    decreases unseen(pages, seen), stack.len(),
{
    if stack.len() > 0 {
        let name = stack.last();
        let links = links_of(pages[name].body);
        let found = fresh(links, seen);
        let rest = stack.drop_last() + found;
        let after = seen.union(found.to_set());
        lemma_visit_descends(pages, stack, seen);
        lemma_fresh(links, seen);
        assert(stack[stack.len() - 1] == name);
        assert forall|i: int| 0 <= i < rest.len() implies link_reachable(
            pages,
            root,
            #[trigger] rest[i],
        ) by {
            if i < stack.len() - 1 {
                assert(rest[i] == stack[i]);
            } else {
                let link = found[i - (stack.len() - 1)];
                assert(rest[i] == link);
                assert(links.contains(link));
                lemma_reach_on(pages, root, name, link);
            }
        }
        lemma_traversal_sound(pages, root, rest, after);
        let tail = traversal(pages, rest, after);
        let whole = traversal(pages, stack, seen);
        assert(whole == seq![name] + tail);
        assert forall|i: int| 0 <= i < whole.len() implies link_reachable(
            pages,
            root,
            #[trigger] whole[i],
        ) by {
            if i > 0 {
                assert(whole[i] == tail[i - 1]);
            }
        }
    }
}

/// What a reachable note links to is reachable.
pub proof fn lemma_reach_on(pages: Pages, root: Seq<char>, from: Seq<char>, to: Seq<char>)
    requires
        link_reachable(pages, root, from),
        links_to(pages, from, to),
    ensures
        link_reachable(pages, root, to),
{
    let path = choose|path: Seq<Seq<char>>|
        path.len() >= 1 && path.first() == root && path.last() == from && is_link_path(pages, path);
    let longer = path.push(to);
    assert forall|i: int| 0 <= i < longer.len() - 1 implies links_to(
        pages,
        #[trigger] longer[i],
        longer[i + 1],
    ) by {
        if i < path.len() - 1 {
            assert(links_to(pages, path[i], path[i + 1]));
        }
    }
    assert(longer.first() == root);
    assert(longer.last() == to);
}

/// The walk over the links from `root` meets exactly the notes that links
/// lead to from `root`.
pub proof fn lemma_link_order_reaches(pages: Pages, root: Seq<char>, name: Seq<char>)
    requires
        pages.dom().finite(),
        link_closed(pages),
        pages.contains_key(root),
    ensures
        link_order(pages, root).contains(name) <==> link_reachable(pages, root, name),
{
    let stack = seq![root];
    let seen = set![root];
    let order = link_order(pages, root);
    assert(stack[0] == root);
    let alone = seq![root];
    assert(alone.first() == root && alone.last() == root && is_link_path(pages, alone));
    assert(link_reachable(pages, root, root));
    lemma_traversal_sound(pages, root, stack, seen);
    lemma_traversal_complete(pages, stack, seen);
    if order.contains(name) {
        let at = order.index_of(name);
        assert(order[at] == name);
    }
    if link_reachable(pages, root, name) {
        let path = choose|path: Seq<Seq<char>>|
            path.len() >= 1 && path.first() == root && path.last() == name && is_link_path(
                pages,
                path,
            );
        lemma_path_met(pages, root, path, path.len() - 1);
    }
}

/// The walk from `root` meets every note of a path of links from `root`.
proof fn lemma_path_met(pages: Pages, root: Seq<char>, path: Seq<Seq<char>>, upto: int)
    requires
        pages.dom().finite(),
        link_closed(pages),
        pages.contains_key(root),
        path.len() >= 1,
        path.first() == root,
        is_link_path(pages, path),
        0 <= upto < path.len(),
        forall|from: Seq<char>, to: Seq<char>|
            link_order(pages, root).contains(from) && #[trigger] links_to(pages, from, to)
                ==> to == root || link_order(pages, root).contains(to),
        link_order(pages, root).contains(root),
    ensures
        link_order(pages, root).contains(path[upto]),
    decreases upto,
{
    if upto > 0 {
        lemma_path_met(pages, root, path, upto - 1);
        assert(links_to(pages, path[upto - 1], path[upto]));
    }
}

/// The bodies of the notes that become entries of the output, in the order
/// in which they are put out: the reverse of the order in which the walk
/// over the links from `root_base_name` meets them. The walk meets the
/// root first, then for each note visited the notes it links to that were
/// not met before, the last link first; so the root comes last here. No
/// body comes twice. The map must hold the root and every note that is
/// linked to.
pub fn linearize(page_map: &PageMap, root_base_name: &str) -> (bodies: Vec<Hyperstring>)
    requires
        page_map@.contains_key(root_base_name@),
        link_closed(page_map@),
    ensures
        body_views(bodies@) == bodies_of(
            page_map@,
            link_order(page_map@, root_base_name@),
        ).reverse(),
        bodies.len() > 0,
        bodies[bodies.len() - 1]@ == page_map@[root_base_name@].body,
{
    let ghost pages = page_map@;
    proof {
        use_type_invariant(page_map);
        page_map.lemma_view();
    }
    let mut result: Vec<Hyperstring> = Vec::new();
    let mut seen = StringHashSet::new();
    let mut stack: Vec<String> = Vec::new();
    stack.push(root_base_name.to_string());
    seen.insert(root_base_name.to_string());
    let ghost mut visited: Seq<Seq<char>> = Seq::empty();
    proof {
        assert(string_views(stack@) =~= seq![root_base_name@]);
        assert(seen@ =~= set![root_base_name@]);
        assert(body_views(result@) =~= bodies_of(pages, visited));
    }
    while stack.len() > 0
        invariant
            pages == page_map@,
            pages.dom().finite(),
            link_closed(pages),
            all_held(pages, string_views(stack@)),
            body_views(result@) == bodies_of(pages, visited),
            visited + traversal(pages, string_views(stack@), seen@) == link_order(
                pages,
                root_base_name@,
            ),
        decreases unseen(pages, seen@), stack.len(),
    {
        let ghost stack_before = string_views(stack@);
        let ghost seen_before = seen@;
        let base_name = stack.pop().unwrap();
        proof {
            assert(base_name@ == stack_before.last());
            assert(string_views(stack@) =~= stack_before.drop_last());
            assert(pages.contains_key(stack_before[stack_before.len() - 1]));
            lemma_visit_descends(pages, stack_before, seen_before);
        }
        let page = page_map.get(base_name.as_str()).unwrap();
        let ghost result_before = body_views(result@);
        result.push(page.hyperstring.clone());
        let links = page.hyperstring.links();
        let ghost listed = links_of(pages[base_name@].body);
        proof {
            assert(body_views(result@) =~= result_before.push(page.hyperstring@));
            assert(bodies_of(pages, visited.push(base_name@)) =~= bodies_of(
                pages,
                visited,
            ).push(pages[base_name@].body));
            assert(listed.take(0) =~= Seq::<Seq<char>>::empty());
            assert(string_views(stack@) =~= stack_before.drop_last() + fresh(
                listed.take(0),
                seen_before,
            ));
            assert(seen@ =~= seen_before.union(fresh(listed.take(0), seen_before).to_set()));
        }
        let mut k: usize = 0;
        while k < links.len()
            invariant
                k <= links.len(),
                stack_before.len() > 0,
                string_views(links@) == listed,
                string_views(stack@) == stack_before.drop_last() + fresh(
                    listed.take(k as int),
                    seen_before,
                ),
                seen@ == seen_before.union(
                    fresh(listed.take(k as int), seen_before).to_set(),
                ),
            decreases links.len() - k,
        {
            let ghost head = fresh(listed.take(k as int), seen_before);
            let ghost link = listed[k as int];
            proof {
                assert(links@[k as int]@ == link);
                assert(listed.take(k + 1).drop_last() == listed.take(k as int));
                assert(listed.take(k + 1).last() == link);
                assert(head.to_set().contains(link) == head.contains(link));
            }
            if !seen.contains(links[k].as_str()) {
                let ghost stack_now = string_views(stack@);
                stack.push(links[k].clone());
                seen.insert(links[k].clone());
                proof {
                    assert(string_views(stack@) =~= stack_now.push(link));
                    assert(string_views(stack@) =~= stack_before.drop_last() + head.push(
                        link,
                    ));
                    head.lemma_push_to_set_commute(link);
                    assert(seen@ =~= seen_before.union(head.push(link).to_set()));
                }
            }
            k = k + 1;
        }
        proof {
            assert(listed.take(k as int) == listed);
            let found = fresh(listed, seen_before);
            assert(traversal(pages, stack_before, seen_before) == seq![base_name@]
                + traversal(pages, string_views(stack@), seen@));
            assert(visited.push(base_name@) + traversal(pages, string_views(stack@), seen@)
                =~= visited + traversal(pages, stack_before, seen_before));
            visited = visited.push(base_name@);
        }
    }
    proof {
        assert(traversal(pages, string_views(stack@), seen@) == Seq::<Seq<char>>::empty());
        assert(visited + Seq::<Seq<char>>::empty() =~= visited);
        lemma_link_order(pages, root_base_name@);
    }
    let ghost met = body_views(result@);
    let bodies = reversed(result);
    proof {
        assert(body_views(bodies@).len() == met.len());
        assert(body_views(bodies@)[bodies.len() - 1] == bodies[bodies.len() - 1]@);
        assert(met.reverse()[met.len() - 1] == met[0]);
    }
    bodies
}

/// The bodies of `met` from the last to the first.
fn reversed(met: Vec<Hyperstring>) -> (bodies: Vec<Hyperstring>)
    ensures
        body_views(bodies@) == body_views(met@).reverse(),
{
    let ghost all = body_views(met@);
    let mut met = met;
    let mut bodies: Vec<Hyperstring> = Vec::new();
    while met.len() > 0
        invariant
            met.len() + bodies.len() == all.len(),
            body_views(met@) == all.take(met.len() as int),
            forall|j: int| 0 <= j < bodies.len() ==> (#[trigger] bodies[j])@ == all[all.len() - 1 - j],
        decreases met.len(),
    {
        let ghost before = body_views(met@);
        let body = met.pop().unwrap();
        proof {
            assert(body@ == before[before.len() - 1]);
            assert(body_views(met@) =~= all.take(met.len() as int));
        }
        bodies.push(body);
    }
    assert(body_views(bodies@) =~= all.reverse());
    bodies
}

/// Checks the transclusions of a map for cycles and, where there is none,
/// orders its notes as [`linearize`] does. A cycle, wherever in the map it
/// lies, is a failure that names one of its notes: no list is handed out
/// then, so nothing of such a map is rendered.
pub fn transform(page_map: &PageMap, root_base_name: &str) -> (bodies: Result<
    Vec<Hyperstring>,
    Error,
>)
    requires
        page_map@.contains_key(root_base_name@),
        link_closed(page_map@),
    ensures
        bodies is Ok <==> transclusion_acyclic(page_map@),
        match bodies {
            Ok(list) => body_views(list@) == bodies_of(
                page_map@,
                link_order(page_map@, root_base_name@),
            ).reverse() && list.len() > 0 && list[list.len() - 1]@
                == page_map@[root_base_name@].body,
            Err(error) => error matches Error::TransclusionCycle(name) && page_map@.contains_key(
                name@,
            ) && on_transclusion_cycle(page_map@, name@),
        },
{
    match cyclic_transclusion_check(page_map) {
        Some(name) => Err(Error::TransclusionCycle(name)),
        None => Ok(linearize(page_map, root_base_name)),
    }
}

} // verus!
