//! A closed set of notes around a root, and the output made of it.

use crate::error::{text_result, Error, ErrorView};
use crate::linearize::{bodies_of, lemma_link_order, link_closed, link_order, transform};
use crate::page::{closed, PageMap, Pages};
use crate::render::{body_views, join_plaintexts, joined, plaintext, transclusions_held};
use crate::segment::{
    lemma_target_listed, lemma_target_origin, links_of, references_of, transclusions_of,
};
use crate::transclusion::{
    on_transclusion_cycle, transcludes, transclusion_acyclic, transclusion_closed,
};
use vstd::prelude::*;

verus! {

/// A map that is closed under references is closed under links and under
/// transclusions.
pub proof fn lemma_closed(pages: Pages)
    requires
        closed(pages),
    ensures
        link_closed(pages),
        transclusion_closed(pages),
{
    assert forall|from: Seq<char>, to: Seq<char>|
        pages.contains_key(from) && #[trigger] links_of(pages[from].body).contains(
            to,
        ) implies pages.contains_key(to) by {
        let body = pages[from].body;
        let i = lemma_target_origin(body, to, true, false);
        lemma_target_listed(body, i, true, true);
        assert(references_of(pages[from].body).contains(to));
    }
    assert forall|from: Seq<char>, to: Seq<char>| #[trigger]
        transcludes(pages, from, to) implies pages.contains_key(to) by {
        let body = pages[from].body;
        let i = lemma_target_origin(body, to, false, true);
        lemma_target_listed(body, i, true, true);
        assert(references_of(pages[from].body).contains(to));
    }
}

/// A root note together with every note that it refers to, directly or
/// through other notes: what a crawl ends in.
pub struct Vault {
    root: String,
    page_map: PageMap,
}

/// The output of a run over the notes of a map without transclusion
/// cycles: in single mode the plain text of the root alone; else the plain
/// texts of the notes that links lead to from the root, in the reverse of
/// the order in which the walk over the links meets them, so that the root
/// comes last.
pub open spec fn output(pages: Pages, root: Seq<char>, single: bool) -> Result<
    Seq<char>,
    ErrorView,
> {
    if single {
        plaintext(pages, pages[root].body)
    } else {
        joined(pages, bodies_of(pages, link_order(pages, root)).reverse())
    }
}

impl Vault {
    /// The notes of `page_map` with `root_base_name` as their root, where
    /// the map holds the root and every note that one of its notes refers
    /// to; else `None`.
    pub fn new(page_map: PageMap, root_base_name: &str) -> (vault: Option<Vault>)
        ensures
            vault is Some <==> closed(page_map@) && page_map@.contains_key(root_base_name@),
            vault matches Some(held) ==> held.pages() == page_map@ && held.root()
                == root_base_name@,
    {
        if page_map.contains_key(root_base_name) && page_map.is_closed() {
            Some(Vault { root: root_base_name.to_string(), page_map })
        } else {
            None
        }
    }

    /// A vault of notes that are known to hold what a vault must hold.
    pub(crate) fn assemble(page_map: PageMap, root: String) -> (vault: Vault)
        requires
            closed(page_map@),
            page_map@.contains_key(root@),
        ensures
            vault.pages() == page_map@,
            vault.root() == root@,
    {
        Vault { root, page_map }
    }

    /// The notes by name.
    pub closed spec fn pages(&self) -> Pages {
        self.page_map@
    }

    /// The name of the root note.
    pub closed spec fn root(&self) -> Seq<char> {
        self.root@
    }

    /// The map holds the root and every note that one of its notes refers
    /// to.
    #[verifier::type_invariant]
    pub closed spec fn wf(&self) -> bool {
        closed(self.page_map@) && self.page_map@.contains_key(self.root@)
    }

    /// The notes by name.
    pub fn page_map(&self) -> (page_map: &PageMap)
        ensures
            page_map@ == self.pages(),
            page_map@.contains_key(self.root()),
            closed(page_map@),
            link_closed(page_map@),
            transclusion_closed(page_map@),
    {
        proof {
            use_type_invariant(self);
            lemma_closed(self.page_map@);
        }
        &self.page_map
    }

    /// The name of the root note.
    pub fn root_base_name(&self) -> (name: &str)
        ensures
            name@ == self.root(),
    {
        self.root.as_str()
    }

    /// The output of a run: see [`output`]. A cycle of transclusions is a
    /// failure that names one of its notes, and nothing is rendered.
    pub fn flatten(&self, single: bool) -> (text: Result<String, Error>)
        ensures
            transclusion_acyclic(self.pages()) ==> text_result(text) == output(
                self.pages(),
                self.root(),
                single,
            ),
            !transclusion_acyclic(self.pages()) ==> (text matches Err(
                Error::TransclusionCycle(name),
            ) && on_transclusion_cycle(self.pages(), name@)),
    {
        let page_map = self.page_map();
        let root = self.root_base_name();
        match transform(page_map, root) {
            Err(error) => Err(error),
            Ok(hyperstrings) => {
                let ghost names = link_order(page_map@, root@);
                proof {
                    use_type_invariant(page_map);
                    page_map.lemma_view();
                    lemma_link_order(page_map@, root@);
                    assert forall|i: int| 0 <= i < hyperstrings.len() implies transclusions_held(
                        page_map@,
                        #[trigger] hyperstrings[i]@,
                    ) by {
                        let at = names.len() - 1 - i;
                        assert(body_views(hyperstrings@)[i] == hyperstrings[i]@);
                        assert(bodies_of(page_map@, names).reverse()[i] == bodies_of(
                            page_map@,
                            names,
                        )[at]);
                        assert(bodies_of(page_map@, names)[at] == page_map@[names[at]].body);
                        lemma_body_held(page_map@, names[at]);
                    }
                }
                if single {
                    hyperstrings[hyperstrings.len() - 1].to_plaintext(page_map)
                } else {
                    join_plaintexts(page_map, &hyperstrings)
                }
            },
        }
    }
}

/// In a map that is closed under transclusions, the map holds what the
/// body of each of its notes transcludes.
pub proof fn lemma_body_held(pages: Pages, name: Seq<char>)
    requires
        transclusion_closed(pages),
        pages.contains_key(name),
    ensures
        transclusions_held(pages, pages[name].body),
{
    assert forall|target: Seq<char>| #[trigger]
        transclusions_of(pages[name].body).contains(target) implies pages.contains_key(target) by {
        assert(transcludes(pages, name, target));
    }
}

} // verus!
