//! Finding every note that a root note refers to, directly or through
//! other notes.
//!
//! Reading a note is the caller's part. A [`Crawl`] says which note to read
//! next and takes its text; it never asks for a note twice.

use crate::error::{Error, ErrorView};
use crate::frontmatter::{body_of, front_matter, header_of, parse_page};
use crate::page::{closed, Page, PageMap, PageView, Pages};
use crate::segment::{references_of, string_views};
use crate::vault::Vault;
use vstd::prelude::*;

verus! {

/// Whether every note that a note of the map refers to is in the map or
/// among `pending`.
pub open spec fn closed_but_for(pages: Pages, pending: Seq<Seq<char>>) -> bool {
    forall|from: Seq<char>, to: Seq<char>|
        pages.contains_key(from) && #[trigger] references_of(pages[from].body).contains(to)
            ==> pages.contains_key(to) || pending.contains(to)
}

/// `pending` without the names at its end that the map already holds.
pub open spec fn trimmed(pages: Pages, pending: Seq<Seq<char>>) -> Seq<Seq<char>>
    decreases pending.len(),
{
    if pending.len() > 0 && pages.contains_key(pending.last()) {
        trimmed(pages, pending.drop_last())
    } else {
        pending
    }
}

/// The note that a text holds, or why it holds none.
pub open spec fn parsed(text: Seq<char>) -> Result<PageView, ErrorView> {
    match header_of(front_matter(text).0) {
        Ok(fields) => Ok(PageView { metadata: fields, body: body_of(front_matter(text).1) }),
        Err(error) => Err(error),
    }
}

/// Trimming loses only names that the map holds, and leaves a name on top
/// that the map does not hold.
pub proof fn lemma_trimmed(pages: Pages, pending: Seq<Seq<char>>)
    ensures
        trimmed(pages, pending).len() <= pending.len(),
        trimmed(pages, pending) == pending.take(trimmed(pages, pending).len() as int),
        trimmed(pages, pending).len() > 0 ==> !pages.contains_key(trimmed(pages, pending).last()),
        forall|name: Seq<char>|
            pending.contains(name) ==> pages.contains_key(name) || trimmed(
                pages,
                pending,
            ).contains(name),
    decreases pending.len(),
{
    if pending.len() > 0 && pages.contains_key(pending.last()) {
        let front = pending.drop_last();
        lemma_trimmed(pages, front);
        let kept = trimmed(pages, front);
        assert(front.take(kept.len() as int) == pending.take(kept.len() as int));
        assert forall|name: Seq<char>| pending.contains(name) implies pages.contains_key(name)
            || kept.contains(name) by {
            let i = pending.index_of(name);
            assert(pending[i] == name);
            if i < pending.len() - 1 {
                assert(front[i] == name);
                assert(front.contains(name));
            }
        }
    } else {
        assert(pending.take(pending.len() as int) == pending);
    }
}

/// The state of a crawl: the notes resolved so far, and the names that are
/// still to be looked at, the next one last.
pub struct Crawl {
    root: String,
    visited: PageMap,
    to_visit: Vec<String>,
}

/// What a crawl asks of its caller.
pub enum CrawlStep {
    /// Read the note of this name and hand its text to [`Crawl::supply`].
    Read(Crawl, String),
    /// Nothing is left to read: these are the notes.
    Done(Vault),
}

impl Crawl {
    /// The notes resolved so far.
    pub closed spec fn pages(&self) -> Pages {
        self.visited@
    }

    /// The names that are still to be looked at, the next one last.
    pub closed spec fn pending(&self) -> Seq<Seq<char>> {
        string_views(self.to_visit@)
    }

    /// The name of the note that the crawl started from.
    pub closed spec fn root(&self) -> Seq<char> {
        self.root@
    }

    /// The root and every reference of a resolved note are resolved or
    /// pending.
    #[verifier::type_invariant]
    pub closed spec fn wf(&self) -> bool {
        &&& closed_but_for(self.visited@, string_views(self.to_visit@))
        &&& self.visited@.contains_key(self.root@) || string_views(self.to_visit@).contains(
            self.root@,
        )
    }

    /// A crawl that has resolved nothing and is to look at `root_base_name`.
    pub fn new(root_base_name: &str) -> (crawl: Crawl)
        ensures
            crawl.root() == root_base_name@,
            crawl.pages() == Pages::empty(),
            crawl.pending() == seq![root_base_name@],
    {
        let mut to_visit: Vec<String> = Vec::new();
        to_visit.push(root_base_name.to_string());
        assert(string_views(to_visit@) =~= seq![root_base_name@]);
        assert(string_views(to_visit@)[0] == root_base_name@);
        Crawl { root: root_base_name.to_string(), visited: PageMap::new(), to_visit }
    }

    /// Drops the pending names that are resolved already, down to the first
    /// that is not.
    fn trim(self) -> (crawl: Crawl)
        ensures
            crawl.root() == self.root(),
            crawl.pages() == self.pages(),
            crawl.pending() == trimmed(self.pages(), self.pending()),
            crawl.pending().len() > 0 ==> !crawl.pages().contains_key(crawl.pending().last()),
    {
        proof {
            use_type_invariant(&self);
        }
        let ghost pages = self.pages();
        let ghost pending = self.pending();
        let Crawl { root, visited, to_visit } = self;
        let mut to_visit = to_visit;
        while to_visit.len() > 0 && visited.contains_key(to_visit[to_visit.len() - 1].as_str())
            invariant
                visited@ == pages,
                closed_but_for(pages, string_views(to_visit@)),
                pages.contains_key(root@) || string_views(to_visit@).contains(root@),
                trimmed(pages, string_views(to_visit@)) == trimmed(pages, pending),
            decreases to_visit.len(),
        {
            let ghost before = string_views(to_visit@);
            let _ = to_visit.pop();
            proof {
                assert(string_views(to_visit@) =~= before.drop_last());
                assert forall|from: Seq<char>, to: Seq<char>|
                    pages.contains_key(from) && #[trigger] references_of(
                        pages[from].body,
                    ).contains(to) implies pages.contains_key(to) || before.drop_last().contains(
                    to,
                ) by {
                    if !pages.contains_key(to) {
                        let i = before.index_of(to);
                        assert(before[i] == to);
                        assert(before.drop_last()[i] == to);
                    }
                }
                if !pages.contains_key(root@) {
                    let i = before.index_of(root@);
                    assert(before[i] == root@);
                    assert(before.drop_last()[i] == root@);
                }
            }
        }
        proof {
            lemma_trimmed(pages, string_views(to_visit@));
        }
        Crawl { root, visited, to_visit }
    }

    /// Passes over the pending names that are resolved already. Asks for
    /// the first that is not; where none is left, hands out the notes,
    /// which then hold the root and every note that one of them refers to.
    pub fn next(self) -> (step: CrawlStep)
        ensures
            match step {
                CrawlStep::Read(crawl, name) => {
                    &&& crawl.root() == self.root()
                    &&& crawl.pages() == self.pages()
                    &&& crawl.pending() == trimmed(self.pages(), self.pending())
                    &&& crawl.pending().len() > 0
                    &&& crawl.pending().last() == name@
                    &&& !crawl.pages().contains_key(name@)
                },
                CrawlStep::Done(vault) => {
                    &&& trimmed(self.pages(), self.pending()).len() == 0
                    &&& vault.root() == self.root()
                    &&& vault.pages() == self.pages()
                    &&& closed(vault.pages())
                    &&& vault.pages().contains_key(vault.root())
                },
            },
    {
        let crawl = self.trim();
        proof {
            use_type_invariant(&crawl);
        }
        if crawl.to_visit.len() == 0 {
            let Crawl { root, visited, to_visit } = crawl;
            assert(closed(visited@));
            CrawlStep::Done(Vault::assemble(visited, root))
        } else {
            let name = crawl.to_visit[crawl.to_visit.len() - 1].clone();
            assert(name@ == string_views(crawl.to_visit@).last());
            CrawlStep::Read(crawl, name)
        }
    }

    /// Takes the text of the note that [`Crawl::next`] asks for, `None`
    /// where the store has none. The note is parsed and put into the map,
    /// and every name it refers to becomes pending. Fails where there is no
    /// text or the header is malformed. Does nothing where `next` would ask
    /// for no note.
    pub fn supply(self, text: Option<&str>) -> (outcome: Result<Crawl, Error>)
        ensures
            ({
                let pending = trimmed(self.pages(), self.pending());
                if pending.len() == 0 {
                    outcome matches Ok(crawl) && crawl.root() == self.root() && crawl.pages()
                        == self.pages() && crawl.pending() == pending
                } else {
                    match text {
                        None => outcome matches Err(error) && error@
                            == ErrorView::UnresolvableReference(pending.last()),
                        Some(given) => match parsed(given@) {
                            Ok(page) => outcome matches Ok(crawl) && crawl.root() == self.root()
                                && crawl.pages() == self.pages().insert(pending.last(), page)
                                && crawl.pending() == pending.drop_last() + references_of(
                                page.body,
                            ),
                            Err(failure) => outcome matches Err(error) && error@ == failure,
                        },
                    }
                }
            }),
    {
        let ghost pages = self.pages();
        let crawl = self.trim();
        proof {
            use_type_invariant(&crawl);
        }
        let ghost pending = crawl.pending();
        if crawl.to_visit.len() == 0 {
            return Ok(crawl);
        }
        let name = crawl.to_visit[crawl.to_visit.len() - 1].clone();
        assert(name@ == pending.last());
        let given = match text {
            Some(given) => given,
            None => {
                return Err(Error::UnresolvableReference(name));
            },
        };
        let (metadata, hyperstring) = match parse_page(given) {
            Ok(parts) => parts,
            Err(error) => {
                return Err(error);
            },
        };
        let Crawl { root, visited, to_visit } = crawl;
        let mut visited = visited;
        let mut to_visit = to_visit;
        let references = hyperstring.references();
        let page = Page { metadata, hyperstring };
        let ghost listed = references_of(page@.body);
        let ghost after = pages.insert(pending.last(), page@);
        let _ = to_visit.pop();
        let _ = visited.insert(name, page);
        proof {
            assert(string_views(to_visit@) =~= pending.drop_last() + listed.take(0));
        }
        let mut k: usize = 0;
        while k < references.len()
            invariant
                k <= references.len(),
                pending.len() > 0,
                string_views(references@) == listed,
                string_views(to_visit@) == pending.drop_last() + listed.take(k as int),
            decreases references.len() - k,
        {
            let ghost before = string_views(to_visit@);
            to_visit.push(references[k].clone());
            proof {
                assert(references@[k as int]@ == listed[k as int]);
                assert(string_views(to_visit@) =~= before.push(listed[k as int]));
                assert(listed.take(k + 1) =~= listed.take(k as int).push(listed[k as int]));
            }
            k = k + 1;
        }
        proof {
            assert(listed.take(k as int) == listed);
            let queue = pending.drop_last() + listed;
            assert forall|from: Seq<char>, to: Seq<char>|
                after.contains_key(from) && #[trigger] references_of(after[from].body).contains(
                    to,
                ) implies after.contains_key(to) || queue.contains(to) by {
                if from == pending.last() {
                    let i = listed.index_of(to);
                    assert(listed[i] == to);
                    assert(queue[pending.len() - 1 + i] == to);
                } else if !pages.contains_key(to) {
                    assert(pending.contains(to));
                    let i = pending.index_of(to);
                    assert(pending[i] == to);
                    if i < pending.len() - 1 {
                        assert(queue[i] == to);
                    }
                }
            }
            if !after.contains_key(root@) {
                let i = pending.index_of(root@);
                assert(pending[i] == root@);
                assert(queue[i] == root@);
            }
        }
        Ok(Crawl { root, visited, to_visit })
    }
}

} // verus!
