//! Notes, and the map from names to notes.

use crate::metadata::{Metadata, ValueView};
use crate::segment::{references_of, string_views, Hyperstring, SegmentView};
use crate::text::same_text;
use vstd::prelude::*;

verus! {

/// One note: its header and its body.
#[derive(PartialEq, Debug)]
pub struct Page {
    pub metadata: Metadata,
    pub hyperstring: Hyperstring,
}

/// The mathematical value of a [`Page`].
pub ghost struct PageView {
    pub metadata: Map<Seq<char>, ValueView>,
    pub body: Seq<SegmentView>,
}

impl View for Page {
    type V = PageView;

    open spec fn view(&self) -> PageView {
        PageView { metadata: self.metadata@, body: self.hyperstring@ }
    }
}

/// The notes of one run by name, as contracts speak of them.
pub type Pages = Map<Seq<char>, PageView>;

/// Whether every note that a note of the map refers to, by a link or a
/// transclusion, is in the map.
pub open spec fn closed(pages: Pages) -> bool {
    forall|from: Seq<char>, to: Seq<char>|
        pages.contains_key(from) && #[trigger] references_of(pages[from].body).contains(to)
            ==> pages.contains_key(to)
}

/// The map that gives each of `names` the note at its place in `pages`.
pub open spec fn paired(names: Seq<Seq<char>>, pages: Seq<PageView>) -> Pages {
    Map::new(
        |name: Seq<char>| names.contains(name),
        |name: Seq<char>| pages[names.index_of(name)],
    )
}

/// In a list without repeats each name is found at its own place.
pub proof fn lemma_paired_at(names: Seq<Seq<char>>, pages: Seq<PageView>, i: int)
    requires
        names.no_duplicates(),
        0 <= i < names.len(),
    ensures
        names.contains(names[i]),
        names.index_of(names[i]) == i,
        paired(names, pages).contains_key(names[i]),
        paired(names, pages)[names[i]] == pages[i],
{
    assert(names.contains(names[i]));
    let j = names.index_of(names[i]);
    assert(names[j] == names[i]);
}

/// A new name at the end of the list is a new key of the map.
pub proof fn lemma_paired_push(
    names: Seq<Seq<char>>,
    pages: Seq<PageView>,
    name: Seq<char>,
    page: PageView,
)
    requires
        names.no_duplicates(),
        names.len() == pages.len(),
        !names.contains(name),
    ensures
        names.push(name).no_duplicates(),
        paired(names.push(name), pages.push(page)) == paired(names, pages).insert(name, page),
{
    let longer = names.push(name);
    assert(longer.no_duplicates()) by {
        assert forall|i: int, j: int|
            0 <= i < longer.len() && 0 <= j < longer.len() && i != j implies longer[i]
            != longer[j] by {
            if i < names.len() {
                assert(names.contains(names[i]));
            }
            if j < names.len() {
                assert(names.contains(names[j]));
            }
        }
    }
    assert forall|key: Seq<char>| #[trigger]
        longer.contains(key) <==> (names.contains(key) || key == name) by {
        if names.contains(key) {
            assert(longer[names.index_of(key)] == key);
        }
        if key == name {
            assert(longer[names.len() as int] == key);
        }
    }
    assert forall|key: Seq<char>| longer.contains(key) implies #[trigger] paired(
        longer,
        pages.push(page),
    )[key] == paired(names, pages).insert(name, page)[key] by {
        let j = longer.index_of(key);
        lemma_paired_at(longer, pages.push(page), j);
        if j < names.len() {
            lemma_paired_at(names, pages, j);
        }
    }
    assert(paired(longer, pages.push(page)) =~= paired(names, pages).insert(name, page));
}

/// A new note at a place of the list is a new value for the name there.
pub proof fn lemma_paired_update(names: Seq<Seq<char>>, pages: Seq<PageView>, i: int, page: PageView)
    requires
        names.no_duplicates(),
        names.len() == pages.len(),
        0 <= i < names.len(),
    ensures
        paired(names, pages.update(i, page)) == paired(names, pages).insert(names[i], page),
{
    lemma_paired_at(names, pages, i);
    assert forall|key: Seq<char>| names.contains(key) implies #[trigger] paired(
        names,
        pages.update(i, page),
    )[key] == paired(names, pages).insert(names[i], page)[key] by {
        let j = names.index_of(key);
        lemma_paired_at(names, pages, j);
    }
    assert(paired(names, pages.update(i, page)) =~= paired(names, pages).insert(names[i], page));
}

/// The names of a list of entries.
pub open spec fn entry_names(entries: Seq<(String, Page)>) -> Seq<Seq<char>> {
    Seq::new(entries.len(), |i: int| entries[i].0@)
}

/// The notes of a list of entries.
pub open spec fn entry_pages(entries: Seq<(String, Page)>) -> Seq<PageView> {
    Seq::new(entries.len(), |i: int| entries[i].1@)
}

/// The notes of one run, each under its name. No name occurs twice.
///
/// The notes are held in the order in which their names were first
/// inserted, so that they can be walked in an order that does not change
/// from run to run.
#[derive(Debug)]
pub struct PageMap {
    entries: Vec<(String, Page)>,
}

impl PageMap {
    /// The names of the notes, in the order in which they were first
    /// inserted.
    pub closed spec fn names(&self) -> Seq<Seq<char>> {
        entry_names(self.entries@)
    }

    /// The notes, in the order of [`PageMap::names`].
    pub closed spec fn pages(&self) -> Seq<PageView> {
        entry_pages(self.entries@)
    }

    /// No name occurs twice.
    #[verifier::type_invariant]
    pub closed spec fn wf(&self) -> bool {
        self.names().no_duplicates()
    }

    /// How names, notes and the view of a well-formed map hang together.
    pub proof fn lemma_view(&self)
        requires
            self.wf(),
        ensures
            self.names().len() == self.pages().len(),
            self.names().no_duplicates(),
            self@ == paired(self.names(), self.pages()),
            self@.dom() == self.names().to_set(),
            self@.dom().finite(),
            self@.dom().len() == self.names().len(),
            forall|i: int|
                0 <= i < self.names().len() ==> self@.contains_key(#[trigger] self.names()[i])
                    && self@[self.names()[i]] == self.pages()[i],
    {
        assert(self@.dom() =~= self.names().to_set());
        self.names().unique_seq_to_set();
        vstd::seq_lib::seq_to_set_is_finite(self.names());
        assert forall|i: int| 0 <= i < self.names().len() implies self@.contains_key(
            #[trigger] self.names()[i],
        ) && self@[self.names()[i]] == self.pages()[i] by {
            lemma_paired_at(self.names(), self.pages(), i);
        }
    }
}

impl View for PageMap {
    type V = Pages;

    closed spec fn view(&self) -> Pages {
        paired(self.names(), self.pages())
    }
}

impl PageMap {
    /// A map without notes.
    pub fn new() -> (map: PageMap)
        ensures
            map@ == Pages::empty(),
            map.names() == Seq::<Seq<char>>::empty(),
    {
        let map = PageMap { entries: Vec::new() };
        assert(map.names() =~= Seq::<Seq<char>>::empty());
        assert(map@ =~= Pages::empty());
        map
    }

    /// The number of notes.
    pub fn len(&self) -> (count: usize)
        ensures
            count == self.names().len(),
            count == self@.dom().len(),
    {
        proof {
            use_type_invariant(self);
            self.lemma_view();
        }
        self.entries.len()
    }

    /// The place of the note called `name` in [`PageMap::names`].
    pub fn position(&self, name: &str) -> (place: Option<usize>)
        ensures
            match place {
                Some(i) => i < self.names().len() && self.names()[i as int] == name@
                    && self@.contains_key(name@) && self@[name@] == self.pages()[i as int],
                None => !self@.contains_key(name@) && !self.names().contains(name@),
            },
    {
        proof {
            use_type_invariant(self);
        }
        let mut i: usize = 0;
        while i < self.entries.len()
            invariant
                i <= self.entries.len(),
                self.names().no_duplicates(),
                forall|j: int| 0 <= j < i ==> self.names()[j] != name@,
            decreases self.entries.len() - i,
        {
            if same_text(self.entries[i].0.as_str(), name) {
                proof {
                    lemma_paired_at(self.names(), self.pages(), i as int);
                }
                return Some(i);
            }
            i = i + 1;
        }
        None
    }

    /// Whether the map holds a note called `name`.
    pub fn contains_key(&self, name: &str) -> (held: bool)
        ensures
            held == self@.contains_key(name@),
    {
        self.position(name).is_some()
    }

    /// The note called `name`, if the map holds one.
    pub fn get(&self, name: &str) -> (page: Option<&Page>)
        ensures
            match page {
                Some(found) => self@.contains_key(name@) && self@[name@] == found@,
                None => !self@.contains_key(name@),
            },
    {
        match self.position(name) {
            Some(i) => Some(&self.entries[i].1),
            None => None,
        }
    }

    /// The name at place `i`.
    pub fn name_at(&self, i: usize) -> (name: &String)
        requires
            i < self.names().len(),
        ensures
            name@ == self.names()[i as int],
    {
        &self.entries[i].0
    }

    /// The note at place `i`.
    pub fn page_at(&self, i: usize) -> (page: &Page)
        requires
            i < self.names().len(),
        ensures
            page@ == self.pages()[i as int],
            self@.contains_key(self.names()[i as int]),
            self@[self.names()[i as int]] == page@,
    {
        proof {
            use_type_invariant(self);
            lemma_paired_at(self.names(), self.pages(), i as int);
        }
        &self.entries[i].1
    }

    /// Puts `page` under `name`. A note that was held under that name is
    /// replaced and handed back.
    pub fn insert(&mut self, name: String, page: Page) -> (replaced: Option<Page>)
        ensures
            final(self)@ == old(self)@.insert(name@, page@),
            match replaced {
                Some(previous) => old(self)@.contains_key(name@) && old(self)@[name@] == previous@
                    && final(self).names() == old(self).names(),
                None => !old(self)@.contains_key(name@) && final(self).names() == old(
                    self,
                ).names().push(name@),
            },
    {
        proof {
            use_type_invariant(&*self);
        }
        let ghost names = self.names();
        let ghost pages = self.pages();
        let place = self.position(name.as_str());
        let mut taken = PageMap::new();
        std::mem::swap(self, &mut taken);
        let mut entries = taken.entries;
        match place {
            Some(i) => {
                entries.push((name, page));
                let previous = entries.swap_remove(i);
                proof {
                    assert(entry_names(entries@) =~= names);
                    assert(entry_pages(entries@) =~= pages.update(i as int, page@));
                    lemma_paired_update(names, pages, i as int, page@);
                }
                *self = PageMap { entries };
                Some(previous.1)
            },
            None => {
                entries.push((name, page));
                proof {
                    assert(entry_names(entries@) =~= names.push(name@));
                    assert(entry_pages(entries@) =~= pages.push(page@));
                    lemma_paired_push(names, pages, name@, page@);
                }
                *self = PageMap { entries };
                None
            },
        }
    }

    /// Whether the map holds every note that one of its notes refers to.
    pub fn is_closed(&self) -> (yes: bool)
        ensures
            yes == closed(self@),
    {
        proof {
            use_type_invariant(self);
            self.lemma_view();
        }
        let mut i: usize = 0;
        while i < self.entries.len()
            invariant
                i <= self.entries.len(),
                self.entries.len() == self.names().len(),
                forall|a: int, to: Seq<char>|
                    0 <= a < i && #[trigger] references_of(self.pages()[a].body).contains(to)
                        ==> self@.contains_key(to),
            decreases self.entries.len() - i,
        {
            let targets = self.entries[i].1.hyperstring.references();
            let ghost listed = references_of(self.pages()[i as int].body);
            let mut k: usize = 0;
            while k < targets.len()
                invariant
                    k <= targets.len(),
                    i < self.entries.len(),
                    listed == references_of(self.pages()[i as int].body),
                    string_views(targets@) == listed,
                    forall|b: int| 0 <= b < k ==> self@.contains_key(#[trigger] listed[b]),
                decreases targets.len() - k,
            {
                assert(targets@[k as int]@ == listed[k as int]);
                if !self.contains_key(targets[k].as_str()) {
                    proof {
                        use_type_invariant(self);
                        self.lemma_view();
                        let from = self.names()[i as int];
                        assert(self@.contains_key(from));
                        assert(self@[from] == self.pages()[i as int]);
                        assert(listed.contains(listed[k as int]));
                        assert(references_of(self@[from].body).contains(listed[k as int]));
                        assert(!self@.contains_key(listed[k as int]));
                    }
                    return false;
                }
                k = k + 1;
            }
            proof {
                assert forall|to: Seq<char>| #[trigger]
                    references_of(self.pages()[i as int].body).contains(
                        to,
                    ) implies self@.contains_key(to) by {
                    let b = listed.index_of(to);
                    assert(listed[b] == to);
                }
            }
            i = i + 1;
        }
        proof {
            assert forall|from: Seq<char>, to: Seq<char>|
                self@.contains_key(from) && #[trigger] references_of(self@[from].body).contains(
                    to,
                ) implies self@.contains_key(to) by {
                assert(self.names().to_set().contains(from));
                let a = self.names().index_of(from);
                assert(self.names()[a] == from);
                assert(self@[from] == self.pages()[a]);
            }
        }
        true
    }
}

} // verus!
