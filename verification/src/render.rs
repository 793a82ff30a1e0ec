//! From segments to plain text.

use crate::error::{text_result, Error, ErrorView};
use crate::metadata::{title_key, title_of, MetadataValue, Title};
use crate::page::{PageMap, Pages};
use crate::segment::{
    lemma_target_listed, lemma_target_origin, transclusions_of, Hyperstring, HyperstringSegment,
    SegmentView,
};
use crate::transclusion::{
    is_chain, lemma_chain_without_repeats, lemma_distinct_notes_bound, transcludes,
    transclusion_acyclic, transclusion_closed,
};
use vstd::prelude::*;
use vstd::string::*;

verus! {

/// The text that stands for a link to `name`: the title of the note, where
/// the map holds it and its header gives one; else the name itself. A title
/// that is not text is a failure.
pub open spec fn link_text(pages: Pages, name: Seq<char>) -> Result<Seq<char>, ErrorView> {
    if pages.contains_key(name) {
        match title_of(pages[name].metadata) {
            Title::Text(title) => Ok(title),
            Title::Malformed => Err(ErrorView::MalformedTitle(name)),
            Title::Absent => Ok(name),
        }
    } else {
        Ok(name)
    }
}

/// The plain text of `body`, transclusions followed through at most
/// `depth` notes: text as it is, a link as [`link_text`], a transclusion as
/// the plain text of the note it names. The first failure, left to right,
/// is the failure of the whole. A transclusion that leads out of the map or
/// beyond `depth` adds nothing.
pub open spec fn rendered(pages: Pages, body: Seq<SegmentView>, depth: nat) -> Result<
    Seq<char>,
    ErrorView,
>
    decreases depth, body.len(),
{
    if body.len() == 0 {
        Ok(Seq::empty())
    } else {
        match rendered(pages, body.drop_last(), depth) {
            Err(error) => Err(error),
            Ok(head) => {
                let piece = match body.last() {
                    SegmentView::Text(text) => Ok(text),
                    SegmentView::Link(name) => link_text(pages, name),
                    SegmentView::Transclusion(name) => if depth > 0 && pages.contains_key(name) {
                        rendered(pages, pages[name].body, (depth - 1) as nat)
                    } else {
                        Ok(Seq::empty())
                    },
                };
                match piece {
                    Ok(text) => Ok(head + text),
                    Err(error) => Err(error),
                }
            },
        }
    }
}

/// The plain text of `body` over the notes of `pages`. In a map without
/// transclusion cycles no chain of transclusions is longer than the map,
/// so every transclusion is followed to its end.
pub open spec fn plaintext(pages: Pages, body: Seq<SegmentView>) -> Result<Seq<char>, ErrorView> {
    rendered(pages, body, pages.dom().len())
}

/// Whether every note that `body` transcludes is in the map.
pub open spec fn transclusions_held(pages: Pages, body: Seq<SegmentView>) -> bool {
    forall|target: Seq<char>| #[trigger]
        transclusions_of(body).contains(target) ==> pages.contains_key(target)
}

/// The separator between the notes of the output: an empty line.
pub open spec fn separator() -> Seq<char> {
    seq!['\n', '\n']
}

/// The plain texts of `bodies`, in their order, with an empty line between
/// each two. The first failure is the failure of the whole.
pub open spec fn joined(pages: Pages, bodies: Seq<Seq<SegmentView>>) -> Result<
    Seq<char>,
    ErrorView,
>
    decreases bodies.len(),
{
    if bodies.len() == 0 {
        Ok(Seq::empty())
    } else {
        match joined(pages, bodies.drop_last()) {
            Err(error) => Err(error),
            Ok(head) => match plaintext(pages, bodies.last()) {
                Err(error) => Err(error),
                Ok(text) => if bodies.len() == 1 {
                    Ok(text)
                } else {
                    Ok(head + separator() + text)
                },
            },
        }
    }
}

/// The values of a list of bodies.
pub open spec fn body_views(bodies: Seq<Hyperstring>) -> Seq<Seq<SegmentView>> {
    bodies.map_values(|body: Hyperstring| body@)
}

/// A failure in the first `upto` segments is the failure of the whole body.
proof fn lemma_failure_stays(pages: Pages, body: Seq<SegmentView>, upto: int, depth: nat)
    requires
        0 <= upto <= body.len(),
        rendered(pages, body.take(upto), depth) is Err,
    ensures
        rendered(pages, body, depth) == rendered(pages, body.take(upto), depth),
    decreases body.len() - upto,
{
    if upto == body.len() {
        assert(body.take(upto) == body);
    } else {
        assert(body.drop_last().take(upto) == body.take(upto));
        lemma_failure_stays(pages, body.drop_last(), upto, depth);
    }
}

/// A failure among the first `upto` bodies is the failure of the whole.
proof fn lemma_joined_failure_stays(pages: Pages, bodies: Seq<Seq<SegmentView>>, upto: int)
    requires
        0 <= upto <= bodies.len(),
        joined(pages, bodies.take(upto)) is Err,
    ensures
        joined(pages, bodies) == joined(pages, bodies.take(upto)),
    decreases bodies.len() - upto,
{
    if upto == bodies.len() {
        assert(bodies.take(upto) == bodies);
    } else {
        assert(bodies.drop_last().take(upto) == bodies.take(upto));
        lemma_joined_failure_stays(pages, bodies.drop_last(), upto);
    }
}

/// The targets of the transclusions of a body without its last segment are
/// targets of the body.
proof fn lemma_front_targets(body: Seq<SegmentView>, target: Seq<char>)
    requires
        body.len() > 0,
        transclusions_of(body.drop_last()).contains(target),
    ensures
        transclusions_of(body).contains(target),
{
    let i = lemma_target_origin(body.drop_last(), target, false, true);
    assert(body[i] == body.drop_last()[i]);
    lemma_target_listed(body, i, false, true);
}

/// Whether `chain` is a chain of transclusions through notes of the map
/// that has led to `body`: its last note transcludes what `body`
/// transcludes, and the map holds all of that.
pub open spec fn leads_to(pages: Pages, chain: Seq<Seq<char>>, body: Seq<SegmentView>) -> bool {
    &&& is_chain(pages, chain)
    &&& forall|i: int| 0 <= i < chain.len() ==> pages.contains_key(#[trigger] chain[i])
    &&& transclusions_held(pages, body)
    &&& chain.len() > 0 ==> forall|target: Seq<char>| #[trigger]
        transclusions_of(body).contains(target) ==> transcludes(pages, chain.last(), target)
}

/// A chain that has led to a body leads on to the body of each note that
/// the body transcludes, and is then still no longer than the map.
pub proof fn lemma_chain_leads_on(
    pages: Pages,
    chain: Seq<Seq<char>>,
    body: Seq<SegmentView>,
    name: Seq<char>,
)
    requires
        transclusion_acyclic(pages),
        transclusion_closed(pages),
        pages.dom().finite(),
        leads_to(pages, chain, body),
        transclusions_of(body).contains(name),
    ensures
        pages.contains_key(name),
        leads_to(pages, chain.push(name), pages[name].body),
        chain.len() < pages.dom().len(),
{
    let longer = chain.push(name);
    assert forall|k: int| 0 <= k < longer.len() - 1 implies transcludes(
        pages,
        #[trigger] longer[k],
        longer[k + 1],
    ) by {
        if k < chain.len() - 1 {
            assert(transcludes(pages, chain[k], chain[k + 1]));
        }
    }
    assert forall|target: Seq<char>| #[trigger]
        transclusions_of(pages[name].body).contains(target) implies transcludes(
        pages,
        longer.last(),
        target,
    ) && pages.contains_key(target) by {
        assert(transcludes(pages, name, target));
    }
    lemma_chain_without_repeats(pages, longer);
    lemma_distinct_notes_bound(pages, longer);
}

/// In a map without transclusion cycles that holds every note that is
/// transcluded, a depth that covers what is left of the map is never used
/// up: more depth gives the same text. `chain` is the chain of
/// transclusions that has led to `body`.
pub proof fn lemma_depth_suffices(
    pages: Pages,
    body: Seq<SegmentView>,
    chain: Seq<Seq<char>>,
    depth: nat,
    more: nat,
)
    requires
        transclusion_acyclic(pages),
        transclusion_closed(pages),
        pages.dom().finite(),
        leads_to(pages, chain, body),
        chain.len() + depth >= pages.dom().len(),
        depth <= more,
    ensures
        rendered(pages, body, depth) == rendered(pages, body, more),
    decreases depth, body.len(),
{
    if body.len() > 0 {
        let front = body.drop_last();
        assert forall|target: Seq<char>| #[trigger]
            transclusions_of(front).contains(target) implies pages.contains_key(target) && (
        chain.len() > 0 ==> transcludes(pages, chain.last(), target)) by {
            lemma_front_targets(body, target);
        }
        lemma_depth_suffices(pages, front, chain, depth, more);
        if let SegmentView::Transclusion(name) = body.last() {
            lemma_target_listed(body, body.len() - 1, false, true);
            lemma_chain_leads_on(pages, chain, body, name);
            lemma_depth_suffices(
                pages,
                pages[name].body,
                chain.push(name),
                (depth - 1) as nat,
                (more - 1) as nat,
            );
        }
    }
}

/// The plain text of one segment over the notes of `pages`: text as it is,
/// a link as [`link_text`], a transclusion as the plain text of the body of
/// the note it names.
pub open spec fn segment_plaintext(pages: Pages, segment: SegmentView) -> Result<
    Seq<char>,
    ErrorView,
> {
    match segment {
        SegmentView::Text(text) => Ok(text),
        SegmentView::Link(name) => link_text(pages, name),
        SegmentView::Transclusion(name) => plaintext(pages, pages[name].body),
    }
}

/// The plain text of a body is the plain text of its segments, one after
/// the other, and the first failure among them: what holds of
/// [`plaintext`] where the map is free of transclusion cycles and holds
/// every note that is transcluded.
pub proof fn lemma_plaintext_unfolds(pages: Pages, body: Seq<SegmentView>)
    requires
        transclusion_acyclic(pages),
        transclusion_closed(pages),
        transclusions_held(pages, body),
        pages.dom().finite(),
        body.len() > 0,
    ensures
        plaintext(pages, body) == match plaintext(pages, body.drop_last()) {
            Err(error) => Err::<Seq<char>, ErrorView>(error),
            Ok(head) => match segment_plaintext(pages, body.last()) {
                Ok(text) => Ok(head + text),
                Err(error) => Err(error),
            },
        },
{
    let depth = pages.dom().len();
    if let SegmentView::Transclusion(name) = body.last() {
        lemma_target_listed(body, body.len() - 1, false, true);
        let start = Seq::<Seq<char>>::empty();
        lemma_chain_leads_on(pages, start, body, name);
        lemma_depth_suffices(pages, pages[name].body, start.push(name), (depth - 1) as nat, depth);
    }
}

/// A transclusion renders as the body of the note it names renders: what
/// holds where the map is free of transclusion cycles and holds every note
/// that is transcluded.
pub proof fn lemma_transclusion_renders_target(pages: Pages, name: Seq<char>)
    requires
        transclusion_acyclic(pages),
        transclusion_closed(pages),
        transclusions_held(pages, seq![SegmentView::Transclusion(name)]),
        pages.dom().finite(),
    ensures
        plaintext(pages, seq![SegmentView::Transclusion(name)]) == plaintext(
            pages,
            pages[name].body,
        ),
{
    let body = seq![SegmentView::Transclusion(name)];
    lemma_plaintext_unfolds(pages, body);
    assert(body.drop_last() == Seq::<SegmentView>::empty());
    assert(body.last() == SegmentView::Transclusion(name));
    match plaintext(pages, pages[name].body) {
        Ok(text) => {
            assert(Seq::<char>::empty() + text == text);
        },
        Err(_) => {},
    }
}

/// The text that stands for a link to `base_name`: the title of that note,
/// or the name where the map has no such note or the note has no title.
/// Fails where the `title` field holds something other than text.
pub fn link_title_or_name(page_map: &PageMap, base_name: &str) -> (text: Result<String, Error>)
    ensures
        text_result(text) == link_text(page_map@, base_name@),
{
    match page_map.get(base_name) {
        Some(page) => {
            assert("title"@ == title_key());
            match page.metadata.get("title") {
                Some(MetadataValue::String(title)) => Ok(title.clone()),
                Some(_) => Err(Error::MalformedTitle(base_name.to_string())),
                None => Ok(base_name.to_string()),
            }
        },
        None => Ok(base_name.to_string()),
    }
}

/// Renders `body`, which `chain` has led to, with `depth` notes left to
/// descend through.
fn render(body: &Hyperstring, page_map: &PageMap, depth: usize, Ghost(chain): Ghost<
    Seq<Seq<char>>,
>) -> (text: Result<String, Error>)
    requires
        transclusion_acyclic(page_map@),
        transclusion_closed(page_map@),
        page_map@.dom().finite(),
        leads_to(page_map@, chain, body@),
        chain.len() + depth == page_map@.dom().len(),
    ensures
        text_result(text) == rendered(page_map@, body@, depth as nat),
    decreases depth,
{
    let ghost pages = page_map@;
    let mut out = String::new();
    let mut i: usize = 0;
    while i < body.0.len()
        invariant
            i <= body.0.len(),
            pages == page_map@,
            transclusion_acyclic(pages),
            transclusion_closed(pages),
            pages.dom().finite(),
            leads_to(pages, chain, body@),
            chain.len() + depth == pages.dom().len(),
            rendered(pages, body@.take(i as int), depth as nat) == Ok::<Seq<char>, ErrorView>(
                out@,
            ),
        decreases body.0.len() - i,
    {
        proof {
            assert(body@.take(i + 1).drop_last() == body@.take(i as int));
            assert(body@.take(i + 1).last() == body@[i as int]);
        }
        let piece = match &body.0[i] {
            HyperstringSegment::Text(text) => Ok(text.clone()),
            HyperstringSegment::Link(name) => link_title_or_name(page_map, name.as_str()),
            HyperstringSegment::Transclusion(name) => {
                proof {
                    lemma_target_listed(body@, i as int, false, true);
                    lemma_chain_leads_on(pages, chain, body@, name@);
                }
                let page = page_map.get(name.as_str()).unwrap();
                render(&page.hyperstring, page_map, depth - 1, Ghost(chain.push(name@)))
            },
        };
        match piece {
            Ok(text) => {
                out.append(text.as_str());
            },
            Err(error) => {
                proof {
                    lemma_failure_stays(pages, body@, i + 1, depth as nat);
                }
                return Err(error);
            },
        }
        i = i + 1;
    }
    proof {
        assert(body@.take(i as int) == body@);
    }
    Ok(out)
}

impl Hyperstring {
    /// The plain text of this body over the notes of `page_map`: text as
    /// it is, each link as the title or name of its target, each
    /// transclusion as the plain text of its target. The map must be free
    /// of transclusion cycles and hold every note that is transcluded.
    pub fn to_plaintext(&self, page_map: &PageMap) -> (text: Result<String, Error>)
        requires
            transclusion_acyclic(page_map@),
            transclusion_closed(page_map@),
            transclusions_held(page_map@, self@),
        ensures
            text_result(text) == plaintext(page_map@, self@),
    {
        proof {
            use_type_invariant(page_map);
            page_map.lemma_view();
        }
        render(self, page_map, page_map.len(), Ghost(Seq::empty()))
    }
}

/// The output for `hyperstrings`: their plain texts in the order given,
/// with an empty line between each two. The map must be free of
/// transclusion cycles and hold every note that is transcluded.
pub fn hyperstrings_to_string(page_map: PageMap, hyperstrings: Vec<Hyperstring>) -> (text: Result<
    String,
    Error,
>)
    requires
        transclusion_acyclic(page_map@),
        transclusion_closed(page_map@),
        forall|i: int|
            0 <= i < hyperstrings.len() ==> transclusions_held(
                page_map@,
                #[trigger] hyperstrings[i]@,
            ),
    ensures
        text_result(text) == joined(page_map@, body_views(hyperstrings@)),
{
    join_plaintexts(&page_map, &hyperstrings)
}

/// [`hyperstrings_to_string`] over borrowed notes and bodies.
pub fn join_plaintexts(page_map: &PageMap, hyperstrings: &Vec<Hyperstring>) -> (text: Result<
    String,
    Error,
>)
    requires
        transclusion_acyclic(page_map@),
        transclusion_closed(page_map@),
        forall|i: int|
            0 <= i < hyperstrings.len() ==> transclusions_held(
                page_map@,
                #[trigger] hyperstrings[i]@,
            ),
    ensures
        text_result(text) == joined(page_map@, body_views(hyperstrings@)),
{
    let ghost pages = page_map@;
    let ghost bodies = body_views(hyperstrings@);
    let mut out = String::new();
    let mut done: usize = 0;
    while done < hyperstrings.len()
        invariant
            done <= hyperstrings.len(),
            pages == page_map@,
            bodies == body_views(hyperstrings@),
            transclusion_acyclic(pages),
            transclusion_closed(pages),
            forall|i: int|
                0 <= i < hyperstrings.len() ==> transclusions_held(
                    pages,
                    #[trigger] hyperstrings[i]@,
                ),
            joined(pages, bodies.take(done as int)) == Ok::<Seq<char>, ErrorView>(out@),
        decreases hyperstrings.len() - done,
    {
        let body = &hyperstrings[done];
        proof {
            assert(bodies.take(done + 1).drop_last() == bodies.take(done as int));
            assert(bodies.take(done + 1).last() == body@);
        }
        match body.to_plaintext(page_map) {
            Ok(text) => {
                if done > 0 {
                    proof {
                        reveal_strlit("\n\n");
                        assert("\n\n"@ == separator());
                    }
                    out.append("\n\n");
                }
                out.append(text.as_str());
            },
            Err(error) => {
                proof {
                    lemma_joined_failure_stays(pages, bodies, done + 1);
                }
                return Err(error);
            },
        }
        done = done + 1;
    }
    proof {
        assert(bodies.take(done as int) == bodies);
    }
    Ok(out)
}

} // verus!
