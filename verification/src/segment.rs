//! The segment model of a note body and its literal form.

use vstd::prelude::*;
use vstd::string::*;

verus! {

/// One piece of a note body.
#[derive(PartialEq, Debug)]
pub enum HyperstringSegment {
    /// Literal output.
    Text(String),
    /// A reference written `[[name]]`.
    Link(String),
    /// A reference written `![[name]]`.
    Transclusion(String),
}

/// The mathematical value of a [`HyperstringSegment`].
pub ghost enum SegmentView {
    Text(Seq<char>),
    Link(Seq<char>),
    Transclusion(Seq<char>),
}

impl View for HyperstringSegment {
    type V = SegmentView;

    open spec fn view(&self) -> SegmentView {
        match self {
            HyperstringSegment::Text(text) => SegmentView::Text(text@),
            HyperstringSegment::Link(name) => SegmentView::Link(name@),
            HyperstringSegment::Transclusion(name) => SegmentView::Transclusion(name@),
        }
    }
}

/// An ordered sequence of segments: the body of one note.
#[derive(PartialEq, Debug)]
pub struct Hyperstring(pub Vec<HyperstringSegment>);

impl View for Hyperstring {
    type V = Seq<SegmentView>;

    open spec fn view(&self) -> Seq<SegmentView> {
        self.0@.map_values(|segment: HyperstringSegment| segment@)
    }
}

/// The two characters that open a link.
pub open spec fn open_brackets() -> Seq<char> {
    seq!['[', '[']
}

/// The three characters that open a transclusion.
pub open spec fn open_transclusion() -> Seq<char> {
    seq!['!', '[', '[']
}

/// The two characters that close a reference.
pub open spec fn close_brackets() -> Seq<char> {
    seq![']', ']']
}

/// The literal form of one segment: text as it is, a reference in its
/// bracket syntax.
pub open spec fn segment_literal(segment: SegmentView) -> Seq<char> {
    match segment {
        SegmentView::Text(text) => text,
        SegmentView::Link(name) => open_brackets() + name + close_brackets(),
        SegmentView::Transclusion(name) => open_transclusion() + name + close_brackets(),
    }
}

/// The literal form of a body: the literal forms of its segments, in order.
pub open spec fn literal(segments: Seq<SegmentView>) -> Seq<char>
    decreases segments.len(),
{
    if segments.len() == 0 {
        Seq::empty()
    } else {
        literal(segments.drop_last()) + segment_literal(segments.last())
    }
}

/// The characters of each of `names`.
pub open spec fn string_views(names: Seq<String>) -> Seq<Seq<char>> {
    names.map_values(|name: String| name@)
}

/// The name a segment carries: its text, or the note it refers to.
pub open spec fn payload(segment: SegmentView) -> Seq<char> {
    match segment {
        SegmentView::Text(text) => text,
        SegmentView::Link(name) => name,
        SegmentView::Transclusion(name) => name,
    }
}

/// The segments of the kinds asked for.
pub open spec fn wanted(links: bool, transclusions: bool) -> spec_fn(SegmentView) -> bool {
    |s: SegmentView| (links && s is Link) || (transclusions && s is Transclusion)
}

/// [`payload`] as a function value.
pub open spec fn payload_of() -> spec_fn(SegmentView) -> Seq<char> {
    |s: SegmentView| payload(s)
}

/// The targets of the references of the kinds asked for, in order of
/// appearance, repeats included.
pub open spec fn targets_of(segments: Seq<SegmentView>, links: bool, transclusions: bool) -> Seq<
    Seq<char>,
> {
    segments.filter(wanted(links, transclusions)).map_values(payload_of())
}

/// The targets of all links and transclusions of a body, in order of
/// appearance, repeats included.
pub open spec fn references_of(segments: Seq<SegmentView>) -> Seq<Seq<char>> {
    targets_of(segments, true, true)
}

/// The targets of the transclusions of a body, in order of appearance.
pub open spec fn transclusions_of(segments: Seq<SegmentView>) -> Seq<Seq<char>> {
    targets_of(segments, false, true)
}

/// The targets of the links of a body, in order of appearance.
pub open spec fn links_of(segments: Seq<SegmentView>) -> Seq<Seq<char>> {
    targets_of(segments, true, false)
}

/// Filtering and mapping a sequence extended by one element.
pub proof fn lemma_filter_map_push<A, B>(s: Seq<A>, x: A, keep: spec_fn(A) -> bool, f: spec_fn(A) -> B)
    ensures
        s.push(x).filter(keep).map_values(f) == if keep(x) {
            s.filter(keep).map_values(f).push(f(x))
        } else {
            s.filter(keep).map_values(f)
        },
{
    reveal(Seq::filter);
    assert(s.push(x).drop_last() == s);
    assert(s.filter(keep).push(x).map_values(f) == s.filter(keep).map_values(f).push(f(x)));
}

/// A reference of a kind asked for is among the targets of its body.
pub proof fn lemma_target_listed(
    segments: Seq<SegmentView>,
    i: int,
    links: bool,
    transclusions: bool,
)
    requires
        0 <= i < segments.len(),
        wanted(links, transclusions)(segments[i]),
    ensures
        targets_of(segments, links, transclusions).contains(payload(segments[i])),
    decreases segments.len(),
{
    let front = segments.drop_last();
    let last = segments.last();
    assert(segments == front.push(last));
    lemma_filter_map_push(front, last, wanted(links, transclusions), payload_of());
    let listed = targets_of(front, links, transclusions);
    if i == segments.len() - 1 {
        assert(listed.push(payload(last))[listed.len() as int] == payload(last));
    } else {
        lemma_target_listed(front, i, links, transclusions);
        let k = listed.index_of(payload(segments[i]));
        assert(listed[k] == payload(segments[i]));
        if wanted(links, transclusions)(last) {
            assert(listed.push(payload(last))[k] == payload(segments[i]));
        }
    }
}

/// Each target of a body is the target of one of its references of a kind
/// asked for.
pub proof fn lemma_target_origin(
    segments: Seq<SegmentView>,
    target: Seq<char>,
    links: bool,
    transclusions: bool,
) -> (i: int)
    requires
        targets_of(segments, links, transclusions).contains(target),
    ensures
        0 <= i < segments.len(),
        wanted(links, transclusions)(segments[i]),
        payload(segments[i]) == target,
    decreases segments.len(),
{
    if segments.len() == 0 {
        reveal(Seq::filter);
        assert(segments.filter(wanted(links, transclusions)).len() == 0);
        0
    } else {
        let front = segments.drop_last();
        let last = segments.last();
        assert(segments == front.push(last));
        lemma_filter_map_push(front, last, wanted(links, transclusions), payload_of());
        let listed = targets_of(front, links, transclusions);
        if listed.contains(target) {
            lemma_target_origin(front, target, links, transclusions)
        } else {
            let all = targets_of(segments, links, transclusions);
            let k = all.index_of(target);
            assert(all[k] == target);
            if wanted(links, transclusions)(last) {
                if k < listed.len() {
                    assert(listed[k] == target);
                }
            }
            segments.len() - 1
        }
    }
}

impl HyperstringSegment {
    /// The segment in its literal form.
    pub fn to_string(&self) -> (out: String)
        ensures
            out@ == segment_literal(self@),
    {
        match self {
            HyperstringSegment::Text(text) => text.clone(),
            HyperstringSegment::Link(name) => {
                let mut out = String::from_str("[[");
                out.append(name.as_str());
                out.append("]]");
                proof {
                    reveal_strlit("[[");
                    reveal_strlit("]]");
                    assert("[["@ == open_brackets());
                    assert("]]"@ == close_brackets());
                }
                out
            },
            HyperstringSegment::Transclusion(name) => {
                let mut out = String::from_str("![[");
                out.append(name.as_str());
                out.append("]]");
                proof {
                    reveal_strlit("![[");
                    reveal_strlit("]]");
                    assert("![["@ == open_transclusion());
                    assert("]]"@ == close_brackets());
                }
                out
            },
        }
    }
}

impl Hyperstring {
    /// The body in its literal form.
    pub fn to_string(&self) -> (out: String)
        ensures
            out@ == literal(self@),
    {
        let mut out = String::new();
        let mut i: usize = 0;
        while i < self.0.len()
            invariant
                i <= self.0.len(),
                out@ == literal(self@.take(i as int)),
            decreases self.0.len() - i,
        {
            let piece = self.0[i].to_string();
            out.append(piece.as_str());
            proof {
                assert(self@.take(i + 1).drop_last() == self@.take(i as int));
            }
            i = i + 1;
        }
        proof {
            assert(self@.take(i as int) == self@);
        }
        out
    }

    /// The targets of the references of the kinds asked for, in order of
    /// appearance.
    fn targets(&self, links: bool, transclusions: bool) -> (names: Vec<String>)
        ensures
            string_views(names@) == targets_of(self@, links, transclusions),
    {
        let mut names: Vec<String> = Vec::new();
        let mut i: usize = 0;
        assert(self@.take(0).filter(wanted(links, transclusions)) == Seq::<SegmentView>::empty())
            by {
            reveal(Seq::filter);
        }
        while i < self.0.len()
            invariant
                i <= self.0.len(),
                string_views(names@) == targets_of(self@.take(i as int), links, transclusions),
            decreases self.0.len() - i,
        {
            proof {
                lemma_filter_map_push(
                    self@.take(i as int),
                    self@[i as int],
                    wanted(links, transclusions),
                    payload_of(),
                );
                assert(self@.take(i + 1) == self@.take(i as int).push(self@[i as int]));
            }
            let ghost before = names@;
            match &self.0[i] {
                HyperstringSegment::Link(name) => {
                    if links {
                        names.push(name.clone());
                        assert(string_views(names@) == string_views(before).push(name@));
                    }
                },
                HyperstringSegment::Transclusion(name) => {
                    if transclusions {
                        names.push(name.clone());
                        assert(string_views(names@) == string_views(before).push(name@));
                    }
                },
                HyperstringSegment::Text(_) => {},
            }
            i = i + 1;
        }
        proof {
            assert(self@.take(i as int) == self@);
        }
        names
    }

    /// The targets of all links and transclusions, in order of appearance.
    pub fn references(&self) -> (names: Vec<String>)
        ensures
            string_views(names@) == references_of(self@),
    {
        self.targets(true, true)
    }

    /// The targets of the transclusions, in order of appearance.
    pub fn transclusions(&self) -> (names: Vec<String>)
        ensures
            string_views(names@) == transclusions_of(self@),
    {
        self.targets(false, true)
    }

    /// The targets of the links, in order of appearance.
    pub fn links(&self) -> (names: Vec<String>)
        ensures
            string_views(names@) == links_of(self@),
    {
        self.targets(true, false)
    }
}

impl Clone for HyperstringSegment {
    fn clone(&self) -> (copy: Self)
        ensures
            copy@ == self@,
    {
        match self {
            HyperstringSegment::Text(text) => HyperstringSegment::Text(text.clone()),
            HyperstringSegment::Link(name) => HyperstringSegment::Link(name.clone()),
            HyperstringSegment::Transclusion(name) => HyperstringSegment::Transclusion(
                name.clone(),
            ),
        }
    }
}

impl Clone for Hyperstring {
    fn clone(&self) -> (copy: Self)
        ensures
            copy@ == self@,
    {
        let mut segments: Vec<HyperstringSegment> = Vec::new();
        let mut i: usize = 0;
        while i < self.0.len()
            invariant
                i <= self.0.len(),
                Hyperstring(segments)@ == self@.take(i as int),
            decreases self.0.len() - i,
        {
            let ghost before = Hyperstring(segments)@;
            let piece = self.0[i].clone();
            segments.push(piece);
            assert(Hyperstring(segments)@ =~= before.push(piece@));
            assert(self@.take(i + 1) =~= self@.take(i as int).push(self@[i as int]));
            i = i + 1;
        }
        proof {
            assert(self@.take(i as int) == self@);
        }
        Hyperstring(segments)
    }
}

} // verus!
