//! The header block of a note, read by the `gray_matter` crate.
//!
//! [`split_front_matter`] and [`value_of`] are taken on trust: the first
//! calls `gray_matter`, the second moves what it hands out into a
//! [`MetadataValue`]. What is made of their results is proved.

use crate::error::{Error, ErrorView};
use crate::metadata::{Metadata, MetadataValue, ValueView};
use crate::parse::{
    parse_hyperstring, reference_captures, segments_of, strip_dataview_block,
    without_attribute_block,
};
use crate::segment::{literal, Hyperstring, SegmentView};
use gray_matter::engine::YAML;
use gray_matter::{Matter, Pod};
use vstd::prelude::*;

verus! {

/// `gray_matter::Pod`: a value of a header, as `gray_matter` hands it out.
#[verifier::external_type_specification]
#[verifier::external_body]
pub struct ExPod(Pod);

/// What a `Pod` holds.
pub uninterp spec fn pod_value(pod: Pod) -> ValueView;

/// What `gray_matter` makes of a text with its YAML engine: the value of
/// the header block, if the text has one, and the text that is left.
pub uninterp spec fn front_matter(text: Seq<char>) -> (Option<ValueView>, Seq<char>);

/// The value of an optional `Pod`.
pub open spec fn optional_pod_value(data: Option<Pod>) -> Option<ValueView> {
    match data {
        Some(pod) => Some(pod_value(pod)),
        None => None,
    }
}

/// The value of an optional header value.
pub open spec fn optional_value(data: Option<MetadataValue>) -> Option<ValueView> {
    match data {
        Some(value) => Some(value@),
        None => None,
    }
}

/// `Matter::<YAML>::parse`: splits a text into the data of its header
/// block and the content behind it. The contract only names the outcome.
#[verifier::external_body]
pub(crate) fn split_front_matter(text: &str) -> (parts: (Option<Pod>, String))
    ensures
        (optional_pod_value(parts.0), parts.1@) == front_matter(text@),
{
    let parsed = Matter::<YAML>::new().parse(text);
    (parsed.data, parsed.content)
}

/// Moves what a `Pod` holds into a [`MetadataValue`], variant by variant;
/// a float goes by `f64::to_bits`. The contract says that the two hold the
/// same value.
#[verifier::external_body]
pub(crate) fn value_of(pod: Pod) -> (value: MetadataValue)
    ensures
        value@ == pod_value(pod),
{
    match pod {
        Pod::Null => MetadataValue::Null,
        Pod::String(text) => MetadataValue::String(text),
        Pod::Integer(number) => MetadataValue::Integer(number),
        Pod::Float(number) => MetadataValue::Float(number.to_bits()),
        Pod::Boolean(flag) => MetadataValue::Boolean(flag),
        Pod::Array(items) => MetadataValue::Array(items.into_iter().map(value_of).collect()),
        Pod::Hash(fields) => MetadataValue::Hash(
            Metadata(fields.into_iter().map(|(key, item)| (key, value_of(item))).collect()),
        ),
    }
}

/// The fields that the data of a header block gives: none without a
/// block, those of a mapping, and a failure for any other value.
pub open spec fn header_of(data: Option<ValueView>) -> Result<Map<Seq<char>, ValueView>, ErrorView> {
    match data {
        None => Ok(Map::empty()),
        Some(ValueView::Mapping(fields)) => Ok(fields),
        Some(_) => Err(ErrorView::MalformedHeader),
    }
}

/// The value of a header or of the failure to read one.
pub open spec fn header_result(outcome: Result<Metadata, Error>) -> Result<
    Map<Seq<char>, ValueView>,
    ErrorView,
> {
    match outcome {
        Ok(fields) => Ok(fields@),
        Err(error) => Err(error@),
    }
}

/// The header that the data of a header block gives: empty without a
/// block, the fields of a mapping, and a failure for any other value.
pub fn header_from(data: Option<MetadataValue>) -> (header: Result<Metadata, Error>)
    ensures
        header_result(header) == header_of(optional_value(data)),
{
    match data {
        None => Ok(Metadata::new()),
        Some(MetadataValue::Hash(fields)) => Ok(fields),
        Some(_) => Err(Error::MalformedHeader),
    }
}

/// Splits a note into its header and the text behind the header block. A
/// note without a block has an empty header. Fails where the block holds
/// something other than a mapping.
pub fn parse_frontmatter(file_content: &str) -> (parts: Result<(Metadata, String), Error>)
    ensures
        match parts {
            Ok((header, content)) => header_of(front_matter(file_content@).0) == Ok::<
                Map<Seq<char>, ValueView>,
                ErrorView,
            >(header@) && content@ == front_matter(file_content@).1,
            Err(error) => header_of(front_matter(file_content@).0) == Err::<
                Map<Seq<char>, ValueView>,
                ErrorView,
            >(error@),
        },
{
    let (data, content) = split_front_matter(file_content);
    let value = match data {
        Some(pod) => Some(value_of(pod)),
        None => None,
    };
    match header_from(value) {
        Ok(header) => Ok((header, content)),
        Err(error) => Err(error),
    }
}

/// The segments of the text behind a header block: the attribute block at
/// its start is dropped, the rest is cut at its references.
pub open spec fn body_of(content: Seq<char>) -> Seq<SegmentView> {
    segments_of(without_attribute_block(content), reference_captures(without_attribute_block(content)))
}

/// Parses one note: a header block, a block of attribute lines and the
/// body, the first two of which may be missing. Fails as
/// [`parse_frontmatter`] does.
pub fn parse_page(input: &str) -> (page: Result<(Metadata, Hyperstring), Error>)
    ensures
        match page {
            Ok((header, body)) => header_of(front_matter(input@).0) == Ok::<
                Map<Seq<char>, ValueView>,
                ErrorView,
            >(header@) && body@ == body_of(front_matter(input@).1) && literal(body@)
                == without_attribute_block(front_matter(input@).1),
            Err(error) => header_of(front_matter(input@).0) == Err::<
                Map<Seq<char>, ValueView>,
                ErrorView,
            >(error@),
        },
{
    match parse_frontmatter(input) {
        Ok((header, content)) => {
            let stripped = strip_dataview_block(content.as_str());
            let body = parse_hyperstring(stripped.as_str());
            Ok((header, body))
        },
        Err(error) => Err(error),
    }
}

} // verus!
