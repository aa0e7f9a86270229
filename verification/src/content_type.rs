//! What a request's `Content-Type` header says of its body.

use vstd::prelude::*;
use vstd::string::is_ascii;
use crate::multipart::Multipart;
use crate::multipart::delimiter;
use crate::multipart::same_bytes;
use crate::scanner::BUF_SIZE;
use crate::source::ByteSource;

verus! {

/// The essence of a media type, as the `mime` crate reads it from a header
/// value: its type, a slash and its subtype, without parameters. `None`
/// where the value is no media type.
pub uninterp spec fn mime_essence(content_type: Seq<char>) -> Option<Seq<u8>>;

/// The value of the parameter `boundary` of a media type, as the `mime`
/// crate reads it from a header value. `None` where the value is no media
/// type or has no such parameter.
pub uninterp spec fn mime_boundary(content_type: Seq<char>) -> Option<Seq<u8>>;

/// The essence of form data, `multipart/form-data`.
pub open spec fn form_data_essence() -> Seq<u8> {
    seq![
        109u8, 117u8, 108u8, 116u8, 105u8, 112u8, 97u8, 114u8, 116u8, 47u8, 102u8, 111u8, 114u8,
        109u8, 45u8, 100u8, 97u8, 116u8, 97u8,
    ]
}

/// Parses `content_type` with `mime::Mime`'s `FromStr` and returns the
/// bytes of `Mime::essence_str`. The contract only names the result: it
/// is the same for the same header value. Only ASCII is handed to the
/// parser.
#[verifier::external_body]
fn essence_of(content_type: &str) -> (r: Option<Vec<u8>>)
    requires
        is_ascii(content_type),
    ensures
        match r {
            Some(e) => mime_essence(content_type@) == Some(e@),
            None => mime_essence(content_type@) is None,
        },
{
    match content_type.parse::<mime::Mime>() {
        Ok(m) => Some(m.essence_str().as_bytes().to_vec()),
        Err(_) => None,
    }
}

/// Parses `content_type` with `mime::Mime`'s `FromStr` and returns the
/// bytes of what `Mime::get_param` finds for `mime::BOUNDARY`. The
/// contract only names the result: it is the same for the same header
/// value. Only ASCII is handed to the parser.
#[verifier::external_body]
fn boundary_param(content_type: &str) -> (r: Option<Vec<u8>>)
    requires
        is_ascii(content_type),
    ensures
        match r {
            Some(b) => mime_boundary(content_type@) == Some(b@),
            None => mime_boundary(content_type@) is None,
        },
{
    match content_type.parse::<mime::Mime>() {
        Ok(m) => match m.get_param(mime::BOUNDARY) {
            Some(name) => Some(name.as_str().as_bytes().to_vec()),
            None => None,
        },
        Err(_) => None,
    }
}

/// Whether a request with this method and this media type essence carries
/// form data: a POST request of the type `multipart/form-data`.
pub open spec fn carries_form_data(is_post: bool, essence: Option<Seq<u8>>) -> bool {
    is_post && essence == Some(form_data_essence())
}

/// Decides from the method and the essence of the media type whether a
/// request carries form data.
pub fn accepts_essence(is_post: bool, essence: &Option<Vec<u8>>) -> (r: bool)
    ensures
        r == carries_form_data(
            is_post,
            match *essence {
                Some(e) => Some(e@),
                None => None,
            },
        ),
{
    if !is_post {
        return false;
    }
    match essence {
        Some(e) => {
            let wanted: Vec<u8> = vec![
                109u8, 117u8, 108u8, 116u8, 105u8, 112u8, 97u8, 114u8, 116u8, 47u8, 102u8, 111u8,
                114u8, 109u8, 45u8, 100u8, 97u8, 116u8, 97u8,
            ];
            proof {
                assert(wanted@ =~= form_data_essence());
            }
            same_bytes(e, &wanted)
        },
        None => false,
    }
}

/// Whether a request is a POST request of the content type
/// `multipart/form-data`. A request without a content type is not, nor
/// one whose content type holds anything but ASCII.
pub fn is_multipart_formdata(is_post: bool, content_type: Option<&str>) -> (r: bool)
    ensures
        r == match content_type {
            Some(ct) => is_ascii(ct) && carries_form_data(is_post, mime_essence(ct@)),
            None => false,
        },
{
    match content_type {
        Some(ct) => {
            if !ct.is_ascii() {
                return false;
            }
            let essence: Option<Vec<u8>> = essence_of(ct);
            accepts_essence(is_post, &essence)
        },
        None => false,
    }
}

/// The boundary token that a content type declares; none where the
/// content type holds anything but ASCII.
pub fn get_boundary(content_type: &str) -> (r: Option<Vec<u8>>)
    ensures
        match r {
            Some(b) => is_ascii(content_type) && mime_boundary(content_type@) == Some(b@),
            None => !is_ascii(content_type) || mime_boundary(content_type@) is None,
        },
{
    if !content_type.is_ascii() {
        return None;
    }
    boundary_param(content_type)
}

/// Whether a request can be decoded: it carries form data, and declares a
/// boundary token that fits the buffer.
pub open spec fn decodable(is_post: bool, content_type: Option<&str>) -> bool {
    match content_type {
        Some(ct) => {
            &&& is_ascii(ct)
            &&& carries_form_data(is_post, mime_essence(ct@))
            &&& mime_boundary(ct@) matches Some(token)
            &&& token.len() + 4 <= BUF_SIZE
        },
        None => false,
    }
}

impl<S: ByteSource> Multipart<S> {
    /// A decoder for the body of a request, where the request is a POST
    /// request of the content type `multipart/form-data` with a boundary;
    /// for any other request, the body's source comes back.
    pub fn from_request(reader: S, is_post: bool, content_type: Option<&str>) -> (r: Result<
        Multipart<S>,
        S,
    >)
        ensures
            match r {
                Ok(m) => {
                    &&& decodable(is_post, content_type)
                    &&& m.wf()
                    &&& m.boundary() == delimiter(mime_boundary(content_type.unwrap()@).unwrap())
                    &&& m.pending() == reader.remaining()
                    &&& m.reader() == reader
                },
                Err(back) => back == reader && !decodable(is_post, content_type),
            },
    {
        if !is_multipart_formdata(is_post, content_type) {
            return Err(reader);
        }
        match content_type {
            Some(ct) => match get_boundary(ct) {
                Some(token) => {
                    if token.len() > BUF_SIZE - 4 {
                        return Err(reader);
                    }
                    Ok(Multipart::new(reader, &token))
                },
                None => Err(reader),
            },
            None => Err(reader),
        }
    }
}

} // verus!
