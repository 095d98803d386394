use vstd::prelude::*;
use vstd::slice::slice_to_vec;
use vstd::string::StringSliceAdditionalSpecFns;
use vstd::utf8::valid_utf8;
use crate::error::UpgradeError;

verus! {

/// The status code of every response that the parser hands out.
pub const SWITCHING_PROTOCOLS: u16 = 101;

/// The number of header lines that a response may hold.
pub const MAX_HEADERS: usize = 16;

/// The greatest length of a header name.
pub const MAX_NAME_LEN: usize = 65535;

/// `httparse::Error`, the reasons for which the tokenizer gives up. Its
/// variants carry no data and are told apart by name.
#[verifier::external_type_specification]
pub struct ExTokenError(httparse::Error);

/// The error of `HeaderName::from_bytes`; nothing is read from it.
#[verifier::external_type_specification]
#[verifier::external_body]
pub struct ExInvalidHeaderName(hyper::http::header::InvalidHeaderName);

/// The error of `HeaderValue::from_str`; nothing is read from it.
#[verifier::external_type_specification]
#[verifier::external_body]
pub struct ExInvalidHeaderValue(hyper::http::header::InvalidHeaderValue);

/// The error of `core::str::from_utf8`; nothing is read from it.
#[verifier::external_type_specification]
#[verifier::external_body]
pub struct ExUtf8Error(core::str::Utf8Error);

/// One header line: its name and its value, as bytes.
#[derive(Debug, PartialEq, Eq)]
pub struct Header {
    pub name: Vec<u8>,
    pub value: Vec<u8>,
}

impl View for Header {
    type V = (Seq<u8>, Seq<u8>);

    open spec fn view(&self) -> (Seq<u8>, Seq<u8>) {
        (self.name@, self.value@)
    }
}

impl Clone for Header {
    fn clone(&self) -> (copy: Self)
        ensures
            copy@ == self@,
    {
        Header {
            name: slice_to_vec(self.name.as_slice()),
            value: slice_to_vec(self.value.as_slice()),
        }
    }
}

/// The name/value pairs of a sequence of headers, in the same order.
pub open spec fn header_views(headers: Seq<Header>) -> Seq<(Seq<u8>, Seq<u8>)> {
    headers.map_values(|h: Header| h@)
}

/// What the tokenizer made of a header block: `Ok(None)` where the block is
/// not complete, else the number of bytes read and the raw header lines.
pub type Tokens = Result<Option<(usize, Vec<Header>)>, httparse::Error>;

/// The mathematical value of [`Tokens`].
pub type TokensView = Result<Option<(usize, Seq<(Seq<u8>, Seq<u8>)>)>, httparse::Error>;

/// The value of a tokenizer outcome, with each header taken by its view.
pub open spec fn tokens_view(tokens: Tokens) -> TokensView {
    match tokens {
        Ok(Some((consumed, headers))) => Ok(Some((consumed, header_views(headers@)))),
        Ok(None) => Ok(None),
        Err(e) => Err(e),
    }
}

/// What `httparse::parse_headers` answers for the bytes `src` when it is
/// given room for `capacity` headers.
pub uninterp spec fn tokenized(src: Seq<u8>, capacity: nat) -> TokensView;

/// Calls `httparse::parse_headers` with room for `capacity` headers. The
/// answer depends on the bytes and the capacity alone. Where the block is
/// complete, at least the line break that ends it was read, the count of
/// bytes read is an offset into `src`, and no more headers come back than
/// there was room for.
#[verifier::external_body]
pub(crate) fn tokenize(src: &[u8], capacity: usize) -> (tokens: Tokens)
    ensures
        tokens_view(tokens) == tokenized(src@, capacity as nat),
        tokens matches Ok(Some((consumed, headers))) ==> 1 <= consumed <= src@.len()
            && headers@.len() <= capacity,
{
    let mut slots = vec![httparse::EMPTY_HEADER; capacity];
    match httparse::parse_headers(src, &mut slots)? {
        httparse::Status::Complete((consumed, parsed)) => {
            let raw = |h: &httparse::Header| Header {
                name: h.name.as_bytes().to_vec(),
                value: h.value.to_vec(),
            };
            Ok(Some((consumed, parsed.iter().map(raw).collect())))
        },
        httparse::Status::Partial => Ok(None),
    }
}

/// A byte that `HeaderName::from_bytes` accepts in a header name.
pub open spec fn is_name_byte(b: u8) -> bool {
    ||| 33 <= b <= 39
    ||| b == 42
    ||| b == 43
    ||| b == 45
    ||| b == 46
    ||| 48 <= b <= 57
    ||| 65 <= b <= 90
    ||| 94 <= b <= 122
    ||| b == 124
    ||| b == 126
}

/// The byte with an upper-case ASCII letter turned into its lower-case form.
pub open spec fn lowered(b: u8) -> u8 {
    if 65 <= b <= 90 {
        (b + 32) as u8
    } else {
        b
    }
}

/// A header name that is accepted: not empty, not too long, and made of
/// name bytes only.
pub open spec fn valid_name(name: Seq<u8>) -> bool {
    &&& 1 <= name.len() <= MAX_NAME_LEN
    &&& forall|i: int| 0 <= i < name.len() ==> is_name_byte(#[trigger] name[i])
}

/// The name in the form in which a response holds it: in lower case.
pub open spec fn normalized_name(name: Seq<u8>) -> Seq<u8> {
    name.map_values(|b: u8| lowered(b))
}

/// A byte that `HeaderValue::from_str` accepts in a header value.
pub open spec fn is_value_byte(b: u8) -> bool {
    (b >= 32 && b != 127) || b == 9
}

/// A header value that is accepted: made of value bytes only.
pub open spec fn valid_value(value: Seq<u8>) -> bool {
    forall|i: int| 0 <= i < value.len() ==> is_value_byte(#[trigger] value[i])
}

/// Calls `HeaderName::from_bytes` and copies out the bytes of the name it
/// made. The outside function accepts a name of 1 to 65535 bytes, each of
/// which its table of header characters maps to a byte other than zero,
/// and the name it makes is the input with upper-case letters lowered.
#[verifier::external_body]
pub(crate) fn header_name(name: &[u8]) -> (made: Result<
    Vec<u8>,
    hyper::http::header::InvalidHeaderName,
>)
    ensures
        made is Ok <==> valid_name(name@),
        made matches Ok(bytes) ==> bytes@ == normalized_name(name@),
{
    hyper::http::header::HeaderName::from_bytes(name).map(|n| n.as_str().as_bytes().to_vec())
}

/// Calls `HeaderValue::from_str` and copies out the bytes of the value it
/// made. The outside function accepts a string of which every byte is a
/// tab or at least 32 and not 127, and the value it makes holds the
/// string's bytes unchanged.
#[verifier::external_body]
pub(crate) fn header_value(value: &str) -> (made: Result<
    Vec<u8>,
    hyper::http::header::InvalidHeaderValue,
>)
    ensures
        made is Ok <==> valid_value(value.spec_bytes()),
        made matches Ok(bytes) ==> bytes@ == value.spec_bytes(),
{
    hyper::http::header::HeaderValue::from_str(value).map(|v| v.as_bytes().to_vec())
}

/// `core::str::from_utf8` succeeds exactly on valid UTF-8, and the string
/// it hands out has the bytes it was given.
pub assume_specification[ core::str::from_utf8 ](v: &[u8]) -> (text: Result<
    &str,
    core::str::Utf8Error,
>)
    ensures
        text is Ok <==> valid_utf8(v@),
        text matches Ok(s) ==> s.spec_bytes() == v@,
;

/// The structured form of an accepted upgrade response: the status code and
/// the headers in the order in which they arrived. A name may occur more
/// than once.
#[derive(Debug, PartialEq, Eq)]
pub struct UpgradeResponse {
    status: u16,
    headers: Vec<Header>,
}

/// The mathematical value of an [`UpgradeResponse`].
pub struct ResponseView {
    pub status: u16,
    pub headers: Seq<(Seq<u8>, Seq<u8>)>,
}

impl View for UpgradeResponse {
    type V = ResponseView;

    closed spec fn view(&self) -> ResponseView {
        ResponseView { status: self.status, headers: header_views(self.headers@) }
    }
}

impl Clone for UpgradeResponse {
    fn clone(&self) -> (copy: Self)
        ensures
            copy@ == self@,
    {
        proof {
            use_type_invariant(self);
        }
        let mut headers: Vec<Header> = Vec::new();
        let mut i: usize = 0;
        while i < self.headers.len()
            invariant
                i <= self.headers.len(),
                headers@.len() == i,
                forall|j: int| 0 <= j < i ==> (#[trigger] headers@[j])@ == self.headers@[j]@,
            decreases self.headers.len() - i,
        {
            headers.push(self.headers[i].clone());
            i += 1;
        }
        assert(header_views(headers@) =~= header_views(self.headers@));
        UpgradeResponse { status: SWITCHING_PROTOCOLS, headers }
    }
}

impl UpgradeResponse {
    #[verifier::type_invariant]
    closed spec fn switches_protocols(self) -> bool {
        self.status == SWITCHING_PROTOCOLS
    }

    /// The status code of the response, which is always 101.
    pub fn status(&self) -> (code: u16)
        ensures
            code == self@.status,
            code == SWITCHING_PROTOCOLS,
    {
        proof {
            use_type_invariant(self);
        }
        self.status
    }

    /// The headers of the response, in the order in which they arrived.
    pub fn headers(&self) -> (headers: &Vec<Header>)
        ensures
            header_views(headers@) == self@.headers,
    {
        &self.headers
    }
}

/// A raw header line that a response can take up: its name is a valid
/// header name and its value is valid UTF-8 made of value bytes.
pub open spec fn acceptable(raw: (Seq<u8>, Seq<u8>)) -> bool {
    valid_name(raw.0) && valid_utf8(raw.1) && valid_value(raw.1)
}

/// The header that a response holds for an acceptable raw line.
pub open spec fn accepted(raw: (Seq<u8>, Seq<u8>)) -> (Seq<u8>, Seq<u8>) {
    (normalized_name(raw.0), raw.1)
}

/// What a tokenizer outcome amounts to: the count of bytes read and the
/// response, or the reason for which there is none.
pub open spec fn response_of(tokens: TokensView) -> Result<(usize, ResponseView), UpgradeError> {
    match tokens {
        Err(e) => if e == httparse::Error::TooManyHeaders {
            Err(UpgradeError::TooManyHeaders)
        } else {
            Err(UpgradeError::MalformedHeaders)
        },
        Ok(None) => Err(UpgradeError::MalformedHeaders),
        Ok(Some((consumed, raw))) => if forall|i: int|
            0 <= i < raw.len() ==> acceptable(#[trigger] raw[i]) {
            Ok(
                (
                    consumed,
                    ResponseView {
                        status: SWITCHING_PROTOCOLS,
                        headers: raw.map_values(|h: (Seq<u8>, Seq<u8>)| accepted(h)),
                    },
                ),
            )
        } else {
            Err(UpgradeError::MalformedHeaders)
        },
    }
}

/// The view of a parse result, with the response taken by its view.
pub open spec fn parsed_view(parsed: Result<(usize, UpgradeResponse), UpgradeError>) -> Result<
    (usize, ResponseView),
    UpgradeError,
> {
    match parsed {
        Ok((consumed, response)) => Ok((consumed, response@)),
        Err(e) => Err(e),
    }
}

/// Builds the response from what the tokenizer made of a header block.
/// Every header name is normalized and every value checked; the status code
/// is always 101.
#[verifier::loop_isolation(false)]
pub fn response_from_tokens(tokens: Tokens) -> (parsed: Result<
    (usize, UpgradeResponse),
    UpgradeError,
>)
    ensures
        parsed_view(parsed) == response_of(tokens_view(tokens)),
{
    match tokens {
        Err(httparse::Error::TooManyHeaders) => Err(UpgradeError::TooManyHeaders),
        Err(_) => Err(UpgradeError::MalformedHeaders),
        Ok(None) => Err(UpgradeError::MalformedHeaders),
        Ok(Some((consumed, raw))) => {
            let ghost raw_views = header_views(raw@);
            let mut headers: Vec<Header> = Vec::new();
            let mut i: usize = 0;
            while i < raw.len()
                invariant
                    i <= raw.len(),
                    raw_views == header_views(raw@),
                    headers@.len() == i,
                    forall|j: int| 0 <= j < i ==> acceptable(#[trigger] raw_views[j]),
                    forall|j: int|
                        0 <= j < i ==> (#[trigger] headers@[j])@ == accepted(raw_views[j]),
                decreases raw.len() - i,
            {
                assert(raw_views[i as int] == raw@[i as int]@);
                let name = match header_name(raw[i].name.as_slice()) {
                    Ok(name) => name,
                    Err(_) => {
                        assert(!acceptable(raw_views[i as int]));
                        return Err(UpgradeError::MalformedHeaders);
                    },
                };
                let text = match core::str::from_utf8(raw[i].value.as_slice()) {
                    Ok(text) => text,
                    Err(_) => {
                        assert(!acceptable(raw_views[i as int]));
                        return Err(UpgradeError::MalformedHeaders);
                    },
                };
                let value = match header_value(text) {
                    Ok(value) => value,
                    Err(_) => {
                        assert(!acceptable(raw_views[i as int]));
                        return Err(UpgradeError::MalformedHeaders);
                    },
                };
                headers.push(Header { name, value });
                i += 1;
            }
            let response = UpgradeResponse { status: SWITCHING_PROTOCOLS, headers };
            assert(response@.headers =~= raw_views.map_values(
                |h: (Seq<u8>, Seq<u8>)| accepted(h),
            ));
            Ok((consumed, response))
        },
    }
}

/// Reads a buffer that holds a complete header block: the number of bytes
/// that the block takes up, and the response it describes.
pub fn parse_response(header_bytes: &[u8]) -> (parsed: Result<
    (usize, UpgradeResponse),
    UpgradeError,
>)
    ensures
        parsed_view(parsed) == response_of(tokenized(header_bytes@, MAX_HEADERS as nat)),
        parsed matches Ok((consumed, response)) ==> 1 <= consumed <= header_bytes@.len()
            && response@.headers.len() <= MAX_HEADERS,
{
    let tokens = tokenize(header_bytes, MAX_HEADERS);
    response_from_tokens(tokens)
}

} // verus!
