//! Header sets: read from a JSON object of names and text values, and
//! written back as JSON.
use vstd::prelude::*;
use crate::text::{bytes_eq, copy_bytes, lower_seq, option_view, to_lower};

verus! {

/// One member of a JSON object: its key, and its value where that is text.
pub struct JsonEntry {
    pub key: Vec<u8>,
    pub text: Option<Vec<u8>>,
}

/// A JSON document as far as header sets need it.
pub enum JsonDoc {
    /// The text is no JSON.
    Invalid,
    /// The document is no object.
    NotObject,
    /// The members of the object.
    Object(Vec<JsonEntry>),
}

/// One header line.
pub struct Header {
    pub name: Vec<u8>,
    pub value: Vec<u8>,
}

/// Header lines in order; of two lines with one name the later one is the
/// one sent.
pub struct HeaderSet {
    pub lines: Vec<Header>,
}

/// Why a header set could not be read or written.
#[derive(Clone, Copy, Debug, PartialEq, Eq, Structural)]
pub enum HeaderError {
    /// The text is no JSON.
    InvalidJson,
    /// The document is no object.
    NotAnObject,
    /// A key is no header name.
    InvalidName,
    /// A member's value is no text.
    ValueNotText,
    /// A value holds a byte that no header value may hold.
    InvalidValue,
}

/// A member as plain values: its key, and its value where that is text.
pub type EntryView = (Seq<u8>, Option<Seq<u8>>);

/// The members that a JSON text holds: nothing where it is no JSON,
/// nothing inside where it is no object.
pub uninterp spec fn json_members(text: Seq<u8>) -> Option<Option<Seq<(Seq<u8>, Option<Seq<u8>>)>>>;

/// The normal form of a header name, or nothing where the bytes are none.
pub uninterp spec fn header_name_of(name: Seq<u8>) -> Option<Seq<u8>>;

/// The pretty-printed JSON object of a list of names and values.
pub uninterp spec fn json_pretty(lines: Seq<(Seq<u8>, Seq<u8>)>) -> Seq<u8>;

/// A byte that a header value may hold: a tab, or anything from the space
/// up but the delete character.
pub open spec fn value_byte(b: u8) -> bool {
    (b >= 32 && b != 127) || b == 9
}

/// A byte that prints: a tab, or visible ASCII.
pub open spec fn visible_byte(b: u8) -> bool {
    (b >= 32 && b < 127) || b == 9
}

/// Every byte may stand in a header value.
pub open spec fn valid_value(value: Seq<u8>) -> bool {
    forall|i: int| 0 <= i < value.len() ==> value_byte(#[trigger] value[i])
}

/// Every byte prints.
pub open spec fn visible(value: Seq<u8>) -> bool {
    forall|i: int| 0 <= i < value.len() ==> visible_byte(#[trigger] value[i])
}

/// The plain values of a member.
pub open spec fn entry_view(e: JsonEntry) -> EntryView {
    (
        e.key@,
        match e.text {
            Some(t) => Some(t@),
            None => None,
        },
    )
}

/// The plain values of a list of members.
pub open spec fn entry_views(es: Seq<JsonEntry>) -> Seq<EntryView> {
    Seq::new(es.len(), |i: int| entry_view(es[i]))
}

/// The plain values of a document.
pub open spec fn doc_view(d: JsonDoc) -> Option<Option<Seq<EntryView>>> {
    match d {
        JsonDoc::Invalid => None,
        JsonDoc::NotObject => Some(None),
        JsonDoc::Object(es) => Some(Some(entry_views(es@))),
    }
}

/// The bytes of `content-type`.
pub open spec fn content_type_name() -> Seq<u8> {
    seq![99u8, 111, 110, 116, 101, 110, 116, 45, 116, 121, 112, 101]
}

/// Header names are the same when they differ at most in the case of
/// their letters.
pub open spec fn same_name(a: Seq<u8>, b: Seq<u8>) -> bool {
    lower_seq(a) == lower_seq(b)
}

/// The value of the first line at or after position `from` that has the
/// name.
pub open spec fn value_from(lines: Seq<(Seq<u8>, Seq<u8>)>, name: Seq<u8>, from: int) -> Option<
    Seq<u8>,
>
    decreases lines.len() - from,
{
    if from < 0 || from >= lines.len() {
        None
    } else if same_name(lines[from].0, name) {
        Some(lines[from].1)
    } else {
        value_from(lines, name, from + 1)
    }
}

/// The content type that a header set names: the value of its first
/// `content-type` line, or nothing.
pub open spec fn content_type(lines: Seq<(Seq<u8>, Seq<u8>)>) -> Seq<u8> {
    match value_from(lines, content_type_name(), 0) {
        Some(v) => v,
        None => Seq::<u8>::empty(),
    }
}

impl HeaderSet {
    /// The value of the first line with the given name, in any case.
    pub fn get(&self, name: &[u8]) -> (r: Option<Vec<u8>>)
        ensures
            r.is_some() == value_from(self@, name@, 0).is_some(),
            r matches Some(v) ==> value_from(self@, name@, 0) == Some(v@),
    {
        let wanted = to_lower(name);
        let mut i: usize = 0;
        while i < self.lines.len()
            invariant
                i <= self.lines.len(),
                wanted@ == lower_seq(name@),
                value_from(self@, name@, 0) == value_from(self@, name@, i as int),
            decreases self.lines.len() - i,
        {
            let have = to_lower(self.lines[i].name.as_slice());
            if bytes_eq(have.as_slice(), wanted.as_slice()) {
                return Some(copy_bytes(self.lines[i].value.as_slice()));
            }
            i += 1;
        }
        None
    }

    /// The content type that the set names, empty where it names none.
    pub fn content_type(&self) -> (r: Vec<u8>)
        ensures
            r@ == content_type(self@),
    {
        let name: Vec<u8> = vec![99u8, 111, 110, 116, 101, 110, 116, 45, 116, 121, 112, 101];
        proof {
            assert(name@ =~= content_type_name());
        }
        match self.get(name.as_slice()) {
            Some(v) => v,
            None => Vec::new(),
        }
    }

    /// The lines as pairs of name and value.
    pub open spec fn view(&self) -> Seq<(Seq<u8>, Seq<u8>)> {
        Seq::new(self.lines@.len(), |i: int| (self.lines@[i].name@, self.lines@[i].value@))
    }

    /// A set without lines.
    pub fn new() -> (r: HeaderSet)
        ensures
            r@ == Seq::<(Seq<u8>, Seq<u8>)>::empty(),
    {
        let r = HeaderSet { lines: Vec::new() };
        proof {
            assert(r@ =~= Seq::<(Seq<u8>, Seq<u8>)>::empty());
        }
        r
    }
}

/// The header line of a member, given the normal form of its key: an
/// error where the key has none, where the value is no text, or where the
/// value holds a byte that it may not, in this order.
pub open spec fn line_of(name: Option<Seq<u8>>, text: Option<Seq<u8>>) -> Result<
    (Seq<u8>, Seq<u8>),
    HeaderError,
> {
    if name.is_none() {
        Err(HeaderError::InvalidName)
    } else if text.is_none() {
        Err(HeaderError::ValueNotText)
    } else if !valid_value(text.unwrap()) {
        Err(HeaderError::InvalidValue)
    } else {
        Ok((name.unwrap(), text.unwrap()))
    }
}

/// The header line of a member.
pub open spec fn member_line(e: EntryView) -> Result<(Seq<u8>, Seq<u8>), HeaderError> {
    line_of(header_name_of(e.0), e.1)
}

/// The header set of an object's members: the line of each member in
/// order, or the error of the first member that has one.
pub open spec fn lines_of(es: Seq<EntryView>) -> Result<Seq<(Seq<u8>, Seq<u8>)>, HeaderError>
    decreases es.len(),
{
    if es.len() == 0 {
        Ok(Seq::<(Seq<u8>, Seq<u8>)>::empty())
    } else {
        match lines_of(es.drop_last()) {
            Err(e) => Err(e),
            Ok(lines) => match member_line(es.last()) {
                Err(e) => Err(e),
                Ok(line) => Ok(lines.push(line)),
            },
        }
    }
}

/// The header set of a document.
pub open spec fn headers_of(doc: Option<Option<Seq<EntryView>>>) -> Result<
    Seq<(Seq<u8>, Seq<u8>)>,
    HeaderError,
> {
    match doc {
        None => Err(HeaderError::InvalidJson),
        Some(None) => Err(HeaderError::NotAnObject),
        Some(Some(es)) => lines_of(es),
    }
}

/// Whether a result of the library and its model agree.
pub open spec fn agrees(
    r: Result<HeaderSet, HeaderError>,
    m: Result<Seq<(Seq<u8>, Seq<u8>)>, HeaderError>,
) -> bool {
    match (r, m) {
        (Ok(h), Ok(lines)) => h@ == lines,
        (Err(a), Err(b)) => a == b,
        _ => false,
    }
}

/// Calls `serde_json::from_str` for a `serde_json::Value`, then `as_object`
/// on it and `as_str` on each member's value. The contract only gives the
/// outcome its name: nothing is claimed of which texts are JSON.
#[verifier::external_body]
pub(crate) fn parse_json_object(text: &[u8]) -> (r: JsonDoc)
    ensures
        doc_view(r) == json_members(text@),
{
    let Ok(s) = std::str::from_utf8(text) else { return JsonDoc::Invalid };
    let Ok(v) = serde_json::from_str::<serde_json::Value>(s) else { return JsonDoc::Invalid };
    let Some(m) = v.as_object() else { return JsonDoc::NotObject };
    JsonDoc::Object(
        m.iter().map(|(k, v)| JsonEntry {
            key: k.as_bytes().to_vec(),
            text: v.as_str().map(|t| t.as_bytes().to_vec()),
        }).collect(),
    )
}

/// Calls `hyper::header::HeaderName::from_bytes` and reads the name back
/// with `as_str`. The contract only gives the outcome its name: nothing is
/// claimed of which bytes are a header name.
#[verifier::external_body]
pub(crate) fn normal_name(name: &[u8]) -> (r: Option<Vec<u8>>)
    ensures
        r.is_some() == header_name_of(name@).is_some(),
        r matches Some(n) ==> header_name_of(name@) == Some(n@),
{
    hyper::header::HeaderName::from_bytes(name).ok().map(|n| n.as_str().as_bytes().to_vec())
}

/// Calls `hyper::header::HeaderValue::from_bytes`, which accepts the bytes
/// exactly when each is a tab or lies from the space up and is not the
/// delete character.
#[verifier::external_body]
pub(crate) fn value_accepted(value: &[u8]) -> (r: bool)
    ensures
        r == valid_value(value@),
{
    hyper::header::HeaderValue::from_bytes(value).is_ok()
}

/// Calls `serde_json::to_string_pretty` on a `serde_json::Map` that holds
/// each line's value under its name. The contract only gives the text its
/// name.
#[verifier::external_body]
pub(crate) fn pretty_object(set: &HeaderSet) -> (r: Vec<u8>)
    ensures
        r@ == json_pretty(set@),
{
    let mut m = serde_json::Map::new();
    for h in set.lines.iter() {
        let name = String::from_utf8_lossy(&h.name).into_owned();
        m.insert(name, serde_json::Value::from(String::from_utf8_lossy(&h.value).into_owned()));
    }
    serde_json::to_string_pretty(&m).unwrap_or_default().into_bytes()
}

/// Makes the header line of a member from the normal form of its key and
/// its value, or says what is wrong with the member.
pub fn make_line(name: Option<Vec<u8>>, text: &Option<Vec<u8>>) -> (r: Result<Header, HeaderError>)
    ensures
        match r {
            Ok(h) => line_of(option_view(name), option_view(*text)) == Ok::<
                (Seq<u8>, Seq<u8>),
                HeaderError,
            >((h.name@, h.value@)),
            Err(e) => line_of(option_view(name), option_view(*text)) == Err::<
                (Seq<u8>, Seq<u8>),
                HeaderError,
            >(e),
        },
{
    let name = match name {
        Some(n) => n,
        None => {
            return Err(HeaderError::InvalidName);
        },
    };
    let value = match text {
        Some(t) => copy_bytes(t.as_slice()),
        None => {
            return Err(HeaderError::ValueNotText);
        },
    };
    if !value_accepted(value.as_slice()) {
        return Err(HeaderError::InvalidValue);
    }
    Ok(Header { name, value })
}

/// Builds the header set of a document: one line for each member of the
/// object, or the error of the first member that has one.
pub fn build_headers(doc: &JsonDoc) -> (r: Result<HeaderSet, HeaderError>)
    ensures
        agrees(r, headers_of(doc_view(*doc))),
{
    match doc {
        JsonDoc::Invalid => Err(HeaderError::InvalidJson),
        JsonDoc::NotObject => Err(HeaderError::NotAnObject),
        JsonDoc::Object(es) => {
            let mut lines: Vec<Header> = Vec::new();
            let mut i: usize = 0;
            let ghost all = entry_views(es@);
            proof {
                assert(all.subrange(0, 0) =~= Seq::<EntryView>::empty());
                assert((HeaderSet { lines })@ =~= Seq::<(Seq<u8>, Seq<u8>)>::empty());
            }
            while i < es.len()
                invariant
                    i <= es.len(),
                    all == entry_views(es@),
                    doc_view(*doc) == Some(Some(all)),
                    lines_of(all.subrange(0, i as int)) == Ok::<
                        Seq<(Seq<u8>, Seq<u8>)>,
                        HeaderError,
                    >((HeaderSet { lines })@),
                decreases es.len() - i,
            {
                let ghost before = (HeaderSet { lines })@;
                proof {
                    let prefix = all.subrange(0, i + 1);
                    assert(prefix.drop_last() =~= all.subrange(0, i as int));
                    assert(prefix.last() == entry_view(es@[i as int]));
                    assert(all[i as int] == entry_view(es@[i as int]));
                    assert(all[i as int].0 == es@[i as int].key@);
                    assert(all[i as int].1 == option_view(es@[i as int].text));
                    if member_line(all[i as int]).is_err() {
                        lemma_error_stays(all, i + 1);
                    }
                }
                let name = normal_name(es[i].key.as_slice());
                proof {
                    assert(option_view(name) == header_name_of(all[i as int].0));
                }
                match make_line(name, &es[i].text) {
                    Ok(line) => {
                        lines.push(line);
                    },
                    Err(e) => {
                        return Err(e);
                    },
                }
                proof {
                    assert((HeaderSet { lines })@ =~= before.push(
                        member_line(all[i as int])->Ok_0,
                    ));
                }
                i += 1;
            }
            proof {
                assert(all.subrange(0, es@.len() as int) =~= all);
            }
            Ok(HeaderSet { lines })
        },
    }
}

/// Once a prefix of the members has an error, the whole list has it.
pub proof fn lemma_error_stays(es: Seq<EntryView>, n: int)
    requires
        0 <= n <= es.len(),
        lines_of(es.subrange(0, n)).is_err(),
    ensures
        lines_of(es) == lines_of(es.subrange(0, n)),
    decreases es.len() - n,
{
    if n < es.len() {
        let prefix = es.subrange(0, n + 1);
        assert(prefix.drop_last() =~= es.subrange(0, n));
        lemma_error_stays(es, n + 1);
    } else {
        assert(es.subrange(0, n) =~= es);
    }
}

/// Reads a header set from the text of a JSON object whose members are
/// header names with text values.
pub fn read_json_to_header_map(text: &[u8]) -> (r: Result<HeaderSet, HeaderError>)
    ensures
        agrees(r, headers_of(json_members(text@))),
{
    let doc = parse_json_object(text);
    build_headers(&doc)
}

/// Whether every byte of a value prints.
pub fn is_visible(value: &[u8]) -> (r: bool)
    ensures
        r == visible(value@),
{
    let mut i: usize = 0;
    while i < value.len()
        invariant
            i <= value.len(),
            forall|j: int| 0 <= j < i ==> visible_byte(#[trigger] value@[j]),
        decreases value.len() - i,
    {
        let b: u8 = value[i];
        if !((b >= 32 && b < 127) || b == 9) {
            return false;
        }
        i += 1;
    }
    true
}

/// Every value of the set prints.
pub open spec fn all_visible(lines: Seq<(Seq<u8>, Seq<u8>)>) -> bool {
    forall|i: int| 0 <= i < lines.len() ==> visible((#[trigger] lines[i]).1)
}

/// Writes a header set as a pretty-printed JSON object. A set with a value
/// that does not print is refused.
pub fn headermap_to_json(map: &HeaderSet) -> (r: Result<Vec<u8>, HeaderError>)
    ensures
        r.is_ok() == all_visible(map@),
        r matches Ok(text) ==> text@ == json_pretty(map@),
        r matches Err(e) ==> e == HeaderError::InvalidValue,
{
    let mut i: usize = 0;
    while i < map.lines.len()
        invariant
            i <= map.lines.len(),
            forall|j: int| 0 <= j < i ==> visible((#[trigger] map@[j]).1),
        decreases map.lines.len() - i,
    {
        if !is_visible(map.lines[i].value.as_slice()) {
            proof {
                assert(!visible(map@[i as int].1));
            }
            return Err(HeaderError::InvalidValue);
        }
        i += 1;
    }
    Ok(pretty_object(map))
}

} // verus!
