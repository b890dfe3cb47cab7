//! Extraction of per-record numeric lengths from a large markup document.
//!
//! A single forward pass over an XML byte stream (optionally gzip-compressed)
//! locates every `link` element, takes its identifier (the first attribute)
//! and its `length` attribute (found anywhere in the attribute list), decodes
//! the length text into a decimal value, and fills two parallel structures: a
//! value array indexed by parse order and a bidirectional key <-> position
//! index. No document tree is built; memory follows the number of accepted
//! records.

use vstd::prelude::*;

pub mod decode;
pub mod events;
pub mod index;
pub mod reader;

pub use decode::LinkValue;
pub use index::Indexer;

use decode::{is_utf8, spec_decoded, utf8_ok, valid_number};
use events::{is_terminal, next_event, source_bytes, source_read, start_attributes, start_name,
    stream_wf, xml_events, EventSource, XmlEvent, XmlItem};
use reader::acquired_bytes;

verus! {

/// An error that can occur when parsing. Every error aborts the whole
/// extraction: there is no partial result.
#[derive(Clone, Copy, Debug, PartialEq, Eq, Structural)]
pub enum LinkParserError {
    /// The input could not be decompressed.
    Acquisition,
    /// The tokenizer reported malformed markup or a corrupt attribute list.
    StructuralParse,
    /// A `link` element has no attributes, so no identifier.
    MissingIdentifier,
    /// A `link` element has no `length` attribute.
    MissingValue,
    /// An attribute's bytes are not valid UTF-8 text.
    InvalidEncoding,
    /// A `length` attribute's text is not a decimal number.
    InvalidNumber,
}

/// A record key: the identifier attribute's text.
pub type Key = String;

/// The value array: one decoded length per accepted record, in parse order.
pub type LinkLengths = Vec<LinkValue>;

/// The characters that an attribute's bytes decode to, named for what
/// `str::from_utf8` yields; the extractor checks UTF-8 validity itself before
/// asking for the characters.
pub uninterp spec fn utf8_chars_of(bytes: Seq<u8>) -> Seq<char>;

/// Relies on `str::from_utf8` (and `to_owned`): on valid UTF-8 input it
/// succeeds, and the string's characters are a function of the bytes alone.
#[verifier::external_body]
fn bytes_to_key(b: &[u8]) -> (r: String)
    requires
        is_utf8(b@),
    ensures
        r@ == utf8_chars_of(b@),
{
    match std::str::from_utf8(b) {
        Ok(s) => s.to_owned(),
        Err(_) => String::new(),
    }
}

/// The target tag name, `link`.
pub open spec fn link_tag() -> Seq<u8> {
    seq![108u8, 105u8, 110u8, 107u8]
}

/// The value attribute's name, `length`.
pub open spec fn length_key() -> Seq<u8> {
    seq![108u8, 101u8, 110u8, 103u8, 116u8, 104u8]
}

fn is_link_tag(name: &Vec<u8>) -> (r: bool)
    ensures
        r == (name@ == link_tag()),
{
    let r = name.len() == 4 && name[0] == 108 && name[1] == 105 && name[2] == 110 && name[3]
        == 107;
    proof {
        if r {
            assert(name@ =~= link_tag());
        }
    }
    r
}

fn is_length_key(name: &Vec<u8>) -> (r: bool)
    ensures
        r == (name@ == length_key()),
{
    let r = name.len() == 6 && name[0] == 108 && name[1] == 101 && name[2] == 110 && name[3]
        == 103 && name[4] == 116 && name[5] == 104;
    proof {
        if r {
            assert(name@ =~= length_key());
        }
    }
    r
}

/// The value attribute's raw bytes: those of the first attribute named
/// `length`, wherever it stands in the list.
pub open spec fn find_value_attr(l: Seq<(Seq<u8>, Seq<u8>)>) -> Option<Seq<u8>>
    decreases l.len(),
{
    if l.len() == 0 {
        None
    } else if l[0].0 == length_key() {
        Some(l[0].1)
    } else {
        find_value_attr(l.drop_first())
    }
}

/// What one `link` element contributes: its identifier's characters and its
/// decoded length, or the error naming the contract its attributes violate.
pub open spec fn element_record(attrs: Option<Seq<(Seq<u8>, Seq<u8>)>>) -> Result<
    (Seq<char>, LinkValue),
    LinkParserError,
> {
    match attrs {
        None => Err(LinkParserError::StructuralParse),
        Some(l) => {
            if l.len() == 0 {
                Err(LinkParserError::MissingIdentifier)
            } else if !is_utf8(l[0].1) {
                Err(LinkParserError::InvalidEncoding)
            } else {
                match find_value_attr(l) {
                    None => Err(LinkParserError::MissingValue),
                    Some(vb) => if !is_utf8(vb) {
                        Err(LinkParserError::InvalidEncoding)
                    } else if !valid_number(vb) {
                        Err(LinkParserError::InvalidNumber)
                    } else {
                        Ok((utf8_chars_of(l[0].1), spec_decoded(vb)))
                    },
                }
            }
        },
    }
}

/// The outcome of a full pass: keys and values in parse order, one pair per
/// accepted record.
#[verifier::ext_equal]
pub struct LinksModel {
    pub keys: Seq<Seq<char>>,
    pub values: Seq<LinkValue>,
}

pub open spec fn empty_model() -> LinksModel {
    LinksModel { keys: Seq::empty(), values: Seq::empty() }
}

/// What extraction yields from the events at position `i` on: records of
/// `link` start events accumulate in order; the first terminal event or
/// faulty element decides the outcome.
pub open spec fn spec_extract_from(evs: Seq<XmlItem>, i: int) -> Result<
    LinksModel,
    LinkParserError,
>
    decreases evs.len() - i,
{
    if i < 0 || i >= evs.len() {
        Ok(empty_model())
    } else {
        match evs[i] {
            XmlItem::Eof => Ok(empty_model()),
            XmlItem::Bad => Err(LinkParserError::StructuralParse),
            XmlItem::Other => spec_extract_from(evs, i + 1),
            XmlItem::Start { name, attrs } => {
                if name != link_tag() {
                    spec_extract_from(evs, i + 1)
                } else {
                    match element_record(attrs) {
                        Err(e) => Err(e),
                        Ok(kv) => match spec_extract_from(evs, i + 1) {
                            Err(e) => Err(e),
                            Ok(m) => Ok(
                                LinksModel {
                                    keys: seq![kv.0] + m.keys,
                                    values: seq![kv.1] + m.values,
                                },
                            ),
                        },
                    }
                }
            },
        }
    }
}

/// What extraction yields from a whole event stream.
pub open spec fn spec_extract(evs: Seq<XmlItem>) -> Result<LinksModel, LinkParserError> {
    spec_extract_from(evs, 0)
}

/// Accumulated records prepended to the outcome of the rest of the stream.
pub open spec fn prepend_model(
    keys: Seq<Seq<char>>,
    values: Seq<LinkValue>,
    rest: Result<LinksModel, LinkParserError>,
) -> Result<LinksModel, LinkParserError> {
    match rest {
        Ok(m) => Ok(LinksModel { keys: keys + m.keys, values: values + m.values }),
        Err(e) => Err(e),
    }
}

/// The result container: the value array and the key index, parallel by
/// position, immutable once built.
pub struct Links {
    pub lengths: LinkLengths,
    pub indexer: Indexer,
}

impl View for Links {
    type V = LinksModel;

    open spec fn view(&self) -> LinksModel {
        LinksModel { keys: self.indexer@, values: self.lengths@ }
    }
}

impl Default for Links {
    /// An empty container.
    fn default() -> (r: Self)
        ensures
            r@ == empty_model(),
            r.wf(),
    {
        let r = Links { lengths: Vec::new(), indexer: Indexer::new() };
        proof {
            assert(r@ =~= empty_model());
        }
        r
    }
}

/// Finds the position of the first attribute named `length`.
fn find_length_attr(attrs: &Vec<(Vec<u8>, Vec<u8>)>) -> (r: Option<usize>)
    ensures
        match r {
            Some(j) => j < attrs@.len() && attrs@[j as int].0@ == length_key() && (forall|t: int|
                0 <= t < j ==> attrs@[t].0@ != length_key()),
            None => forall|t: int| 0 <= t < attrs@.len() ==> attrs@[t].0@ != length_key(),
        },
{
    let n = attrs.len();
    let mut j: usize = 0;
    while j < n
        invariant
            j <= n,
            n == attrs@.len(),
            forall|t: int| 0 <= t < j ==> attrs@[t].0@ != length_key(),
        decreases n - j,
    {
        if is_length_key(&attrs[j].0) {
            return Some(j);
        }
        j = j + 1;
    }
    None
}

/// The value attribute is found at whatever position it stands: when the
/// first attribute named `length` is the `j`-th one, the value taken is that
/// attribute's, wherever `j` lies in the list.
pub proof fn lemma_find_value_at(l: Seq<(Seq<u8>, Seq<u8>)>, j: int)
    requires
        0 <= j < l.len(),
        l[j].0 == length_key(),
        forall|t: int| 0 <= t < j ==> l[t].0 != length_key(),
    ensures
        find_value_attr(l) == Some(l[j].1),
    decreases j,
{
    if j > 0 {
        assert(forall|t: int| 0 <= t < j - 1 ==> #[trigger] l.drop_first()[t] == l[t + 1]);
        lemma_find_value_at(l.drop_first(), j - 1);
    }
}

/// A list with no attribute named `length` yields no value.
pub proof fn lemma_find_value_none(l: Seq<(Seq<u8>, Seq<u8>)>)
    requires
        forall|t: int| 0 <= t < l.len() ==> l[t].0 != length_key(),
    ensures
        find_value_attr(l) is None,
    decreases l.len(),
{
    if l.len() > 0 {
        assert(forall|t: int| 0 <= t < l.len() - 1 ==> #[trigger] l.drop_first()[t] == l[t + 1]);
        lemma_find_value_none(l.drop_first());
    }
}

/// Reads one element's attribute list: the identifier is the first attribute,
/// the value the first one named `length`, wherever it stands.
fn extract_record(attrs: &Vec<(Vec<u8>, Vec<u8>)>) -> (r: Result<
    (String, LinkValue),
    LinkParserError,
>)
    ensures
        match element_record(Some(attrs@.map_values(|p: (Vec<u8>, Vec<u8>)| (p.0@, p.1@)))) {
            Ok(kv) => r matches Ok(p) && p.0@ == kv.0 && p.1 == kv.1,
            Err(e) => r matches Err(e2) && e2 == e,
        },
{
    let ghost al = attrs@.map_values(|p: (Vec<u8>, Vec<u8>)| (p.0@, p.1@));
    if attrs.len() == 0 {
        return Err(LinkParserError::MissingIdentifier);
    }
    if !utf8_ok(attrs[0].1.as_slice()) {
        return Err(LinkParserError::InvalidEncoding);
    }
    let key = bytes_to_key(attrs[0].1.as_slice());
    match find_length_attr(attrs) {
        None => {
            proof {
                assert(forall|t: int| 0 <= t < al.len() ==> al[t].0 != length_key());
                lemma_find_value_none(al);
            }
            Err(LinkParserError::MissingValue)
        },
        Some(j) => {
            proof {
                assert(forall|t: int| 0 <= t < j ==> al[t].0 != length_key());
                lemma_find_value_at(al, j as int);
            }
            match decode::decode_value(attrs[j].1.as_slice()) {
                Ok(val) => Ok((key, val)),
                Err(e) => Err(e),
            }
        },
    }
}

impl Links {
    /// Both structures of the container stay parallel: one value and one key
    /// per accepted record, and the index's reverse map matches its key list.
    pub open spec fn wf(&self) -> bool {
        &&& self.indexer.wf()
        &&& self.indexer@.len() == self.lengths@.len()
    }

    /// Positional value lookup; the position must be in range.
    pub fn get(&self, index: usize) -> (r: LinkValue)
        requires
            index < self@.values.len(),
        ensures
            r == self@.values[index as int],
    {
        self.lengths[index]
    }

    /// The number of accepted records.
    pub fn count(&self) -> (r: usize)
        ensures
            r == self@.values.len(),
    {
        self.lengths.len()
    }

    /// Runs the extraction pass over input bytes, decompressing them first
    /// when `compressed` says so.
    pub fn from_xml_bytes(data: Vec<u8>, compressed: bool) -> (r: Result<Links, LinkParserError>)
        ensures
            match acquired_bytes(data@, compressed) {
                Some(bytes) => match spec_extract(xml_events(bytes)) {
                    Ok(m) => r matches Ok(links) && links@ == m && links.wf(),
                    Err(e) => r matches Err(e2) && e2 == e,
                },
                None => r matches Err(e2) && e2 == LinkParserError::Acquisition,
            },
    {
        match reader::from_bytes(data, compressed) {
            Ok(src) => Self::from_reader(src),
            Err(e) => Err(e),
        }
    }

    /// The core loop: drives the event source once from start to end and
    /// accumulates one key and one value per `link` element, in document
    /// order. The outcome is exactly `spec_extract` of the source's events.
    pub fn from_reader(src: EventSource) -> (r: Result<Links, LinkParserError>)
        requires
            source_read(src) == 0,
            stream_wf(xml_events(source_bytes(src))),
        ensures
            match spec_extract(xml_events(source_bytes(src))) {
                Ok(m) => r matches Ok(links) && links@ == m && links.wf(),
                Err(e) => r matches Err(e2) && e2 == e,
            },
    {
        let ghost bytes0 = source_bytes(src);
        let ghost evs = xml_events(bytes0);
        let mut src = src;
        let mut lengths: LinkLengths = Vec::new();
        let mut indexer = Indexer::new();
        proof {
            assert(indexer@ + empty_model().keys =~= indexer@);
            assert(lengths@ + empty_model().values =~= lengths@);
        }
        #[verifier::loop_isolation(false)]
        loop
            invariant
                source_bytes(src) == bytes0,
                evs == xml_events(bytes0),
                stream_wf(evs),
                0 <= source_read(src) <= evs.len() - 1,
                forall|t: int| 0 <= t < source_read(src) ==> !is_terminal(#[trigger] evs[t]),
                indexer.wf(),
                indexer@.len() == lengths@.len(),
                spec_extract(evs) == prepend_model(
                    indexer@,
                    lengths@,
                    spec_extract_from(evs, source_read(src)),
                ),
            decreases evs.len() - source_read(src),
        {
            let ghost i = source_read(src);
            let ghost keys0 = indexer@;
            let ghost vals0 = lengths@;
            let e = next_event(&mut src);
            proof {
                assert(e@ == evs[i]);
            }
            match e {
                XmlEvent::Eof => {
                    proof {
                        assert(spec_extract_from(evs, i) == Ok::<LinksModel, LinkParserError>(
                            empty_model(),
                        ));
                        assert(keys0 + empty_model().keys =~= keys0);
                        assert(vals0 + empty_model().values =~= vals0);
                    }
                    let links = Links { lengths, indexer };
                    proof {
                        assert(spec_extract(evs) matches Ok(m) && links@ =~= m);
                    }
                    return Ok(links);
                },
                XmlEvent::Bad => {
                    proof {
                        assert(spec_extract_from(evs, i) == Err::<LinksModel, LinkParserError>(
                            LinkParserError::StructuralParse,
                        ));
                    }
                    return Err(LinkParserError::StructuralParse);
                },
                XmlEvent::Other => {
                    proof {
                        assert(!is_terminal(evs[i]));
                        assert(i != evs.len() - 1);
                        assert(spec_extract_from(evs, i) == spec_extract_from(evs, i + 1));
                    }
                },
                XmlEvent::Start(b) => {
                    let name = start_name(&b);
                    if !is_link_tag(&name) {
                        proof {
                            assert(!is_terminal(evs[i]));
                            assert(i != evs.len() - 1);
                            assert(spec_extract_from(evs, i) == spec_extract_from(evs, i + 1));
                        }
                    } else {
                        proof {
                            assert(!is_terminal(evs[i]));
                            assert(i != evs.len() - 1);
                        }
                        match start_attributes(&b) {
                            None => {
                                proof {
                                    assert(spec_extract_from(evs, i) == Err::<
                                        LinksModel,
                                        LinkParserError,
                                    >(LinkParserError::StructuralParse));
                                }
                                return Err(LinkParserError::StructuralParse);
                            },
                            Some(attrs) => {
                                match extract_record(&attrs) {
                                    Err(err) => {
                                        proof {
                                            assert(spec_extract_from(evs, i) == Err::<
                                                LinksModel,
                                                LinkParserError,
                                            >(err));
                                        }
                                        return Err(err);
                                    },
                                    Ok(kv) => {
                                        let (key, val) = kv;
                                        let ghost k0 = key@;
                                        indexer.add(key);
                                        lengths.push(val);
                                        proof {
                                            let rest = spec_extract_from(evs, i + 1);
                                            if rest is Ok {
                                                let m = rest->Ok_0;
                                                assert(keys0 + (seq![k0] + m.keys) =~= indexer@
                                                    + m.keys);
                                                assert(vals0 + (seq![val] + m.values) =~= lengths@
                                                    + m.values);
                                                assert(prepend_model(
                                                    keys0,
                                                    vals0,
                                                    spec_extract_from(evs, i),
                                                ) matches Ok(w) && prepend_model(
                                                    indexer@,
                                                    lengths@,
                                                    rest,
                                                ) matches Ok(w2) && w =~= w2);
                                            }
                                        }

                                    },
                                }
                            },
                        }
                    }
                },
            }
        }
    }
}

/// Every successful pass yields as many values as keys: the two structures
/// grow in lock step, one entry per accepted record.
pub proof fn lemma_extract_counts(evs: Seq<XmlItem>, i: int)
    ensures
        spec_extract_from(evs, i) matches Ok(m) ==> m.keys.len() == m.values.len(),
    decreases evs.len() - i,
{
    if 0 <= i < evs.len() {
        lemma_extract_counts(evs, i + 1);
    }
}

/// Matching flag, matching outcome: a compressed input denotes exactly the
/// bytes it decompresses to, so its extraction is pinned to the same result
/// as the uncompressed form's.
pub proof fn lemma_compressed_agrees(raw: Seq<u8>, gz: Seq<u8>)
    requires
        reader::gunzip_of(gz) == Some(raw),
    ensures
        acquired_bytes(gz, true) == acquired_bytes(raw, false),
{
}

} // verus!
