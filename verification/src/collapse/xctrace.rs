//! Collapsing the XML that `xctrace export` writes for a Time Profiler trace.
//!
//! The XML reader hands the events of the document, one at a time, to
//! [`Folder::on_event`], which keeps the stack of open tags and registers the backtraces and
//! frames it meets. When the root tag closes, the rows found are folded into stack lines by
//! [`Folder::folded_text`].
use vstd::prelude::*;
use std::collections::BTreeMap;
use crate::collapse::common::{added_count, count_lines, Occurrences};
use crate::collapse::util::{fix_partially_demangled_rust_symbol, fixed_symbol};
use crate::collapse::xml_events::{event_view, xml_event_at, XmlEvents};
use crate::keyed::{keyed_map, sorted_keys};
use crate::text::{chars_of, contains, contains_chars, pairs_view, parse_u64_str, parse_u64_text, push_str, str_eq, string_from_chars};

verus! {

/// The tags of the document that the collapser follows.
#[derive(Clone, Copy, PartialEq, Eq, Structural, Debug)]
pub enum TagKind {
    TraceQueryResult,
    Node,
    Row,
    Backtrace,
    Frame,
}

/// The attributes that the collapser reads.
#[derive(Clone, Copy, PartialEq, Eq, Structural, Debug)]
pub enum AttrKey {
    Ref,
    Id,
    Name,
}

pub open spec fn tag_kind(name: Seq<char>) -> Option<TagKind> {
    if name == "trace-query-result"@ {
        Some(TagKind::TraceQueryResult)
    } else if name == "node"@ {
        Some(TagKind::Node)
    } else if name == "row"@ {
        Some(TagKind::Row)
    } else if name == "backtrace"@ {
        Some(TagKind::Backtrace)
    } else if name == "frame"@ {
        Some(TagKind::Frame)
    } else {
        None
    }
}

/// Which of the followed tags `name` is, if any.
pub fn tag_kind_of(name: &str) -> (r: Option<TagKind>)
    ensures
        r == tag_kind(name@),
{
    if str_eq(name, "trace-query-result") {
        Some(TagKind::TraceQueryResult)
    } else if str_eq(name, "node") {
        Some(TagKind::Node)
    } else if str_eq(name, "row") {
        Some(TagKind::Row)
    } else if str_eq(name, "backtrace") {
        Some(TagKind::Backtrace)
    } else if str_eq(name, "frame") {
        Some(TagKind::Frame)
    } else {
        None
    }
}

/// Is this a tag we are interested in?
pub fn is_interested_tag(tag: &str) -> (b: bool)
    ensures
        b == tag_kind(tag@).is_some(),
{
    tag_kind_of(tag).is_some()
}

pub open spec fn key_text(k: AttrKey) -> Seq<char> {
    match k {
        AttrKey::Ref => "ref"@,
        AttrKey::Id => "id"@,
        AttrKey::Name => "name"@,
    }
}

fn key_str(k: AttrKey) -> (s: &'static str)
    ensures
        s@ == key_text(k),
{
    match k {
        AttrKey::Ref => "ref",
        AttrKey::Id => "id",
        AttrKey::Name => "name",
    }
}

/// One event of the XML document, as the reader reports it; names and attribute values are
/// the raw (still escaped) text.
pub enum XmlEvent {
    Start { name: String, attributes: Vec<(String, String)> },
    End { name: String },
    Empty { name: String, attributes: Vec<(String, String)> },
    /// Text, a comment, CDATA, a declaration, a processing instruction or a doctype.
    Other,
    Eof,
}

pub ghost enum EventSpec {
    Start { name: Seq<char>, attributes: Seq<(Seq<char>, Seq<char>)> },
    End { name: Seq<char> },
    Empty { name: Seq<char>, attributes: Seq<(Seq<char>, Seq<char>)> },
    Other,
    Eof,
}

impl View for XmlEvent {
    type V = EventSpec;

    open spec fn view(&self) -> EventSpec {
        match self {
            XmlEvent::Start { name, attributes } => EventSpec::Start { name: name@, attributes: pairs_view(attributes@) },
            XmlEvent::End { name } => EventSpec::End { name: name@ },
            XmlEvent::Empty { name, attributes } => EventSpec::Empty { name: name@, attributes: pairs_view(attributes@) },
            XmlEvent::Other => EventSpec::Other,
            XmlEvent::Eof => EventSpec::Eof,
        }
    }
}

/// Why an xctrace document could not be collapsed.
#[derive(Debug)]
pub enum XctraceError {
    /// The attribute is missing.
    MissingAttribute(AttrKey),
    /// The attribute's value is not a number.
    BadNumber(AttrKey, String),
    /// A frame has no `name` attribute.
    MissingName,
    /// A frame's name is not valid XML text.
    BadName,
    /// A closing tag does not match the innermost open tag.
    UnpairedTag(TagKind),
    RepeatedBacktraceId(u64),
    RepeatedFrameId(u64),
    InvalidBacktraceRef(u64),
    InvalidFrameRef(u64),
    /// An empty backtrace tag has neither a usable `ref` nor a usable `id`.
    BacktraceWithoutId,
    /// An empty frame tag has neither a usable `ref` nor a usable `id` and `name`.
    FrameWithoutId,
    /// The document ended before the root tag closed.
    UnexpectedEof,
    /// The XML reader reported the document malformed.
    BadXml,
}

pub ghost enum XctraceErrorSpec {
    MissingAttribute(AttrKey),
    BadNumber(AttrKey, Seq<char>),
    MissingName,
    BadName,
    UnpairedTag(TagKind),
    RepeatedBacktraceId(u64),
    RepeatedFrameId(u64),
    InvalidBacktraceRef(u64),
    InvalidFrameRef(u64),
    BacktraceWithoutId,
    FrameWithoutId,
    UnexpectedEof,
    BadXml,
}

impl View for XctraceError {
    type V = XctraceErrorSpec;

    open spec fn view(&self) -> XctraceErrorSpec {
        match self {
            XctraceError::MissingAttribute(k) => XctraceErrorSpec::MissingAttribute(*k),
            XctraceError::BadNumber(k, v) => XctraceErrorSpec::BadNumber(*k, v@),
            XctraceError::MissingName => XctraceErrorSpec::MissingName,
            XctraceError::BadName => XctraceErrorSpec::BadName,
            XctraceError::UnpairedTag(t) => XctraceErrorSpec::UnpairedTag(*t),
            XctraceError::RepeatedBacktraceId(i) => XctraceErrorSpec::RepeatedBacktraceId(*i),
            XctraceError::RepeatedFrameId(i) => XctraceErrorSpec::RepeatedFrameId(*i),
            XctraceError::InvalidBacktraceRef(i) => XctraceErrorSpec::InvalidBacktraceRef(*i),
            XctraceError::InvalidFrameRef(i) => XctraceErrorSpec::InvalidFrameRef(*i),
            XctraceError::BacktraceWithoutId => XctraceErrorSpec::BacktraceWithoutId,
            XctraceError::FrameWithoutId => XctraceErrorSpec::FrameWithoutId,
            XctraceError::UnexpectedEof => XctraceErrorSpec::UnexpectedEof,
            XctraceError::BadXml => XctraceErrorSpec::BadXml,
        }
    }
}

// ------------------------------------------------------------------
// Attributes
// ------------------------------------------------------------------

/// The value of the first attribute named `key`, looking from position `i` on.
pub open spec fn attr_value_from(attrs: Seq<(Seq<char>, Seq<char>)>, key: Seq<char>, i: int) -> Option<Seq<char>>
    decreases attrs.len() - i,
{
    if i < 0 || i >= attrs.len() {
        None
    } else if attrs[i].0 == key {
        Some(attrs[i].1)
    } else {
        attr_value_from(attrs, key, i + 1)
    }
}

pub open spec fn attr_value(attrs: Seq<(Seq<char>, Seq<char>)>, key: Seq<char>) -> Option<Seq<char>> {
    attr_value_from(attrs, key, 0)
}

fn find_attr<'a>(attrs: &'a [(String, String)], key: &str) -> (r: Option<&'a String>)
    ensures
        match r {
            Some(v) => attr_value(pairs_view(attrs@), key@) == Some(v@),
            None => attr_value(pairs_view(attrs@), key@) is None,
        },
{
    let ghost a = pairs_view(attrs@);
    let mut i: usize = 0;
    while i < attrs.len()
        invariant
            i <= attrs@.len(),
            a == pairs_view(attrs@),
            attr_value(a, key@) == attr_value_from(a, key@, i as int),
        decreases attrs.len() - i,
    {
        assert(a[i as int] == (attrs@[i as int].0@, attrs@[i as int].1@));
        if str_eq(attrs[i].0.as_str(), key) {
            return Some(&attrs[i].1);
        }
        i += 1;
    }
    None
}

/// The attribute `k` read as a number.
pub open spec fn attr_number(attrs: Seq<(Seq<char>, Seq<char>)>, k: AttrKey) -> Result<u64, XctraceErrorSpec> {
    match attr_value(attrs, key_text(k)) {
        None => Err(XctraceErrorSpec::MissingAttribute(k)),
        Some(v) => match parse_u64_text(v) {
            Some(n) => Ok(n),
            None => Err(XctraceErrorSpec::BadNumber(k, v)),
        },
    }
}

fn number_attr(attrs: &[(String, String)], k: AttrKey) -> (r: Result<u64, XctraceError>)
    ensures
        match r {
            Ok(n) => attr_number(pairs_view(attrs@), k) == Ok::<u64, XctraceErrorSpec>(n),
            Err(e) => attr_number(pairs_view(attrs@), k) == Err::<u64, XctraceErrorSpec>(e@),
        },
{
    match find_attr(attrs, key_str(k)) {
        None => Err(XctraceError::MissingAttribute(k)),
        Some(v) => match parse_u64_str(v.as_str()) {
            Some(n) => Ok(n),
            None => Err(XctraceError::BadNumber(k, string_from_chars(chars_of(v.as_str()).as_slice()))),
        },
    }
}

/// A name for what `quick_xml::escape::unescape` makes of a text; `None` where it reports an
/// error.
pub uninterp spec fn xml_unescaped(raw: Seq<char>) -> Option<Seq<char>>;

/// `quick_xml::escape::unescape`: replaces the XML escapes (`&...;`) of a text. Beside naming the
/// result, the contract states what the source shows of a text without `&`: it comes back as
/// it is.
#[verifier::external_body]
fn unescape_xml(raw: &str) -> (r: Option<String>)
    ensures
        match r {
            Some(t) => xml_unescaped(raw@) == Some(t@),
            None => xml_unescaped(raw@) is None,
        },
        !raw@.contains('&') ==> r is Some && r->0@ == raw@,
{
    match quick_xml::escape::unescape(raw) {
        Ok(t) => Some(t.into_owned()),
        Err(_) => None,
    }
}

/// The unescaped `name` attribute of a frame.
pub open spec fn attr_name(attrs: Seq<(Seq<char>, Seq<char>)>) -> Result<Seq<char>, XctraceErrorSpec> {
    match attr_value(attrs, "name"@) {
        None => Err(XctraceErrorSpec::MissingName),
        Some(v) => match xml_unescaped(v) {
            Some(t) => Ok(t),
            None => Err(XctraceErrorSpec::BadName),
        },
    }
}

fn name_attr(attrs: &[(String, String)]) -> (r: Result<String, XctraceError>)
    ensures
        match r {
            Ok(t) => attr_name(pairs_view(attrs@)) == Ok::<Seq<char>, XctraceErrorSpec>(t@),
            Err(e) => attr_name(pairs_view(attrs@)) == Err::<Seq<char>, XctraceErrorSpec>(e@),
        },
{
    match find_attr(attrs, key_str(AttrKey::Name)) {
        None => Err(XctraceError::MissingName),
        Some(v) => match unescape_xml(v.as_str()) {
            Some(t) => Ok(t),
            None => Err(XctraceError::BadName),
        },
    }
}

/// The id and the name of a frame.
pub open spec fn attr_frame(attrs: Seq<(Seq<char>, Seq<char>)>) -> Result<(u64, Seq<char>), XctraceErrorSpec> {
    match attr_number(attrs, AttrKey::Id) {
        Err(e) => Err(e),
        Ok(id) => match attr_name(attrs) {
            Err(e) => Err(e),
            Ok(n) => Ok((id, n)),
        },
    }
}

fn frame_attrs(attrs: &[(String, String)]) -> (r: Result<(u64, String), XctraceError>)
    ensures
        match r {
            Ok((id, n)) => attr_frame(pairs_view(attrs@)) == Ok::<(u64, Seq<char>), XctraceErrorSpec>((id, n@)),
            Err(e) => attr_frame(pairs_view(attrs@)) == Err::<(u64, Seq<char>), XctraceErrorSpec>(e@),
        },
{
    let id = match number_attr(attrs, AttrKey::Id) {
        Ok(id) => id,
        Err(e) => return Err(e),
    };
    match name_attr(attrs) {
        Ok(n) => Ok((id, n)),
        Err(e) => Err(e),
    }
}

// ------------------------------------------------------------------
// The stack of open tags
// ------------------------------------------------------------------

/// An open tag, with what was gathered inside it so far.
pub enum CurrentTag {
    TraceQueryResult { nodes: Vec<Vec<u64>> },
    Node { rows: Vec<u64> },
    Row { backtrace: Option<u64> },
    Backtrace { id: u64, frames: Vec<u64> },
    Frame { id: u64, name: String },
}

pub ghost enum TagSpec {
    TraceQueryResult { nodes: Seq<Seq<u64>> },
    Node { rows: Seq<u64> },
    Row { backtrace: Option<u64> },
    Backtrace { id: u64, frames: Seq<u64> },
    Frame { id: u64, name: Seq<char> },
}

pub open spec fn nested_view(v: Seq<Vec<u64>>) -> Seq<Seq<u64>> {
    v.map_values(|r: Vec<u64>| r@)
}

impl View for CurrentTag {
    type V = TagSpec;

    open spec fn view(&self) -> TagSpec {
        match self {
            CurrentTag::TraceQueryResult { nodes } => TagSpec::TraceQueryResult { nodes: nested_view(nodes@) },
            CurrentTag::Node { rows } => TagSpec::Node { rows: rows@ },
            CurrentTag::Row { backtrace } => TagSpec::Row { backtrace: *backtrace },
            CurrentTag::Backtrace { id, frames } => TagSpec::Backtrace { id: *id, frames: frames@ },
            CurrentTag::Frame { id, name } => TagSpec::Frame { id: *id, name: name@ },
        }
    }
}

pub open spec fn kind_of(t: TagSpec) -> TagKind {
    match t {
        TagSpec::TraceQueryResult { .. } => TagKind::TraceQueryResult,
        TagSpec::Node { .. } => TagKind::Node,
        TagSpec::Row { .. } => TagKind::Row,
        TagSpec::Backtrace { .. } => TagKind::Backtrace,
        TagSpec::Frame { .. } => TagKind::Frame,
    }
}

impl CurrentTag {
    /// Whether this open tag is the one that the closing tag `name` closes.
    pub fn matches(&self, name: &str) -> (b: bool)
        ensures
            b == (tag_kind(name@) == Some(kind_of(self@))),
    {
        match tag_kind_of(name) {
            None => false,
            Some(k) => k == self.kind(),
        }
    }

    pub fn kind(&self) -> (k: TagKind)
        ensures
            k == kind_of(self@),
    {
        match self {
            CurrentTag::TraceQueryResult { .. } => TagKind::TraceQueryResult,
            CurrentTag::Node { .. } => TagKind::Node,
            CurrentTag::Row { .. } => TagKind::Row,
            CurrentTag::Backtrace { .. } => TagKind::Backtrace,
            CurrentTag::Frame { .. } => TagKind::Frame,
        }
    }
}

/// The tag expected at a given depth of the stack: each tag nests in the one before.
pub open spec fn kind_at(depth: int) -> TagKind {
    if depth == 0 {
        TagKind::TraceQueryResult
    } else if depth == 1 {
        TagKind::Node
    } else if depth == 2 {
        TagKind::Row
    } else if depth == 3 {
        TagKind::Backtrace
    } else {
        TagKind::Frame
    }
}

/// The state of a collapse: the open tags, and the backtraces and frames registered so far,
/// each by its id.
pub ghost struct FolderSpec {
    pub tags: Seq<TagSpec>,
    pub backtraces: Map<u64, Seq<u64>>,
    pub frames: Map<u64, Seq<char>>,
}

/// Every id that an open tag holds is registered.
pub open spec fn ids_known(t: TagSpec, bts: Map<u64, Seq<u64>>, frs: Map<u64, Seq<char>>) -> bool {
    match t {
        TagSpec::TraceQueryResult { nodes } => forall|i: int, j: int|
            0 <= i < nodes.len() && 0 <= j < nodes[i].len() ==> bts.contains_key(#[trigger] nodes[i][j]),
        TagSpec::Node { rows } => forall|j: int| 0 <= j < rows.len() ==> bts.contains_key(#[trigger] rows[j]),
        TagSpec::Row { backtrace } => backtrace matches Some(b) ==> bts.contains_key(b),
        TagSpec::Backtrace { frames, .. } => forall|j: int|
            0 <= j < frames.len() ==> frs.contains_key(#[trigger] frames[j]),
        TagSpec::Frame { .. } => true,
    }
}

/// Every frame of a registered backtrace is registered.
pub open spec fn frames_known(bts: Map<u64, Seq<u64>>, frs: Map<u64, Seq<char>>) -> bool {
    forall|b: u64, j: int|
        #![trigger bts[b][j]]
        bts.contains_key(b) && 0 <= j < bts[b].len() ==> frs.contains_key(bts[b][j])
}

/// The invariant of a collapse: the open tags nest as the document format has them, and every
/// id held is registered.
pub open spec fn folder_ok(st: FolderSpec) -> bool {
    &&& st.tags.len() <= 5
    &&& forall|i: int| 0 <= i < st.tags.len() ==> kind_of(#[trigger] st.tags[i]) == kind_at(i)
    &&& forall|i: int| 0 <= i < st.tags.len() ==> ids_known(#[trigger] st.tags[i], st.backtraces, st.frames)
    &&& frames_known(st.backtraces, st.frames)
}

pub open spec fn top(st: FolderSpec) -> Option<TagSpec> {
    if st.tags.len() == 0 { None } else { Some(st.tags.last()) }
}

pub open spec fn pushed(st: FolderSpec, t: TagSpec) -> FolderSpec {
    FolderSpec { tags: st.tags.push(t), backtraces: st.backtraces, frames: st.frames }
}

pub open spec fn with_top(st: FolderSpec, t: TagSpec) -> FolderSpec {
    FolderSpec { tags: st.tags.drop_last().push(t), backtraces: st.backtraces, frames: st.frames }
}

pub open spec fn popped(st: FolderSpec) -> FolderSpec {
    FolderSpec { tags: st.tags.drop_last(), backtraces: st.backtraces, frames: st.frames }
}

pub open spec fn with_backtrace(st: FolderSpec, id: u64, frames: Seq<u64>) -> FolderSpec {
    FolderSpec { tags: st.tags, backtraces: st.backtraces.insert(id, frames), frames: st.frames }
}

pub open spec fn with_frame(st: FolderSpec, id: u64, name: Seq<char>) -> FolderSpec {
    FolderSpec { tags: st.tags, backtraces: st.backtraces, frames: st.frames.insert(id, name) }
}

/// The rows of the document once the root tag closed; `None` while it is open.
pub open spec fn continue_outcome() -> Result<Option<Seq<Seq<u64>>>, XctraceErrorSpec> {
    Ok(None)
}

/// An opening tag.
pub open spec fn start_step(st: FolderSpec, name: Seq<char>, attrs: Seq<(Seq<char>, Seq<char>)>) -> (
    FolderSpec,
    Result<Option<Seq<Seq<u64>>>, XctraceErrorSpec>,
) {
    match (top(st), tag_kind(name)) {
        (None, Some(TagKind::TraceQueryResult)) => (
            pushed(st, TagSpec::TraceQueryResult { nodes: Seq::empty() }),
            continue_outcome(),
        ),
        (Some(TagSpec::TraceQueryResult { .. }), Some(TagKind::Node)) => (
            pushed(st, TagSpec::Node { rows: Seq::empty() }),
            continue_outcome(),
        ),
        (Some(TagSpec::Node { .. }), Some(TagKind::Row)) => (
            pushed(st, TagSpec::Row { backtrace: None }),
            continue_outcome(),
        ),
        (Some(TagSpec::Row { .. }), Some(TagKind::Backtrace)) => match attr_number(attrs, AttrKey::Id) {
            Ok(id) => (pushed(st, TagSpec::Backtrace { id, frames: Seq::empty() }), continue_outcome()),
            Err(e) => (st, Err(e)),
        },
        (Some(TagSpec::Backtrace { .. }), Some(TagKind::Frame)) => match attr_frame(attrs) {
            Ok((id, n)) => (pushed(st, TagSpec::Frame { id, name: n }), continue_outcome()),
            Err(e) => (st, Err(e)),
        },
        _ => (st, continue_outcome()),
    }
}

/// Folds a closed tag into the tag around it.
pub open spec fn close_tag(st: FolderSpec, closed: TagSpec) -> (
    FolderSpec,
    Result<Option<Seq<Seq<u64>>>, XctraceErrorSpec>,
) {
    match (top(st), closed) {
        (None, TagSpec::TraceQueryResult { nodes }) => (st, Ok(Some(nodes))),
        (Some(TagSpec::TraceQueryResult { nodes }), TagSpec::Node { rows }) => (
            with_top(st, TagSpec::TraceQueryResult { nodes: nodes.push(rows) }),
            continue_outcome(),
        ),
        (Some(TagSpec::Node { rows }), TagSpec::Row { backtrace }) => (
            with_top(
                st,
                TagSpec::Node {
                    rows: match backtrace {
                        Some(b) => rows.push(b),
                        None => rows,
                    },
                },
            ),
            continue_outcome(),
        ),
        (Some(TagSpec::Row { .. }), TagSpec::Backtrace { id, frames }) => if st.backtraces.contains_key(id) {
            (with_backtrace(st, id, frames), Err(XctraceErrorSpec::RepeatedBacktraceId(id)))
        } else {
            (with_top(with_backtrace(st, id, frames), TagSpec::Row { backtrace: Some(id) }), continue_outcome())
        },
        (Some(TagSpec::Backtrace { id: bid, frames }), TagSpec::Frame { id, name }) => if st.frames.contains_key(id) {
            (with_frame(st, id, name), Err(XctraceErrorSpec::RepeatedFrameId(id)))
        } else {
            (
                with_top(with_frame(st, id, name), TagSpec::Backtrace { id: bid, frames: frames.push(id) }),
                continue_outcome(),
            )
        },
        _ => (st, continue_outcome()),
    }
}

/// A closing tag.
pub open spec fn end_step(st: FolderSpec, name: Seq<char>) -> (
    FolderSpec,
    Result<Option<Seq<Seq<u64>>>, XctraceErrorSpec>,
) {
    match tag_kind(name) {
        None => (st, continue_outcome()),
        Some(k) => if st.tags.len() == 0 || kind_of(st.tags.last()) != k {
            (st, Err(XctraceErrorSpec::UnpairedTag(k)))
        } else {
            close_tag(popped(st), st.tags.last())
        },
    }
}

/// A tag without content (`<tag .../>`).
pub open spec fn empty_step(st: FolderSpec, name: Seq<char>, attrs: Seq<(Seq<char>, Seq<char>)>) -> (
    FolderSpec,
    Result<Option<Seq<Seq<u64>>>, XctraceErrorSpec>,
) {
    match (top(st), tag_kind(name)) {
        (Some(TagSpec::Row { .. }), Some(TagKind::Backtrace)) => match attr_number(attrs, AttrKey::Ref) {
            Ok(r) => if st.backtraces.contains_key(r) {
                (with_top(st, TagSpec::Row { backtrace: Some(r) }), continue_outcome())
            } else {
                (st, Err(XctraceErrorSpec::InvalidBacktraceRef(r)))
            },
            Err(_) => match attr_number(attrs, AttrKey::Id) {
                Ok(id) => if st.backtraces.contains_key(id) {
                    (with_backtrace(st, id, Seq::empty()), Err(XctraceErrorSpec::RepeatedBacktraceId(id)))
                } else {
                    (
                        with_top(with_backtrace(st, id, Seq::empty()), TagSpec::Row { backtrace: Some(id) }),
                        continue_outcome(),
                    )
                },
                Err(_) => (st, Err(XctraceErrorSpec::BacktraceWithoutId)),
            },
        },
        (Some(TagSpec::Backtrace { id: bid, frames }), Some(TagKind::Frame)) => match attr_number(attrs, AttrKey::Ref) {
            Ok(r) => if st.frames.contains_key(r) {
                (with_top(st, TagSpec::Backtrace { id: bid, frames: frames.push(r) }), continue_outcome())
            } else {
                (st, Err(XctraceErrorSpec::InvalidFrameRef(r)))
            },
            Err(_) => match attr_frame(attrs) {
                Ok((id, n)) => if st.frames.contains_key(id) {
                    (with_frame(st, id, n), Err(XctraceErrorSpec::RepeatedFrameId(id)))
                } else {
                    (
                        with_top(with_frame(st, id, n), TagSpec::Backtrace { id: bid, frames: frames.push(id) }),
                        continue_outcome(),
                    )
                },
                Err(_) => (st, Err(XctraceErrorSpec::FrameWithoutId)),
            },
        },
        _ => (st, continue_outcome()),
    }
}

/// What one event of the document does to the state of the collapse.
pub open spec fn xml_step(st: FolderSpec, ev: EventSpec) -> (
    FolderSpec,
    Result<Option<Seq<Seq<u64>>>, XctraceErrorSpec>,
) {
    match ev {
        EventSpec::Start { name, attributes } => start_step(st, name, attributes),
        EventSpec::End { name } => end_step(st, name),
        EventSpec::Empty { name, attributes } => empty_step(st, name, attributes),
        EventSpec::Other => (st, continue_outcome()),
        EventSpec::Eof => (st, Err(XctraceErrorSpec::UnexpectedEof)),
    }
}

pub open spec fn outcome_view(r: Result<Option<Vec<Vec<u64>>>, XctraceError>) -> Result<
    Option<Seq<Seq<u64>>>,
    XctraceErrorSpec,
> {
    match r {
        Ok(None) => Ok(None),
        Ok(Some(n)) => Ok(Some(nested_view(n@))),
        Err(e) => Err(e@),
    }
}

// ------------------------------------------------------------------
// The collapse
// ------------------------------------------------------------------

pub open spec fn tags_view(v: Seq<CurrentTag>) -> Seq<TagSpec> {
    v.map_values(|t: CurrentTag| t@)
}

pub open spec fn backtraces_view(m: Map<u64, Vec<u64>>) -> Map<u64, Seq<u64>> {
    m.map_values(|v: Vec<u64>| v@)
}

pub open spec fn frames_view(m: Map<u64, String>) -> Map<u64, Seq<char>> {
    m.map_values(|n: String| n@)
}

/// The state of collapsing one xctrace document.
pub struct Folder {
    /// The open tags, outermost first.
    tags: Vec<CurrentTag>,
    /// Backtraces by id: the ids of their frames, innermost first.
    backtraces: BTreeMap<u64, Vec<u64>>,
    /// Frame names by id.
    frames: BTreeMap<u64, String>,
}

impl View for Folder {
    type V = FolderSpec;

    closed spec fn view(&self) -> FolderSpec {
        FolderSpec {
            tags: tags_view(self.tags@),
            backtraces: backtraces_view(self.backtraces@),
            frames: frames_view(self.frames@),
        }
    }
}

proof fn lemma_ids_known_grow(
    t: TagSpec,
    bts: Map<u64, Seq<u64>>,
    frs: Map<u64, Seq<char>>,
    bts2: Map<u64, Seq<u64>>,
    frs2: Map<u64, Seq<char>>,
)
    requires
        ids_known(t, bts, frs),
        bts.dom().subset_of(bts2.dom()),
        frs.dom().subset_of(frs2.dom()),
    ensures
        ids_known(t, bts2, frs2),
{
    match t {
        TagSpec::TraceQueryResult { nodes } => {
            assert forall|i: int, j: int| 0 <= i < nodes.len() && 0 <= j < nodes[i].len() implies bts2.contains_key(
                #[trigger] nodes[i][j],
            ) by {
                assert(bts.contains_key(nodes[i][j]));
            }
        },
        TagSpec::Node { rows } => {
            assert forall|j: int| 0 <= j < rows.len() implies bts2.contains_key(#[trigger] rows[j]) by {
                assert(bts.contains_key(rows[j]));
            }
        },
        TagSpec::Row { .. } => {},
        TagSpec::Backtrace { frames, .. } => {
            assert forall|j: int| 0 <= j < frames.len() implies frs2.contains_key(#[trigger] frames[j]) by {
                assert(frs.contains_key(frames[j]));
            }
        },
        TagSpec::Frame { .. } => {},
    }
}

/// Registering more backtraces and frames keeps every held id registered.
proof fn lemma_tags_known_grow(st: FolderSpec, bts2: Map<u64, Seq<u64>>, frs2: Map<u64, Seq<char>>)
    requires
        forall|i: int| 0 <= i < st.tags.len() ==> ids_known(#[trigger] st.tags[i], st.backtraces, st.frames),
        st.backtraces.dom().subset_of(bts2.dom()),
        st.frames.dom().subset_of(frs2.dom()),
    ensures
        forall|i: int| 0 <= i < st.tags.len() ==> ids_known(#[trigger] st.tags[i], bts2, frs2),
{
    assert forall|i: int| 0 <= i < st.tags.len() implies ids_known(#[trigger] st.tags[i], bts2, frs2) by {
        lemma_ids_known_grow(st.tags[i], st.backtraces, st.frames, bts2, frs2);
    }
}

impl Folder {
    /// A collapse that has seen nothing yet.
    pub fn new() -> (f: Folder)
        ensures
            f@.tags == Seq::<TagSpec>::empty(),
            f@.backtraces == Map::<u64, Seq<u64>>::empty(),
            f@.frames == Map::<u64, Seq<char>>::empty(),
            folder_ok(f@),
    {
        let f = Folder { tags: Vec::new(), backtraces: BTreeMap::new(), frames: BTreeMap::new() };
        assert(f@.tags =~= Seq::<TagSpec>::empty());
        assert(f@.backtraces =~= Map::<u64, Seq<u64>>::empty());
        assert(f@.frames =~= Map::<u64, Seq<char>>::empty());
        f
    }

    fn top_kind(&self) -> (k: Option<TagKind>)
        ensures
            k == (match top(self@) {
                None => None,
                Some(t) => Some(kind_of(t)),
            }),
    {
        let n = self.tags.len();
        if n == 0 {
            None
        } else {
            assert(self@.tags.last() == self.tags@[n - 1]@);
            Some(self.tags[n - 1].kind())
        }
    }

    fn has_backtrace(&self, id: u64) -> (b: bool)
        ensures
            b == self@.backtraces.contains_key(id),
    {
        broadcast use vstd::std_specs::btree::group_btree_axioms, vstd::laws_cmp::group_laws_cmp;
        self.backtraces.contains_key(&id)
    }

    fn has_frame(&self, id: u64) -> (b: bool)
        ensures
            b == self@.frames.contains_key(id),
    {
        broadcast use vstd::std_specs::btree::group_btree_axioms, vstd::laws_cmp::group_laws_cmp;
        self.frames.contains_key(&id)
    }

    /// Registers a backtrace; tells whether its id was registered already.
    fn register_backtrace(&mut self, id: u64, frames: Vec<u64>) -> (was: bool)
        ensures
            final(self)@ == with_backtrace(old(self)@, id, frames@),
            was == old(self)@.backtraces.contains_key(id),
    {
        broadcast use vstd::std_specs::btree::group_btree_axioms, vstd::laws_cmp::group_laws_cmp;
        let ghost v = frames@;
        let prev = self.backtraces.insert(id, frames);
        assert(final(self)@.backtraces =~= old(self)@.backtraces.insert(id, v));
        prev.is_some()
    }

    /// Registers a frame; tells whether its id was registered already.
    fn register_frame(&mut self, id: u64, name: String) -> (was: bool)
        ensures
            final(self)@ == with_frame(old(self)@, id, name@),
            was == old(self)@.frames.contains_key(id),
    {
        broadcast use vstd::std_specs::btree::group_btree_axioms, vstd::laws_cmp::group_laws_cmp;
        let ghost v = name@;
        let prev = self.frames.insert(id, name);
        assert(final(self)@.frames =~= old(self)@.frames.insert(id, v));
        prev.is_some()
    }

    fn push_tag(&mut self, t: CurrentTag)
        ensures
            final(self)@ == pushed(old(self)@, t@),
    {
        self.tags.push(t);
        assert(final(self)@.tags =~= old(self)@.tags.push(t@));
    }

    fn pop_tag(&mut self) -> (t: CurrentTag)
        requires
            old(self)@.tags.len() > 0,
        ensures
            final(self)@ == popped(old(self)@),
            t@ == old(self)@.tags.last(),
    {
        let ghost n = self.tags@.len();
        match self.tags.pop() {
            Some(t) => {
                assert(final(self)@.tags =~= old(self)@.tags.drop_last());
                t
            },
            None => {
                assert(false);
                CurrentTag::Row { backtrace: None }
            },
        }
    }
}

pub open spec fn unit_outcome(r: Result<(), XctraceError>) -> Result<Option<Seq<Seq<u64>>>, XctraceErrorSpec> {
    match r {
        Ok(()) => Ok(None),
        Err(e) => Err(e@),
    }
}

impl Folder {
    fn on_start(&mut self, name: &str, attrs: &[(String, String)]) -> (r: Result<(), XctraceError>)
        ensures
            (final(self)@, unit_outcome(r)) == start_step(old(self)@, name@, pairs_view(attrs@)),
    {
        let tk = tag_kind_of(name);
        let top = self.top_kind();
        match (top, tk) {
            (None, Some(TagKind::TraceQueryResult)) => {
                let v: Vec<Vec<u64>> = Vec::new();
                assert(nested_view(v@) =~= Seq::<Seq<u64>>::empty());
                let t = CurrentTag::TraceQueryResult { nodes: v };
                self.push_tag(t);
                Ok(())
            },
            (Some(TagKind::TraceQueryResult), Some(TagKind::Node)) => {
                let t = CurrentTag::Node { rows: Vec::new() };
                self.push_tag(t);
                Ok(())
            },
            (Some(TagKind::Node), Some(TagKind::Row)) => {
                self.push_tag(CurrentTag::Row { backtrace: None });
                Ok(())
            },
            (Some(TagKind::Row), Some(TagKind::Backtrace)) => {
                let id = match number_attr(attrs, AttrKey::Id) {
                    Ok(id) => id,
                    Err(e) => return Err(e),
                };
                self.push_tag(CurrentTag::Backtrace { id, frames: Vec::new() });
                Ok(())
            },
            (Some(TagKind::Backtrace), Some(TagKind::Frame)) => {
                let (id, n) = match frame_attrs(attrs) {
                    Ok(x) => x,
                    Err(e) => return Err(e),
                };
                self.push_tag(CurrentTag::Frame { id, name: n });
                Ok(())
            },
            _ => Ok(()),
        }
    }

    fn on_end(&mut self, name: &str) -> (r: Result<Option<Vec<Vec<u64>>>, XctraceError>)
        ensures
            (final(self)@, outcome_view(r)) == end_step(old(self)@, name@),
    {
        let k = match tag_kind_of(name) {
            None => return Ok(None),
            Some(k) => k,
        };
        let n = self.tags.len();
        if n == 0 || self.tags[n - 1].kind() != k {
            proof {
                if n > 0 {
                    assert(self@.tags.last() == self.tags@[n - 1]@);
                }
            }
            return Err(XctraceError::UnpairedTag(k));
        }
        assert(self@.tags.last() == self.tags@[n - 1]@);
        let closed = self.pop_tag();
        let parent = self.top_kind();
        match closed {
            CurrentTag::TraceQueryResult { nodes } => {
                if parent.is_none() {
                    Ok(Some(nodes))
                } else {
                    Ok(None)
                }
            },
            CurrentTag::Node { rows } => {
                if parent == Some(TagKind::TraceQueryResult) {
                    match self.pop_tag() {
                        CurrentTag::TraceQueryResult { mut nodes } => {
                            let ghost before = nodes@;
                            let ghost rv = rows@;
                            nodes.push(rows);
                            assert(nested_view(nodes@) =~= nested_view(before).push(rv));
                            self.push_tag(CurrentTag::TraceQueryResult { nodes });
                        },
                        _ => {
                            assert(false);
                        },
                    }
                }
                Ok(None)
            },
            CurrentTag::Row { backtrace } => {
                if parent == Some(TagKind::Node) {
                    match self.pop_tag() {
                        CurrentTag::Node { mut rows } => {
                            match backtrace {
                                Some(b) => rows.push(b),
                                None => {},
                            }
                            self.push_tag(CurrentTag::Node { rows });
                        },
                        _ => {
                            assert(false);
                        },
                    }
                }
                Ok(None)
            },
            CurrentTag::Backtrace { id, frames } => {
                if parent == Some(TagKind::Row) {
                    let was = self.register_backtrace(id, frames);
                    if was {
                        return Err(XctraceError::RepeatedBacktraceId(id));
                    }
                    let _ = self.pop_tag();
                    self.push_tag(CurrentTag::Row { backtrace: Some(id) });
                }
                Ok(None)
            },
            CurrentTag::Frame { id, name } => {
                if parent == Some(TagKind::Backtrace) {
                    let was = self.register_frame(id, name);
                    if was {
                        return Err(XctraceError::RepeatedFrameId(id));
                    }
                    match self.pop_tag() {
                        CurrentTag::Backtrace { id: bid, mut frames } => {
                            frames.push(id);
                            self.push_tag(CurrentTag::Backtrace { id: bid, frames });
                        },
                        _ => {
                            assert(false);
                        },
                    }
                }
                Ok(None)
            },
        }
    }
}

impl Folder {
    fn on_empty(&mut self, name: &str, attrs: &[(String, String)]) -> (r: Result<(), XctraceError>)
        ensures
            (final(self)@, unit_outcome(r)) == empty_step(old(self)@, name@, pairs_view(attrs@)),
    {
        let tk = tag_kind_of(name);
        let top = self.top_kind();
        match (top, tk) {
            (Some(TagKind::Row), Some(TagKind::Backtrace)) => {
                match number_attr(attrs, AttrKey::Ref) {
                    Ok(r) => {
                        if !self.has_backtrace(r) {
                            return Err(XctraceError::InvalidBacktraceRef(r));
                        }
                        let _ = self.pop_tag();
                        self.push_tag(CurrentTag::Row { backtrace: Some(r) });
                        Ok(())
                    },
                    Err(_) => match number_attr(attrs, AttrKey::Id) {
                        Ok(id) => {
                            let v: Vec<u64> = Vec::new();
                            assert(v@ =~= Seq::<u64>::empty());
                            let was = self.register_backtrace(id, v);
                            if was {
                                return Err(XctraceError::RepeatedBacktraceId(id));
                            }
                            let _ = self.pop_tag();
                            self.push_tag(CurrentTag::Row { backtrace: Some(id) });
                            Ok(())
                        },
                        Err(_) => Err(XctraceError::BacktraceWithoutId),
                    },
                }
            },
            (Some(TagKind::Backtrace), Some(TagKind::Frame)) => {
                let fid = match number_attr(attrs, AttrKey::Ref) {
                    Ok(r) => {
                        if !self.has_frame(r) {
                            return Err(XctraceError::InvalidFrameRef(r));
                        }
                        r
                    },
                    Err(_) => match frame_attrs(attrs) {
                        Ok((id, n)) => {
                            let was = self.register_frame(id, n);
                            if was {
                                return Err(XctraceError::RepeatedFrameId(id));
                            }
                            id
                        },
                        Err(_) => return Err(XctraceError::FrameWithoutId),
                    },
                };
                match self.pop_tag() {
                    CurrentTag::Backtrace { id: bid, mut frames } => {
                        frames.push(fid);
                        self.push_tag(CurrentTag::Backtrace { id: bid, frames });
                    },
                    _ => {
                        assert(false);
                    },
                }
                Ok(())
            },
            _ => Ok(()),
        }
    }

    /// Takes in one event of the document. Returns the backtrace ids of the rows, node by node,
    /// once the root tag closes, and `None` until then.
    pub fn on_event(&mut self, event: XmlEvent) -> (r: Result<Option<Vec<Vec<u64>>>, XctraceError>)
        requires
            folder_ok(old(self)@),
        ensures
            folder_ok(final(self)@),
            (final(self)@, outcome_view(r)) == xml_step(old(self)@, event@),
            r matches Ok(Some(n)) ==> rows_known(final(self)@, rows_of(nested_view(n@))),
    {
        proof {
            lemma_step_keeps_ok(self@, event@);
            lemma_finished_rows_known(self@, event@);
        }
        match event {
            XmlEvent::Start { name, attributes } => {
                match self.on_start(name.as_str(), attributes.as_slice()) {
                    Ok(()) => Ok(None),
                    Err(e) => Err(e),
                }
            },
            XmlEvent::End { name } => self.on_end(name.as_str()),
            XmlEvent::Empty { name, attributes } => {
                match self.on_empty(name.as_str(), attributes.as_slice()) {
                    Ok(()) => Ok(None),
                    Err(e) => Err(e),
                }
            },
            XmlEvent::Other => Ok(None),
            XmlEvent::Eof => Err(XctraceError::UnexpectedEof),
        }
    }
}

/// Every event keeps the state of a collapse well formed: the open tags nest as the document
/// format has them, and every id they hold is registered.
pub proof fn lemma_step_keeps_ok(st: FolderSpec, ev: EventSpec)
    requires
        folder_ok(st),
    ensures
        folder_ok(xml_step(st, ev).0),
{
    let next = xml_step(st, ev).0;
    assert(st.backtraces.dom().subset_of(next.backtraces.dom()));
    assert(st.frames.dom().subset_of(next.frames.dom()));
    lemma_tags_known_grow(st, next.backtraces, next.frames);
    match ev {
        EventSpec::Start { name, attributes } => {
            let n = st.tags.len();
            if next.tags.len() == n + 1 {
                assert(next.tags.drop_last() =~= st.tags);
                assert forall|i: int| 0 <= i < next.tags.len() implies kind_of(#[trigger] next.tags[i]) == kind_at(i) by {
                    if i < n {
                        assert(next.tags[i] == st.tags[i]);
                    }
                }
                assert forall|i: int| 0 <= i < next.tags.len() implies ids_known(#[trigger] next.tags[i], next.backtraces, next.frames) by {
                    if i < n {
                        assert(next.tags[i] == st.tags[i]);
                    } else {
                        if let TagSpec::TraceQueryResult { nodes } = next.tags[i] {
                            assert(nodes.len() == 0);
                        }
                    }
                }
            } else {
                assert(next == st);
            }
        },
        EventSpec::End { name } => {
            lemma_end_keeps_ok(st, name);
        },
        EventSpec::Empty { name, attributes } => {
            lemma_empty_keeps_ok(st, name, attributes);
        },
        EventSpec::Other => {},
        EventSpec::Eof => {},
    }
}

proof fn lemma_end_keeps_ok(st: FolderSpec, name: Seq<char>)
    requires
        folder_ok(st),
    ensures
        folder_ok(end_step(st, name).0),
{
    let next = end_step(st, name).0;
    let n = st.tags.len();
    match tag_kind(name) {
        None => {},
        Some(k) => {
            if n == 0 || kind_of(st.tags.last()) != k {
            } else {
                let p = popped(st);
                assert(p.tags =~= st.tags.drop_last());
                let closed = st.tags.last();
                assert(kind_of(closed) == kind_at(n - 1));
                assert(ids_known(closed, st.backtraces, st.frames));
                if n >= 2 {
                    let parent = st.tags[n - 2];
                    assert(kind_of(parent) == kind_at(n - 2));
                    assert(ids_known(parent, st.backtraces, st.frames));
                    assert(p.tags.last() == parent);
                }
                lemma_tags_known_grow(p, next.backtraces, next.frames);
                if next.tags.len() == n - 1 && n >= 2 {
                    assert(next.tags.drop_last() =~= p.tags.drop_last());
                    assert forall|i: int| 0 <= i < next.tags.len() implies kind_of(#[trigger] next.tags[i]) == kind_at(i) by {
                        if i < n - 2 {
                            assert(next.tags[i] == st.tags[i]);
                        }
                    }
                    assert forall|i: int| 0 <= i < next.tags.len() implies ids_known(#[trigger] next.tags[i], next.backtraces, next.frames) by {
                        if i < n - 2 {
                            assert(next.tags[i] == p.tags[i]);
                        } else {
                            let parent = st.tags[n - 2];
                            lemma_ids_known_grow(parent, st.backtraces, st.frames, next.backtraces, next.frames);
                            lemma_ids_known_grow(closed, st.backtraces, st.frames, next.backtraces, next.frames);
                            match (parent, closed) {
                                (TagSpec::TraceQueryResult { nodes }, TagSpec::Node { rows }) => {
                                    let nn = nodes.push(rows);
                                    assert forall|a: int, b: int| 0 <= a < nn.len() && 0 <= b < nn[a].len() implies next.backtraces.contains_key(
                                        #[trigger] nn[a][b],
                                    ) by {
                                        if a < nodes.len() {
                                            assert(nn[a] == nodes[a]);
                                        } else {
                                            assert(nn[a] == rows);
                                        }
                                    }
                                },
                                (TagSpec::Node { rows }, TagSpec::Row { backtrace }) => {
                                    if let Some(b) = backtrace {
                                        let nr = rows.push(b);
                                        assert forall|j: int| 0 <= j < nr.len() implies next.backtraces.contains_key(#[trigger] nr[j]) by {
                                            if j < rows.len() {
                                                assert(nr[j] == rows[j]);
                                            }
                                        }
                                    }
                                },
                                (TagSpec::Backtrace { id: bid, frames }, TagSpec::Frame { id, name }) => {
                                    let nf = frames.push(id);
                                    assert forall|j: int| 0 <= j < nf.len() implies next.frames.contains_key(#[trigger] nf[j]) by {
                                        if j < frames.len() {
                                            assert(nf[j] == frames[j]);
                                        }
                                    }
                                },
                                _ => {},
                            }
                        }
                    }
                } else if next.tags.len() == n - 1 {
                    assert(next.tags =~= p.tags);
                } 
                // Registering a backtrace whose frames are all registered keeps `frames_known`.
                if let TagSpec::Backtrace { id, frames } = closed {
                    assert forall|b: u64, j: int|
                        #![trigger next.backtraces[b][j]]
                        next.backtraces.contains_key(b) && 0 <= j < next.backtraces[b].len() implies next.frames.contains_key(
                            next.backtraces[b][j],
                        ) by {
                        if b != id {
                            assert(st.backtraces[b][j] == next.backtraces[b][j]);
                        } else {
                            assert(next.backtraces[b] == frames || next.backtraces == st.backtraces);
                        }
                    }
                }
            }
        },
    }
}

proof fn lemma_empty_keeps_ok(st: FolderSpec, name: Seq<char>, attrs: Seq<(Seq<char>, Seq<char>)>)
    requires
        folder_ok(st),
    ensures
        folder_ok(empty_step(st, name, attrs).0),
{
    let next = empty_step(st, name, attrs).0;
    let n = st.tags.len();
    lemma_tags_known_grow(st, next.backtraces, next.frames);
    if next.tags != st.tags {
        assert(n > 0);
        let t = st.tags.last();
        assert(next.tags.drop_last() =~= st.tags.drop_last());
        assert forall|i: int| 0 <= i < next.tags.len() implies kind_of(#[trigger] next.tags[i]) == kind_at(i) by {
            if i < n - 1 {
                assert(next.tags[i] == st.tags[i]);
            }
        }
        assert(ids_known(t, st.backtraces, st.frames));
        lemma_ids_known_grow(t, st.backtraces, st.frames, next.backtraces, next.frames);
        assert forall|i: int| 0 <= i < next.tags.len() implies ids_known(#[trigger] next.tags[i], next.backtraces, next.frames) by {
            if i < n - 1 {
                assert(next.tags[i] == st.tags[i]);
            } else {
                if let TagSpec::Backtrace { id: bid, frames } = t {
                    if let TagSpec::Backtrace { id: bid2, frames: nf } = next.tags[i] {
                        assert forall|j: int| 0 <= j < nf.len() implies next.frames.contains_key(#[trigger] nf[j]) by {
                            if j < frames.len() {
                                assert(nf[j] == frames[j]);
                            }
                        }
                    }
                }
            }
        }
    }
    assert forall|b: u64, j: int|
        #![trigger next.backtraces[b][j]]
        next.backtraces.contains_key(b) && 0 <= j < next.backtraces[b].len() implies next.frames.contains_key(
            next.backtraces[b][j],
        ) by {
        if st.backtraces.contains_key(b) && next.backtraces[b] == st.backtraces[b] {
            assert(st.frames.contains_key(st.backtraces[b][j]));
        }
    }
}

// ------------------------------------------------------------------
// Folding the rows into stack lines
// ------------------------------------------------------------------

/// The folded stack of the frames `ids[k..]`: from the last frame to frame `k` (outermost
/// first), each name repaired, joined by `;`.
pub open spec fn folded_frames(frs: Map<u64, Seq<char>>, ids: Seq<u64>, k: int) -> Seq<char>
    decreases ids.len() - k,
{
    if k < 0 || k >= ids.len() {
        Seq::empty()
    } else if k == ids.len() - 1 {
        fixed_symbol(frs[ids[k]])
    } else {
        folded_frames(frs, ids, k + 1) + seq![';'] + fixed_symbol(frs[ids[k]])
    }
}

/// The folded stack of a backtrace.
pub open spec fn resolve(st: FolderSpec, b: u64) -> Seq<char> {
    folded_frames(st.frames, st.backtraces[b], 0)
}

/// The backtrace ids of all rows, node after node.
pub open spec fn rows_of(nodes: Seq<Seq<u64>>) -> Seq<u64>
    decreases nodes.len(),
{
    if nodes.len() == 0 {
        Seq::empty()
    } else {
        rows_of(nodes.drop_last()) + nodes.last()
    }
}

/// How many of the first `k` rows fold to each stack.
pub open spec fn stack_counts(st: FolderSpec, rows: Seq<u64>, k: int) -> Map<Seq<char>, usize>
    decreases k,
{
    if k <= 0 {
        Map::empty()
    } else {
        let m = stack_counts(st, rows, k - 1);
        let s = resolve(st, rows[k - 1]);
        m.insert(s, added_count(m, s, 1) as usize)
    }
}

/// Every row refers to a registered backtrace.
pub open spec fn rows_known(st: FolderSpec, rows: Seq<u64>) -> bool {
    forall|j: int| 0 <= j < rows.len() ==> st.backtraces.contains_key(#[trigger] rows[j])
}

impl Folder {
    /// The frame ids of a registered backtrace.
    fn backtrace_frames(&self, b: u64) -> (r: &Vec<u64>)
        requires
            self@.backtraces.contains_key(b),
        ensures
            r@ == self@.backtraces[b],
    {
        broadcast use vstd::std_specs::btree::group_btree_axioms, vstd::laws_cmp::group_laws_cmp;
        match self.backtraces.get(&b) {
            Some(v) => v,
            None => {
                assert(false);
                unreached()
            },
        }
    }

    /// The name of a registered frame.
    fn frame_name(&self, f: u64) -> (r: &String)
        requires
            self@.frames.contains_key(f),
        ensures
            r@ == self@.frames[f],
    {
        broadcast use vstd::std_specs::btree::group_btree_axioms, vstd::laws_cmp::group_laws_cmp;
        match self.frames.get(&f) {
            Some(v) => v,
            None => {
                assert(false);
                unreached()
            },
        }
    }

    /// The folded stack of a registered backtrace: its frames from the outermost in, each
    /// name repaired, joined by `;`.
    pub fn resolve(&self, b: u64) -> (r: String)
        requires
            folder_ok(self@),
            self@.backtraces.contains_key(b),
        ensures
            r@ == resolve(self@, b),
    {
        let ids = self.backtrace_frames(b);
        let ghost frs = self@.frames;
        let n = ids.len();
        let mut out: Vec<char> = Vec::new();
        let mut i: usize = n;
        while i > 0
            invariant
                folder_ok(self@),
                self@.backtraces.contains_key(b),
                ids@ == self@.backtraces[b],
                frs == self@.frames,
                n == ids@.len(),
                i <= n,
                out@ == folded_frames(frs, ids@, i as int),
            decreases i,
        {
            let k = i - 1;
            assert(frs.contains_key(ids@[k as int]));
            let name = self.frame_name(ids[k]);
            let fixed = fix_partially_demangled_rust_symbol(name.as_str());
            if i < n {
                out.push(';');
            }
            push_str(&mut out, fixed.as_str());
            i = k;
        }
        string_from_chars(out.as_slice())
    }
}

/// The rows handed out when the root tag closes all refer to registered backtraces.
pub proof fn lemma_finished_rows_known(st: FolderSpec, ev: EventSpec)
    requires
        folder_ok(st),
    ensures
        xml_step(st, ev).1 matches Ok(Some(nodes)) ==> rows_known(xml_step(st, ev).0, rows_of(nodes)),
{
    if let Ok(Some(nodes)) = xml_step(st, ev).1 {
        let next = xml_step(st, ev).0;
        assert(st.tags.len() == 1);
        assert(ids_known(st.tags[0], st.backtraces, st.frames));
        assert(st.tags[0] == TagSpec::TraceQueryResult { nodes });
        assert(next.backtraces == st.backtraces);
        assert forall|j: int| 0 <= j < rows_of(nodes).len() implies next.backtraces.contains_key(
            #[trigger] rows_of(nodes)[j],
        ) by {
            lemma_rows_of_member(nodes, j);
            let (a, b) = choose|a: int, b: int| 0 <= a < nodes.len() && 0 <= b < nodes[a].len() && #[trigger] nodes[a][b] == rows_of(nodes)[j];
        }
    }
}

/// The rows of all nodes, in order.
fn flat_rows(nodes: &[Vec<u64>]) -> (r: Vec<u64>)
    ensures
        r@ == rows_of(nested_view(nodes@)),
{
    let ghost nv = nested_view(nodes@);
    let mut flat: Vec<u64> = Vec::new();
    let mut i: usize = 0;
    assert(nv.take(0) =~= Seq::<Seq<u64>>::empty());
    while i < nodes.len()
        invariant
            i <= nodes@.len(),
            nv == nested_view(nodes@),
            flat@ == rows_of(nv.take(i as int)),
        decreases nodes.len() - i,
    {
        let row = &nodes[i];
        let ghost before = flat@;
        let mut j: usize = 0;
        while j < row.len()
            invariant
                j <= row@.len(),
                flat@ == before + row@.take(j as int),
            decreases row.len() - j,
        {
            flat.push(row[j]);
            j += 1;
            assert(row@.take(j as int) =~= row@.take(j - 1).push(row@[j - 1]));
        }
        proof {
            assert(row@.take(row@.len() as int) =~= row@);
            assert(nv.take(i + 1).drop_last() =~= nv.take(i as int));
            assert(nv[i as int] == row@);
            assert(flat@ =~= rows_of(nv.take(i + 1)));
        }
        i += 1;
    }
    assert(nv.take(nv.len() as int) =~= nv);
    flat
}

/// Each row of `rows_of(nodes)` is a row of some node.
proof fn lemma_rows_of_member(nodes: Seq<Seq<u64>>, j: int)
    requires
        0 <= j < rows_of(nodes).len(),
    ensures
        exists|a: int, b: int| 0 <= a < nodes.len() && 0 <= b < nodes[a].len() && #[trigger] nodes[a][b] == rows_of(nodes)[j],
    decreases nodes.len(),
{
    let init = nodes.drop_last();
    let k = rows_of(init).len();
    if j < k {
        lemma_rows_of_member(init, j);
        let (a, b) = choose|a: int, b: int| 0 <= a < init.len() && 0 <= b < init[a].len() && #[trigger] init[a][b] == rows_of(init)[j];
        assert(nodes[a] == init[a]);
        assert(nodes[a][b] == rows_of(nodes)[j]);
    } else {
        let a = nodes.len() - 1;
        assert(nodes[a][j - k] == rows_of(nodes)[j]);
    }
}

impl Folder {
    /// Folds the rows of a document: one line `stack count` per distinct stack, in increasing
    /// order of stack, where the count is the number of rows whose backtrace folds to that
    /// stack.
    pub fn folded_text(&self, nodes: &[Vec<u64>]) -> (r: String)
        requires
            folder_ok(self@),
            rows_known(self@, rows_of(nested_view(nodes@))),
        ensures
            exists|e: Seq<(Seq<char>, usize)>| {
                &&& sorted_keys(e)
                &&& keyed_map(e) == stack_counts(
                    self@,
                    rows_of(nested_view(nodes@)),
                    rows_of(nested_view(nodes@)).len() as int,
                )
                &&& r@ == count_lines(e)
            },
    {
        let rows = flat_rows(nodes);
        let mut occ = Occurrences::new();
        assert(occ@ =~= stack_counts(self@, rows@, 0));
        let mut k: usize = 0;
        while k < rows.len()
            invariant
                folder_ok(self@),
                rows@ == rows_of(nested_view(nodes@)),
                rows_known(self@, rows@),
                k <= rows@.len(),
                occ@ == stack_counts(self@, rows@, k as int),
                forall|s: Seq<char>| occ@.contains_key(s) ==> #[trigger] occ@[s] <= k,
            decreases rows.len() - k,
        {
            let b = rows[k];
            assert(self@.backtraces.contains_key(b));
            let s = self.resolve(b);
            let ghost before = occ@;
            occ.insert_or_add(s, 1);
            proof {
                assert(rows@[k as int] == b);
            }
            k += 1;
        }
        occ.write_and_clear()
    }
}

/// What collapsing a document does from its `k`-th event on, with at most `fuel` more events:
/// the collapser at the end and either the rows of the document's nodes, once the root tag
/// closes, or the error that stopped it (the reader's, or the collapser's).
pub open spec fn xml_outcome(st: FolderSpec, text: Seq<char>, k: int, fuel: nat) -> (
    FolderSpec,
    Result<Seq<u64>, XctraceErrorSpec>,
)
    decreases fuel,
{
    if fuel == 0 {
        (st, Err(XctraceErrorSpec::UnexpectedEof))
    } else {
        match xml_event_at(text, k) {
            None => (st, Err(XctraceErrorSpec::BadXml)),
            Some(ev) => {
                let (next, o) = xml_step(st, ev);
                match o {
                    Err(e) => (next, Err(e)),
                    Ok(None) => xml_outcome(next, text, k + 1, (fuel - 1) as nat),
                    Ok(Some(nodes)) => (next, Ok(rows_of(nodes))),
                }
            },
        }
    }
}

/// The events a document can have: every event but the last (the end of the document)
/// takes at least one byte of its text.
pub open spec fn event_budget(text: &str) -> nat {
    (text.len() + 1) as nat
}

impl Folder {
    /// Collapses an xctrace document: reads its events in order into the collapser, as
    /// [`Folder::on_event`] takes them, and once the root tag closes folds the rows of the
    /// document's nodes into lines `stack count`, in increasing order of stack, where the count
    /// is the number of rows whose backtrace folds to that stack. The errors are those of
    /// `on_event`, and [`XctraceError::BadXml`] where the XML reader reports the text
    /// malformed.
    pub fn collapse_text(&mut self, text: &str) -> (r: Result<String, XctraceError>)
        requires
            folder_ok(old(self)@),
        ensures
            folder_ok(final(self)@),
            final(self)@ == xml_outcome(old(self)@, text@, 0, event_budget(text)).0,
            match xml_outcome(old(self)@, text@, 0, event_budget(text)).1 {
                Err(e) => r matches Err(x) && x@ == e,
                Ok(rows) => r matches Ok(out) && exists|e: Seq<(Seq<char>, usize)>| {
                    &&& sorted_keys(e)
                    &&& keyed_map(e) == stack_counts(final(self)@, rows, rows.len() as int)
                    &&& out@ == count_lines(e)
                },
            },
    {
        let mut events = XmlEvents::new(text);
        let limit: u128 = text.len() as u128 + 1;
        let mut steps: u128 = 0;
        let ghost budget = event_budget(text);
        assert(budget == limit);
        loop
            invariant
                folder_ok(self@),
                budget == event_budget(text),
                budget == limit,
                steps <= limit,
                events.text() == text@,
                events.position() == steps,
                xml_outcome(old(self)@, text@, 0, budget) == xml_outcome(self@, text@, steps as int, (limit - steps) as nat),
            decreases limit - steps,
        {
            if steps >= limit {
                return Err(XctraceError::UnexpectedEof);
            }
            let ghost k = events.position();
            let event = match events.next_event() {
                Some(e) => e,
                None => return Err(XctraceError::BadXml),
            };
            steps = steps + 1;
            proof { lemma_finished_rows_known(self@, event@); }
            match self.on_event(event) {
                Err(e) => return Err(e),
                Ok(None) => {},
                Ok(Some(nodes)) => {
                    let out = self.folded_text(nodes.as_slice());
                    return Ok(out);
                },
            }
        }
    }
}

impl Folder {
    /// Whether the input looks like xctrace output: `Some(true)` once it holds both an XML
    /// declaration and the root tag `trace-query-result`, `None` (not sure) otherwise.
    pub fn is_applicable(&mut self, input: &str) -> (r: Option<bool>)
        ensures
            final(self)@ == old(self)@,
            r == (if contains(input@, "<?xml version=\"1.0\""@) && contains(input@, "<trace-query-result"@) {
                Some(true)
            } else {
                None
            }),
    {
        let text = chars_of(input);
        let decl = chars_of("<?xml version=\"1.0\"");
        let root = chars_of("<trace-query-result");
        if contains_chars(text.as_slice(), decl.as_slice()) && contains_chars(text.as_slice(), root.as_slice()) {
            Some(true)
        } else {
            None
        }
    }
}

} // verus!
