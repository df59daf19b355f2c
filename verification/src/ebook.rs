//! The author recorded in an e-book: the OPF path and `dc:creator` of an EPUB,
//! the `Writer` of a comic's `ComicInfo.xml`, and the author marker in MOBI data.
use vstd::prelude::*;
use quick_xml::events::Event;
use crate::metadata::{MediaMetadata, normalize_author, normalized_author, ext_lower};
use crate::paths::extension_of;
use crate::text::{chars_of, string_of, str_eq, alphanumeric, char_is_alphanumeric, find_from, occurs_at, trim, trim_start_by, trim_ws, ascii_lower_seq};

verus! {

/// One event of an XML reader: a start tag (its name and its whole content, name
/// and attributes), an empty-element tag, text, an end tag, or anything else.
#[derive(Debug, Clone)]
pub enum XmlEvent {
    Start(String, String),
    Empty(String, String),
    Text(String),
    End,
    Other,
}

/// An event as plain values: a kind (0 start, 1 empty, 2 text, 3 end, 4 other)
/// and two character sequences (name and content of a tag, or the text).
impl View for XmlEvent {
    type V = (u8, Seq<char>, Seq<char>);

    open spec fn view(&self) -> (u8, Seq<char>, Seq<char>) {
        match self {
            XmlEvent::Start(n, c) => (0u8, n@, c@),
            XmlEvent::Empty(n, c) => (1u8, n@, c@),
            XmlEvent::Text(t) => (2u8, t@, seq![]),
            XmlEvent::End => (3u8, seq![], seq![]),
            XmlEvent::Other => (4u8, seq![], seq![]),
        }
    }
}

pub open spec fn event_views(v: Seq<XmlEvent>) -> Seq<(u8, Seq<char>, Seq<char>)> {
    Seq::new(v.len(), |i: int| v[i]@)
}

/// The events that `quick_xml::Reader::from_str(xml)` reads, with `trim_text` set as
/// given, up to the end of the document; the flag tells whether the end was
/// reached (false when the reader reported an error first).
pub uninterp spec fn xml_event_list(xml: Seq<char>, trim_text: bool) -> (Seq<(u8, Seq<char>, Seq<char>)>, bool);

/// Reads every event of `xml` with `quick_xml::Reader::read_event` until the end of
/// the document or an error. The result is what `xml_event_list` names.
/// Left unsaid: that the call returns on every input. The quick-xml source keeps
/// `unwrap`, `expect` and `panic!` sites on its parsing paths, and neither it nor
/// its documentation names a class of inputs that stays clear of them, so no
/// input is named here as one the parser is known not to panic on, and no
/// `requires` excludes the inputs on which it might.
#[verifier::external_body]
fn read_xml_events(xml: &str, trim_text: bool) -> (r: (Vec<XmlEvent>, bool))
    ensures
        (event_views(r.0@), r.1) == xml_event_list(xml@, trim_text),
{
    let mut reader = quick_xml::Reader::from_str(xml);
    reader.config_mut().trim_text(trim_text);
    let mut events = Vec::new();
    loop {
        events.push(match reader.read_event() {
            Ok(Event::Start(e)) => XmlEvent::Start(e.name().0.to_owned(), (*e).to_owned()),
            Ok(Event::Empty(e)) => XmlEvent::Empty(e.name().0.to_owned(), (*e).to_owned()),
            Ok(Event::Text(t)) => XmlEvent::Text((*t).to_owned()),
            Ok(Event::End(_)) => XmlEvent::End,
            Ok(Event::Eof) => return (events, true),
            Ok(_) => XmlEvent::Other,
            Err(_) => return (events, false),
        });
    }
}

/// The attributes (key and raw value) that `BytesStart::attributes` yields for a
/// start tag with this content and name, the malformed ones left out.
pub uninterp spec fn xml_attribute_list(content: Seq<char>, name: Seq<char>) -> Seq<(Seq<char>, Seq<char>)>;

/// `BytesStart::from_content(content, name.len()).attributes()`, keeping the
/// attributes that parse. The result is what `xml_attribute_list` names.
/// Left unsaid: that the call returns on every input. The quick-xml source keeps
/// `unwrap`, `expect` and `panic!` sites on its parsing paths, and neither it nor
/// its documentation names a class of inputs that stays clear of them, so no
/// input is named here as one the parser is known not to panic on, and no
/// `requires` excludes the inputs on which it might.
#[verifier::external_body]
fn read_xml_attributes(content: &str, name: &str) -> (r: Vec<(String, String)>)
    requires
        name@.len() <= content@.len(),
        content@.take(name@.len() as int) == name@,
    ensures
        Seq::new(r@.len(), |i: int| (r@[i].0@, r@[i].1@)) == xml_attribute_list(content@, name@),
{
    let tag = quick_xml::events::BytesStart::from_content(content, name.len());
    tag.attributes().flatten().map(|a| (a.key.0.to_owned(), a.value.into_owned())).collect()
}

// ----------------------------------------------------------------- opf path

/// The value of the first attribute named `key`.
pub open spec fn attribute_value(attrs: Seq<(Seq<char>, Seq<char>)>, key: Seq<char>) -> Option<Seq<char>>
    decreases attrs.len(),
{
    if attrs.len() == 0 {
        None
    } else if attrs[0].0 == key {
        Some(attrs[0].1)
    } else {
        attribute_value(attrs.drop_first(), key)
    }
}

/// The `full-path` of a `rootfile` tag (start or empty) at event `k`.
pub open spec fn rootfile_path(e: (u8, Seq<char>, Seq<char>)) -> Option<Seq<char>> {
    if (e.0 == 0 || e.0 == 1) && e.1 == "rootfile"@ && e.1.len() <= e.2.len() && e.2.take(e.1.len() as int) == e.1 {
        attribute_value(xml_attribute_list(e.2, e.1), "full-path"@)
    } else {
        None
    }
}

/// The first `full-path` of a `rootfile` tag among the events from `k` on.
pub open spec fn opf_path_from(events: Seq<(u8, Seq<char>, Seq<char>)>, k: int) -> Option<Seq<char>>
    decreases events.len() - k,
{
    if k < 0 || k >= events.len() {
        None
    } else if rootfile_path(events[k]) is Some {
        rootfile_path(events[k])
    } else {
        opf_path_from(events, k + 1)
    }
}

fn attribute_of(attrs: &Vec<(String, String)>, key: &str) -> (r: Option<String>)
    ensures
        match r {
            Some(v) => attribute_value(Seq::new(attrs@.len(), |i: int| (attrs@[i].0@, attrs@[i].1@)), key@) == Some(v@),
            None => attribute_value(Seq::new(attrs@.len(), |i: int| (attrs@[i].0@, attrs@[i].1@)), key@) is None,
        },
{
    let ghost all = Seq::new(attrs@.len(), |i: int| (attrs@[i].0@, attrs@[i].1@));
    let mut i: usize = 0;
    assert(all.skip(0) =~= all);
    while i < attrs.len()
        invariant
            i <= attrs.len(),
            all == Seq::new(attrs@.len(), |i: int| (attrs@[i].0@, attrs@[i].1@)),
            attribute_value(all, key@) == attribute_value(all.skip(i as int), key@),
        decreases attrs.len() - i,
    {
        assert(all.skip(i as int).drop_first() =~= all.skip(i + 1));
        if str_eq(attrs[i].0.as_str(), key) {
            return Some(attrs[i].1.clone());
        }
        i = i + 1;
    }
    None
}

fn rootfile_value(e: &XmlEvent) -> (r: Option<String>)
    ensures
        match r {
            Some(v) => rootfile_path(e@) == Some(v@),
            None => rootfile_path(e@) is None,
        },
{
    let (name, content) = match e {
        XmlEvent::Start(n, c) => (n, c),
        XmlEvent::Empty(n, c) => (n, c),
        _ => return None,
    };
    if !str_eq(name.as_str(), "rootfile") {
        return None;
    }
    let nv = chars_of(name.as_str());
    let cv = chars_of(content.as_str());
    if nv.len() > cv.len() {
        return None;
    }
    let mut k: usize = 0;
    while k < nv.len()
        invariant
            k <= nv.len() <= cv.len(),
            nv@ == name@,
            cv@ == content@,
            e@.1 == name@,
            e@.2 == content@,
            e@.0 == 0 || e@.0 == 1,
            name@ == "rootfile"@,
            forall|m: int| 0 <= m < k ==> cv@[m] == nv@[m],
        decreases nv.len() - k,
    {
        if cv[k] != nv[k] {
            assert(cv@.take(nv@.len() as int)[k as int] != nv@[k as int]);
            assert(cv@.take(nv@.len() as int) != nv@);
            return None;
        }
        k = k + 1;
    }
    assert(cv@.take(nv@.len() as int) =~= nv@);
    let attrs = read_xml_attributes(content.as_str(), name.as_str());
    attribute_of(&attrs, "full-path")
}

/// The `full-path` of the first `rootfile` tag that has one, among the given events.
pub fn opf_path_in(events: &Vec<XmlEvent>) -> (r: Option<String>)
    ensures
        match r {
            Some(p) => opf_path_from(event_views(events@), 0) == Some(p@),
            None => opf_path_from(event_views(events@), 0) is None,
        },
{
    let ghost ev = event_views(events@);
    let mut i: usize = 0;
    while i < events.len()
        invariant
            i <= events.len(),
            ev == event_views(events@),
            opf_path_from(ev, 0) == opf_path_from(ev, i as int),
        decreases events.len() - i,
    {
        match rootfile_value(&events[i]) {
            Some(p) => return Some(p),
            None => {},
        }
        i = i + 1;
    }
    None
}

/// The path of the OPF package named by an EPUB's `META-INF/container.xml`: the
/// `full-path` of its first `rootfile` tag that has one, read with text trimming.
pub fn find_opf_path(container_xml: &str) -> (r: Option<String>)
    ensures
        match r {
            Some(p) => opf_path_from(xml_event_list(container_xml@, true).0, 0) == Some(p@),
            None => opf_path_from(xml_event_list(container_xml@, true).0, 0) is None,
        },
{
    let (events, _complete) = read_xml_events(container_xml, true);
    opf_path_in(&events)
}

// ------------------------------------------------------------- tagged text

/// Whether a tag name selects its text: it ends with `tag` when `suffix`, else it is `tag`.
pub open spec fn name_selects(name: Seq<char>, tag: Seq<char>, suffix: bool) -> bool {
    if suffix {
        tag.len() <= name.len() && name.skip(name.len() - tag.len()) == tag
    } else {
        name == tag
    }
}

/// Whether, after the given events, the reader is inside a selected element: the
/// latest start tag selected and no end tag came after it.
pub open spec fn inside_selected(events: Seq<(u8, Seq<char>, Seq<char>)>, tag: Seq<char>, suffix: bool) -> bool
    decreases events.len(),
{
    if events.len() == 0 {
        false
    } else {
        let e = events.last();
        if e.0 == 0 {
            name_selects(e.1, tag, suffix)
        } else if e.0 == 3 {
            false
        } else {
            inside_selected(events.drop_last(), tag, suffix)
        }
    }
}

/// The first text, from event `k` on, met inside a selected element.
pub open spec fn selected_text_from(events: Seq<(u8, Seq<char>, Seq<char>)>, tag: Seq<char>, suffix: bool, k: int) -> Option<Seq<char>>
    decreases events.len() - k,
{
    if k < 0 || k >= events.len() {
        None
    } else if events[k].0 == 2 && inside_selected(events.take(k), tag, suffix) {
        Some(events[k].1)
    } else {
        selected_text_from(events, tag, suffix, k + 1)
    }
}

/// Text at event `k` inside a selected element.
pub open spec fn selected_text_at(events: Seq<(u8, Seq<char>, Seq<char>)>, tag: Seq<char>, suffix: bool, k: int) -> bool {
    0 <= k < events.len() && events[k].0 == 2 && inside_selected(events.take(k), tag, suffix)
}

proof fn lemma_first_from(events: Seq<(u8, Seq<char>, Seq<char>)>, tag: Seq<char>, suffix: bool, k: int)
    requires
        0 <= k,
    ensures
        selected_text_from(events, tag, suffix, k) is None <==> forall|j: int| k <= j ==> !#[trigger] selected_text_at(events, tag, suffix, j),
        opf_path_from(events, k) is None <==> forall|j: int| k <= j < events.len() ==> (#[trigger] rootfile_path(events[j])) is None,
        selected_text_from(events, tag, suffix, k) matches Some(t) ==> exists|j: int| k <= j && #[trigger] selected_text_at(events, tag, suffix, j)
            && events[j].1 == t && forall|i: int| k <= i < j ==> !#[trigger] selected_text_at(events, tag, suffix, i),
        opf_path_from(events, k) is Some ==> exists|j: int| k <= j < events.len() && opf_path_from(events, k) == #[trigger] rootfile_path(events[j])
            && forall|i: int| k <= i < j ==> (#[trigger] rootfile_path(events[i])) is None,
    decreases events.len() - k,
{
    if k < events.len() {
        lemma_first_from(events, tag, suffix, k + 1);
        if !selected_text_at(events, tag, suffix, k) {
            if let Some(t) = selected_text_from(events, tag, suffix, k + 1) {
                let j = choose|j: int| k + 1 <= j && #[trigger] selected_text_at(events, tag, suffix, j)
                    && events[j].1 == t && forall|i: int| k + 1 <= i < j ==> !#[trigger] selected_text_at(events, tag, suffix, i);
                assert forall|i: int| k <= i < j implies !#[trigger] selected_text_at(events, tag, suffix, i) by {}
            }
        }
        if rootfile_path(events[k]) is None {
            if opf_path_from(events, k + 1) is Some {
                let j = choose|j: int| k + 1 <= j < events.len() && opf_path_from(events, k + 1) == #[trigger] rootfile_path(events[j])
                    && forall|i: int| k + 1 <= i < j ==> (#[trigger] rootfile_path(events[i])) is None;
                assert forall|i: int| k <= i < j implies (#[trigger] rootfile_path(events[i])) is None by {}
            }
        }
    }
}

/// What the readers of XML events find is the first match: the selected text is
/// that of the first text event inside a selected element, and there is none
/// when no text event is; the package path is that of the first `rootfile` tag
/// with a `full-path`, and there is none when no such tag is.
pub proof fn lemma_first_match(events: Seq<(u8, Seq<char>, Seq<char>)>, tag: Seq<char>, suffix: bool)
    ensures
        selected_text_from(events, tag, suffix, 0) is None <==> forall|j: int| 0 <= j ==> !#[trigger] selected_text_at(events, tag, suffix, j),
        selected_text_from(events, tag, suffix, 0) matches Some(t) ==> exists|j: int| 0 <= j && #[trigger] selected_text_at(events, tag, suffix, j)
            && events[j].1 == t && forall|i: int| 0 <= i < j ==> !#[trigger] selected_text_at(events, tag, suffix, i),
        opf_path_from(events, 0) is None <==> forall|j: int| 0 <= j < events.len() ==> (#[trigger] rootfile_path(events[j])) is None,
        opf_path_from(events, 0) is Some ==> exists|j: int| 0 <= j < events.len() && opf_path_from(events, 0) == #[trigger] rootfile_path(events[j])
            && forall|i: int| 0 <= i < j ==> (#[trigger] rootfile_path(events[i])) is None,
{
    lemma_first_from(events, tag, suffix, 0);
}

fn selects(name: &str, tag: &str, suffix: bool) -> (r: bool)
    ensures
        r == name_selects(name@, tag@, suffix),
{
    let n = chars_of(name);
    let t = chars_of(tag);
    if suffix {
        if t.len() > n.len() {
            return false;
        }
        let start = n.len() - t.len();
        let mut k: usize = 0;
        while k < t.len()
            invariant
                start + t.len() == n.len(),
                n@ == name@,
                t@ == tag@,
                suffix,
                k <= t.len(),
                forall|m: int| 0 <= m < k ==> n@[start + m] == t@[m],
            decreases t.len() - k,
        {
            if n[start + k] != t[k] {
                assert(n@.skip(start as int)[k as int] != t@[k as int]);
                assert(n@.skip(start as int) != t@);
                return false;
            }
            k = k + 1;
        }
        assert(n@.skip(start as int) =~= t@);
        true
    } else {
        str_eq(name, tag)
    }
}

/// The first text met inside an element whose name `tag` selects (as a suffix of
/// the name when `suffix`), among the given events.
pub fn selected_text_in(events: &Vec<XmlEvent>, tag: &str, suffix: bool) -> (r: Option<String>)
    ensures
        match r {
            Some(t) => selected_text_from(event_views(events@), tag@, suffix, 0) == Some(t@),
            None => selected_text_from(event_views(events@), tag@, suffix, 0) is None,
        },
{
    let ghost ev = event_views(events@);
    let mut inside = false;
    let mut i: usize = 0;
    assert(ev.take(0) =~= seq![]);
    while i < events.len()
        invariant
            i <= events.len(),
            ev == event_views(events@),
            inside == inside_selected(ev.take(i as int), tag@, suffix),
            selected_text_from(ev, tag@, suffix, 0) == selected_text_from(ev, tag@, suffix, i as int),
        decreases events.len() - i,
    {
        assert(ev.take(i + 1).drop_last() =~= ev.take(i as int));
        assert(ev.take(i + 1).last() == ev[i as int]);
        match &events[i] {
            XmlEvent::Start(n, _) => {
                inside = selects(n.as_str(), tag, suffix);
            },
            XmlEvent::Text(t) => {
                if inside {
                    return Some(t.clone());
                }
            },
            XmlEvent::End => {
                inside = false;
            },
            _ => {},
        }
        i = i + 1;
    }
    None
}

/// The text of the first `creator` element (any name ending in `creator`, such as
/// `dc:creator`) of an OPF package, read with text trimming.
pub fn find_dc_creator(xml: &str) -> (r: Option<String>)
    ensures
        match r {
            Some(t) => selected_text_from(xml_event_list(xml@, true).0, "creator"@, true, 0) == Some(t@),
            None => selected_text_from(xml_event_list(xml@, true).0, "creator"@, true, 0) is None,
        },
{
    let (events, _complete) = read_xml_events(xml, true);
    selected_text_in(&events, "creator", true)
}

/// The text of the first element named `tag_name`, read with text trimming.
pub fn find_named_tag(xml: &str, tag_name: &str) -> (r: Option<String>)
    ensures
        match r {
            Some(t) => selected_text_from(xml_event_list(xml@, true).0, tag_name@, false, 0) == Some(t@),
            None => selected_text_from(xml_event_list(xml@, true).0, tag_name@, false, 0) is None,
        },
{
    let (events, _complete) = read_xml_events(xml, true);
    selected_text_in(&events, tag_name, false)
}

// --------------------------------------------------------------------- mobi

/// `String::from_utf8_lossy` of the bytes: invalid sequences become U+FFFD.
pub uninterp spec fn utf8_lossy(data: Seq<u8>) -> Seq<char>;

/// Calls `String::from_utf8_lossy`; the result is what `utf8_lossy` names.
#[verifier::external_body]
pub(crate) fn lossy_text(data: &[u8]) -> (r: String)
    ensures
        r@ == utf8_lossy(data@),
{
    String::from_utf8_lossy(data).into_owned()
}

/// The index of the first occurrence of `p` in `s`.
pub open spec fn first_occurrence(s: Seq<char>, p: Seq<char>) -> Option<int> {
    if exists|i: int| occurs_at(s, p, i) && (forall|j: int| 0 <= j < i ==> !occurs_at(s, p, j)) {
        Some(choose|i: int| occurs_at(s, p, i) && (forall|j: int| 0 <= j < i ==> !occurs_at(s, p, j)))
    } else {
        None
    }
}

pub open spec fn line_stop(c: char) -> bool {
    c == '\0' || c == '\n' || c == '\r'
}

/// The characters before the first NUL or line break.
pub open spec fn line_prefix(s: Seq<char>) -> Seq<char>
    decreases s.len(),
{
    if s.len() == 0 || line_stop(s[0]) {
        seq![]
    } else {
        seq![s[0]] + line_prefix(s.drop_first())
    }
}

pub open spec fn not_alphanumeric() -> spec_fn(char) -> bool {
    |c: char| !alphanumeric(c)
}

/// What follows the first occurrence of `marker`: leading characters that are not
/// alphanumeric skipped, cut at the first NUL or line break, trimmed; `None` when
/// the marker does not occur or nothing is left.
pub open spec fn marker_value(text: Seq<char>, marker: Seq<char>) -> Option<Seq<char>> {
    match first_occurrence(text, marker) {
        Some(i) => {
            let line = trim(line_prefix(trim_start_by(text.skip(i + marker.len()), not_alphanumeric())));
            if line.len() > 0 { Some(line) } else { None }
        },
        None => None,
    }
}

/// The author of MOBI text: the value after `AUTHOR`, else after `Creator`, else after `creator`.
pub open spec fn mobi_author_of(text: Seq<char>) -> Option<Seq<char>> {
    if marker_value(text, "AUTHOR"@) is Some {
        marker_value(text, "AUTHOR"@)
    } else if marker_value(text, "Creator"@) is Some {
        marker_value(text, "Creator"@)
    } else {
        marker_value(text, "creator"@)
    }
}

proof fn lemma_first_occurrence(s: Seq<char>, p: Seq<char>, i: int)
    requires
        occurs_at(s, p, i),
        forall|j: int| 0 <= j < i ==> !occurs_at(s, p, j),
    ensures
        first_occurrence(s, p) == Some(i),
{
    let c = choose|c: int| occurs_at(s, p, c) && (forall|j: int| 0 <= j < c ==> !occurs_at(s, p, j));
    assert(occurs_at(s, p, c));
    if c < i {
        assert(!occurs_at(s, p, c));
    }
    if i < c {
        assert(!occurs_at(s, p, i));
    }
}

proof fn lemma_line_prefix(s: Seq<char>, k: int)
    requires
        0 <= k <= s.len(),
        forall|m: int| 0 <= m < k ==> !line_stop(s[m]),
        k == s.len() || line_stop(s[k]),
    ensures
        line_prefix(s) == s.take(k),
    decreases k,
{
    if k == 0 {
        assert(s.take(0) =~= seq![]);
    } else {
        let t = s.drop_first();
        assert forall|m: int| 0 <= m < k - 1 implies !line_stop(t[m]) by {
            assert(t[m] == s[m + 1]);
        }
        lemma_line_prefix(t, k - 1);
        assert(seq![s[0]] + t.take(k - 1) =~= s.take(k));
    }
}

fn is_line_stop(c: char) -> (r: bool)
    ensures
        r == line_stop(c),
{
    c == '\0' || c == '\n' || c == '\r'
}

fn marker_value_in(v: &Vec<char>, marker: &str) -> (r: Option<String>)
    ensures
        match r {
            Some(a) => marker_value(v@, marker@) == Some(a@),
            None => marker_value(v@, marker@) is None,
        },
{
    let m = chars_of(marker);
    let i = match find_from(v, &m, 0) {
        Some(i) => i,
        None => {
            assert(first_occurrence(v@, marker@) is None);
            return None;
        },
    };
    proof {
        lemma_first_occurrence(v@, m@, i as int);
    }
    assert(occurs_at(v@, m@, i as int));
    assert(i + m@.len() <= v@.len());
    assert(i + m.len() <= v.len());
    let ghost p = not_alphanumeric();
    let start = i + m.len();
    let mut j: usize = start;
    while j < v.len() && !char_is_alphanumeric(v[j])
        invariant
            start <= j <= v.len(),
            p == not_alphanumeric(),
            trim_start_by(v@.skip(start as int), p) == trim_start_by(v@.skip(j as int), p),
        decreases v.len() - j,
    {
        assert(v@.skip(j as int).drop_first() =~= v@.skip(j + 1));
        j = j + 1;
    }
    let ghost rest = trim_start_by(v@.skip(j as int), p);
    assert(rest == v@.skip(j as int)) by {
        if j < v.len() {
            assert(v@.skip(j as int)[0] == v@[j as int]);
        }
    }
    let mut line: Vec<char> = Vec::new();
    let mut k: usize = j;
    while k < v.len() && !is_line_stop(v[k])
        invariant
            j <= k <= v.len(),
            line@ == v@.subrange(j as int, k as int),
            forall|q: int| j <= q < k ==> !line_stop(v@[q]),
        decreases v.len() - k,
    {
        line.push(v[k]);
        k = k + 1;
        assert(line@ =~= v@.subrange(j as int, k as int));
    }
    proof {
        let s = v@.skip(j as int);
        assert forall|q: int| 0 <= q < k - j implies !line_stop(s[q]) by {
            assert(s[q] == v@[j + q]);
        }
        if k < v.len() {
            assert(s[k - j] == v@[k as int]);
        }
        lemma_line_prefix(s, k - j);
        assert(s.take(k - j) =~= v@.subrange(j as int, k as int));
    }
    let t = trim_ws(&line);
    if t.len() > 0 {
        Some(string_of(&t))
    } else {
        None
    }
}

/// The author marked in the bytes of a MOBI or AZW3 file, read as lossy UTF-8.
pub fn mobi_author(data: &[u8]) -> (r: Option<String>)
    ensures
        match r {
            Some(a) => mobi_author_of(utf8_lossy(data@)) == Some(a@),
            None => mobi_author_of(utf8_lossy(data@)) is None,
        },
{
    let text = lossy_text(data);
    let v = chars_of(text.as_str());
    match marker_value_in(&v, "AUTHOR") {
        Some(a) => return Some(a),
        None => {},
    }
    match marker_value_in(&v, "Creator") {
        Some(a) => return Some(a),
        None => {},
    }
    marker_value_in(&v, "creator")
}

// ------------------------------------------------------------------ formats

/// The e-book formats whose author can be read.
#[derive(Debug, Clone, Copy, PartialEq, Eq, Structural)]
pub enum EbookFormat {
    Epub,
    Pdf,
    Mobi,
    Comic,
}

/// The e-book format a path names, by its extension compared without ASCII case:
/// epub, pdf, mobi or azw3, cbz or cbr.
pub open spec fn ebook_format_of(path: Seq<char>) -> Option<EbookFormat> {
    match extension_of(path) {
        Some(x) => {
            let e = ascii_lower_seq(x);
            if e == "epub"@ {
                Some(EbookFormat::Epub)
            } else if e == "pdf"@ {
                Some(EbookFormat::Pdf)
            } else if e == "mobi"@ || e == "azw3"@ {
                Some(EbookFormat::Mobi)
            } else if e == "cbz"@ || e == "cbr"@ {
                Some(EbookFormat::Comic)
            } else {
                None
            }
        },
        None => None,
    }
}

/// The files read as ebooks are exactly the files whose media kind is ebook.
pub proof fn lemma_ebook_formats_are_ebooks(path: Seq<char>)
    ensures
        ebook_format_of(path) is Some <==> crate::metadata::media_type_of(path) == Some(crate::metadata::MediaType::Ebook),
{
    reveal_strlit("epub");
    reveal_strlit("pdf");
    reveal_strlit("mobi");
    reveal_strlit("azw3");
    reveal_strlit("cbz");
    reveal_strlit("cbr");
    reveal_strlit("jpg");
    reveal_strlit("jpeg");
    reveal_strlit("png");
    reveal_strlit("gif");
    reveal_strlit("bmp");
    reveal_strlit("tif");
    reveal_strlit("tiff");
    reveal_strlit("webp");
    reveal_strlit("mp3");
    reveal_strlit("flac");
    reveal_strlit("aac");
    reveal_strlit("m4a");
    reveal_strlit("ogg");
    reveal_strlit("wav");
    reveal_strlit("mp4");
    reveal_strlit("m4v");
    reveal_strlit("mov");
    reveal_strlit("mkv");
    reveal_strlit("avi");
    reveal_strlit("wmv");
    if let Some(x) = extension_of(path) {
        let e = ascii_lower_seq(x);
        if ebook_format_of(path) is Some {
            let others = seq!["jpg"@, "jpeg"@, "png"@, "gif"@, "bmp"@, "tif"@, "tiff"@, "webp"@,
                "mp3"@, "flac"@, "aac"@, "m4a"@, "ogg"@, "wav"@, "mp4"@, "m4v"@, "mov"@, "mkv"@, "avi"@, "wmv"@];
            assert forall|i: int| 0 <= i < others.len() implies #[trigger] others[i] != e by {
                assert(others[i][0] != e[0] || others[i].len() != e.len() || others[i][1] != e[1] || others[i][2] != e[2]);
            }
            assert(others[0] != e && others[1] != e && others[2] != e && others[3] != e && others[4] != e);
            assert(others[5] != e && others[6] != e && others[7] != e && others[8] != e && others[9] != e);
            assert(others[10] != e && others[11] != e && others[12] != e && others[13] != e && others[14] != e);
            assert(others[15] != e && others[16] != e && others[17] != e && others[18] != e && others[19] != e);
        }
    }
}

pub fn ebook_format(path: &str) -> (r: Option<EbookFormat>)
    ensures
        r == ebook_format_of(path@),
{
    let e = match ext_lower(path) {
        Some(e) => e,
        None => return None,
    };
    let e = e.as_str();
    if str_eq(e, "epub") {
        Some(EbookFormat::Epub)
    } else if str_eq(e, "pdf") {
        Some(EbookFormat::Pdf)
    } else if str_eq(e, "mobi") || str_eq(e, "azw3") {
        Some(EbookFormat::Mobi)
    } else if str_eq(e, "cbz") || str_eq(e, "cbr") {
        Some(EbookFormat::Comic)
    } else {
        None
    }
}

/// The metadata of an image or e-book: only the artist, the normalised author
/// read from the file.
pub fn author_metadata(raw_author: Option<String>) -> (r: MediaMetadata)
    ensures
        match raw_author {
            Some(a) => match normalized_author(a@) {
                Some(n) => r.artist matches Some(x) && x@ == n,
                None => r.artist is None,
            },
            None => r.artist is None,
        },
        r.contributing_artists@.len() == 0,
        r.album_artist is None,
        r.album is None,
        r.composer is None,
        r.cover_art_hash is None,
{
    let mut meta = MediaMetadata::empty();
    meta.artist = match raw_author {
        Some(a) => normalize_author(a),
        None => None,
    };
    meta
}

} // verus!
