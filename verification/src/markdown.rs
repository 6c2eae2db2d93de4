use vstd::prelude::*;
use vstd::string::*;
use vstd::utf8::*;

use pulldown_cmark::{Event, Options, Parser, Tag, TagEnd};

use crate::text::{byte_range, byte_range_spec, trim, trim_spec};

verus! {

/// One event of the markdown parser, reduced to what sectioning reads. Offsets are byte
/// offsets into the parsed text.
pub enum MdEvent {
    /// A heading of the given level (1 to 6) begins at byte `start`.
    HeadingStart { level: usize, start: usize },
    /// The current heading ends at byte `end`.
    HeadingEnd { end: usize },
    /// A text node.
    Text(String),
    /// An inline code node.
    Code(String),
    /// A soft or hard line break.
    Break,
    /// Any other event.
    Other,
}

/// An `MdEvent` with its strings taken as character sequences.
pub enum MdEventSpec {
    HeadingStart { level: usize, start: usize },
    HeadingEnd { end: usize },
    Text(Seq<char>),
    Code(Seq<char>),
    Break,
    Other,
}

impl View for MdEvent {
    type V = MdEventSpec;

    open spec fn view(&self) -> MdEventSpec {
        match self {
            MdEvent::HeadingStart { level, start } => MdEventSpec::HeadingStart {
                level: *level,
                start: *start,
            },
            MdEvent::HeadingEnd { end } => MdEventSpec::HeadingEnd { end: *end },
            MdEvent::Text(t) => MdEventSpec::Text(t@),
            MdEvent::Code(t) => MdEventSpec::Code(t@),
            MdEvent::Break => MdEventSpec::Break,
            MdEvent::Other => MdEventSpec::Other,
        }
    }
}

/// The events of `events`, each by its view.
pub open spec fn event_views(events: Seq<MdEvent>) -> Seq<MdEventSpec> {
    events.map_values(|e: MdEvent| e@)
}

/// The events that the CommonMark parser (`pulldown_cmark`, no extensions) emits for `text`.
pub uninterp spec fn markdown_events(text: Seq<char>) -> Seq<MdEventSpec>;

/// Runs `pulldown_cmark::Parser::new_ext(content, Options::empty()).into_offset_iter()` and
/// converts each event: heading starts and ends with their level and source offsets, text,
/// inline code, line breaks, and every other event as `Other`. The contract claims only that
/// the result is the parser's event stream for `content`, named `markdown_events`.
#[verifier::external_body]
fn markdown_event_stream(content: &str) -> (events: Vec<MdEvent>)
    ensures
        event_views(events@) == markdown_events(content@),
{
    Parser::new_ext(content, Options::empty()).into_offset_iter().map(|(event, range)| match event {
        Event::Start(Tag::Heading { level, .. }) => MdEvent::HeadingStart { level: level as usize, start: range.start },
        Event::End(TagEnd::Heading(_)) => MdEvent::HeadingEnd { end: range.end },
        Event::Text(t) => MdEvent::Text(t.into_string()),
        Event::Code(t) => MdEvent::Code(t.into_string()),
        Event::SoftBreak | Event::HardBreak => MdEvent::Break,
        _ => MdEvent::Other,
    }).collect()
}

/// A heading found in the event stream: its text, level and source byte range.
pub struct HeadingInfo {
    pub text: String,
    pub level: usize,
    pub start: usize,
    pub end: usize,
}

pub struct HeadingSpec {
    pub text: Seq<char>,
    pub level: usize,
    pub start: usize,
    pub end: usize,
}

impl View for HeadingInfo {
    type V = HeadingSpec;

    open spec fn view(&self) -> HeadingSpec {
        HeadingSpec { text: self.text@, level: self.level, start: self.start, end: self.end }
    }
}

pub open spec fn heading_views(hs: Seq<HeadingInfo>) -> Seq<HeadingSpec> {
    hs.map_values(|h: HeadingInfo| h@)
}

/// A section of a markdown file: a heading and its direct content, trimmed.
/// Level 0 is the file-level section before the first heading; 1 to 6 are h1 to h6.
pub struct Section {
    pub heading: String,
    pub level: usize,
    pub content: String,
}

pub struct SectionSpec {
    pub heading: Seq<char>,
    pub level: usize,
    pub content: Seq<char>,
}

impl View for Section {
    type V = SectionSpec;

    open spec fn view(&self) -> SectionSpec {
        SectionSpec { heading: self.heading@, level: self.level, content: self.content@ }
    }
}

pub open spec fn section_views(ss: Seq<Section>) -> Seq<SectionSpec> {
    ss.map_values(|s: Section| s@)
}

/// The state of the heading scan over the event stream.
pub struct ScanState {
    pub in_heading: bool,
    pub text: Seq<char>,
    pub level: usize,
    pub start: usize,
    pub headings: Seq<HeadingSpec>,
}

pub open spec fn scan_init() -> ScanState {
    ScanState { in_heading: false, text: Seq::empty(), level: 0, start: 0, headings: Seq::empty() }
}

/// One event of the heading scan: heading boundaries open and close a heading; text, inline
/// code (in backticks) and line breaks (as a space) inside a heading extend its text.
pub open spec fn scan_step(st: ScanState, e: MdEventSpec) -> ScanState {
    match e {
        MdEventSpec::HeadingStart { level, start } => ScanState {
            in_heading: true,
            level: level,
            start: start,
            ..st
        },
        MdEventSpec::HeadingEnd { end } => ScanState {
            in_heading: false,
            text: Seq::empty(),
            headings: st.headings.push(
                HeadingSpec { text: st.text, level: st.level, start: st.start, end: end },
            ),
            ..st
        },
        MdEventSpec::Text(t) => if st.in_heading {
            ScanState { text: st.text + t, ..st }
        } else {
            st
        },
        MdEventSpec::Code(t) => if st.in_heading {
            ScanState { text: st.text + seq!['`'] + t + seq!['`'], ..st }
        } else {
            st
        },
        MdEventSpec::Break => if st.in_heading {
            ScanState { text: st.text.push(' '), ..st }
        } else {
            st
        },
        MdEventSpec::Other => st,
    }
}

/// The heading scan after all of `events`.
pub open spec fn scan(events: Seq<MdEventSpec>) -> ScanState
    decreases events.len(),
{
    if events.len() == 0 {
        scan_init()
    } else {
        scan_step(scan(events.drop_last()), events.last())
    }
}

/// Collects the headings of an event stream, with their text and source range.
pub fn collect_headings(events: &Vec<MdEvent>) -> (hs: Vec<HeadingInfo>)
    ensures
        heading_views(hs@) == scan(event_views(events@)).headings,
{
    let ghost evs = event_views(events@);
    let mut headings: Vec<HeadingInfo> = Vec::new();
    let mut in_heading = false;
    let mut heading_text = String::new();
    let mut heading_level: usize = 0;
    let mut heading_start: usize = 0;
    let mut i: usize = 0;
    while i < events.len()
        invariant
            i <= events@.len(),
            evs == event_views(events@),
            ({
                let st = scan(evs.take(i as int));
                &&& st.in_heading == in_heading
                &&& st.text == heading_text@
                &&& st.level == heading_level
                &&& st.start == heading_start
                &&& st.headings == heading_views(headings@)
            }),
        decreases events@.len() - i,
    {
        assert(evs.take(i + 1).drop_last() =~= evs.take(i as int));
        assert(evs.take(i + 1).last() == events@[i as int]@);
        match &events[i] {
            MdEvent::HeadingStart { level, start } => {
                in_heading = true;
                heading_level = *level;
                heading_start = *start;
            },
            MdEvent::HeadingEnd { end } => {
                in_heading = false;
                let text = heading_text.clone();
                heading_text = String::new();
                let ghost before = headings@;
                headings.push(
                    HeadingInfo { text, level: heading_level, start: heading_start, end: *end },
                );
                assert(heading_views(headings@) =~= heading_views(before).push(
                    headings@.last()@,
                ));
            },
            MdEvent::Text(t) => {
                if in_heading {
                    heading_text.append(t.as_str());
                }
            },
            MdEvent::Code(t) => {
                if in_heading {
                    heading_text.append("`");
                    heading_text.append(t.as_str());
                    heading_text.append("`");
                    proof {
                        reveal_strlit("`");
                    }
                }
            },
            MdEvent::Break => {
                if in_heading {
                    heading_text.append(" ");
                    proof {
                        reveal_strlit(" ");
                    }
                }
            },
            MdEvent::Other => {},
        }
        i = i + 1;
    }
    assert(evs.take(events@.len() as int) =~= evs);
    headings
}

/// Byte length of the UTF-8 encoding of `s`.
pub open spec fn byte_len(s: Seq<char>) -> int {
    encode_utf8(s).len() as int
}

/// The trimmed text between the end of heading `i` and the start of the next one (or the
/// end of the file).
pub open spec fn body_spec(content: Seq<char>, hs: Seq<HeadingSpec>, i: int) -> Seq<char> {
    let end = if i + 1 < hs.len() { hs[i + 1].start as int } else { byte_len(content) };
    trim_spec(byte_range_spec(content, hs[i].end as int, end))
}

/// The trimmed text before the first heading.
pub open spec fn preamble_spec(content: Seq<char>, hs: Seq<HeadingSpec>) -> Seq<char> {
    let end = if hs.len() == 0 { byte_len(content) } else { hs[0].start as int };
    trim_spec(byte_range_spec(content, 0, end))
}

/// The sections of `content` for the given headings: a level-0 section named `file_stem`
/// holding the text before the first heading, where there is any, then one section per
/// heading holding the text up to the next heading, each trimmed. A heading whose byte
/// range does not delimit a slice of `content` gets empty content.
pub open spec fn sections_spec(content: Seq<char>, file_stem: Seq<char>, hs: Seq<HeadingSpec>) -> Seq<
    SectionSpec,
> {
    let pre = preamble_spec(content, hs);
    let front = if pre.len() > 0 {
        seq![SectionSpec { heading: file_stem, level: 0, content: pre }]
    } else {
        Seq::empty()
    };
    front + Seq::new(
        hs.len(),
        |i: int| SectionSpec { heading: hs[i].text, level: hs[i].level, content: body_spec(content, hs, i) },
    )
}

proof fn lemma_sections_spec_index(
    content: Seq<char>,
    file_stem: Seq<char>,
    hs: Seq<HeadingSpec>,
    i: int,
)
    requires
        0 <= i < hs.len(),
    ensures
        ({
            let all = sections_spec(content, file_stem, hs);
            &&& all.len() >= hs.len()
            &&& all[all.len() - hs.len() + i] == SectionSpec {
                heading: hs[i].text,
                level: hs[i].level,
                content: body_spec(content, hs, i),
            }
        }),
{
}

/// A file without headings is a single file-level section named after the file and holding
/// all of its text, trimmed; a file without headings that holds only white space has no
/// sections.
pub proof fn lemma_headingless_file(content: Seq<char>, file_stem: Seq<char>)
    ensures
        sections_spec(content, file_stem, Seq::empty()) == if trim_spec(content).len() > 0 {
            seq![SectionSpec { heading: file_stem, level: 0, content: trim_spec(content) }]
        } else {
            Seq::<SectionSpec>::empty()
        },
        scan(markdown_events(content)).headings.len() == 0 ==> parse_markdown_spec(
            content,
            file_stem,
        ) == sections_spec(content, file_stem, Seq::empty()),
{
    broadcast use encode_utf8_valid_utf8, encode_utf8_decode_utf8, is_char_boundary_start_end_of_seq;

    let bytes = encode_utf8(content);
    assert(is_char_boundary(bytes, 0));
    assert(is_char_boundary(bytes, bytes.len() as int));
    assert(bytes.subrange(0, bytes.len() as int) =~= bytes);
    assert(byte_range_spec(content, 0, byte_len(content)) == content);
    let hs = Seq::<HeadingSpec>::empty();
    assert(preamble_spec(content, hs) == trim_spec(content));
    let all = sections_spec(content, file_stem, hs);
    if trim_spec(content).len() > 0 {
        assert(all =~= seq![SectionSpec { heading: file_stem, level: 0, content: trim_spec(content) }]);
    } else {
        assert(all =~= Seq::<SectionSpec>::empty());
    }
    if scan(markdown_events(content)).headings.len() == 0 {
        assert(scan(markdown_events(content)).headings =~= hs);
    }
}

/// Slices `content` into sections at the given headings.
pub fn sections_from_headings(content: &str, file_stem: &str, headings: &Vec<HeadingInfo>) -> (ss:
    Vec<Section>)
    ensures
        section_views(ss@) == sections_spec(content@, file_stem@, heading_views(headings@)),
{
    let ghost hs = heading_views(headings@);
    let len = content.as_bytes().len();
    let pre_end = if headings.len() == 0 { len } else { headings[0].start };
    let pre = trim(byte_range(content, 0, pre_end));
    let mut sections: Vec<Section> = Vec::new();
    if !pre.is_empty() {
        sections.push(Section { heading: file_stem.to_owned(), level: 0, content: pre.to_owned() });
    }
    let ghost front = section_views(sections@);
    let ghost expected = sections_spec(content@, file_stem@, hs);
    assert(front.len() == expected.len() - hs.len());
    assert(forall|k: int| 0 <= k < front.len() ==> front[k] == expected[k]);
    let mut i: usize = 0;
    while i < headings.len()
        invariant
            i <= headings@.len(),
            hs == heading_views(headings@),
            len == byte_len(content@),
            expected == sections_spec(content@, file_stem@, hs),
            front.len() == expected.len() - hs.len(),
            sections@.len() == front.len() + i,
            forall|k: int|
                0 <= k < front.len() + i ==> #[trigger] section_views(sections@)[k] == expected[k],
        decreases headings@.len() - i,
    {
        let end = if i + 1 < headings.len() { headings[i + 1].start } else { len };
        let body = trim(byte_range(content, headings[i].end, end));
        let section = Section {
            heading: headings[i].text.clone(),
            level: headings[i].level,
            content: body.to_owned(),
        };
        let ghost before = sections@;
        sections.push(section);
        proof {
            assert forall|k: int| 0 <= k < front.len() + i + 1 implies #[trigger] section_views(
                sections@,
            )[k] == expected[k] by {
                if k < front.len() + i {
                    assert(sections@[k] == before[k]);
                    assert(section_views(before)[k] == before[k]@);
                    assert(section_views(sections@)[k] == sections@[k]@);
                } else {
                    assert(hs[i as int] == headings@[i as int]@);
                    if i + 1 < headings@.len() {
                        assert(hs[i + 1] == headings@[i + 1]@);
                    }
                    assert(body@ == body_spec(content@, hs, i as int));
                    lemma_sections_spec_index(content@, file_stem@, hs, i as int);
                    assert(section_views(sections@)[k] == sections@[k]@);
                    assert(k == expected.len() - hs.len() + i);
                    assert(sections@[k]@.heading == hs[i as int].text);
                    assert(sections@[k]@.level == hs[i as int].level);
                    assert(sections@[k]@.content == body_spec(content@, hs, i as int));
                    assert(sections@[k]@ == expected[k]);
                }
            }
        }
        i = i + 1;
    }
    assert(section_views(sections@) =~= expected);
    sections
}

/// Splits markdown into sections given the parser's event stream for it.
pub fn sections_from_events(content: &str, file_stem: &str, events: &Vec<MdEvent>) -> (ss: Vec<
    Section,
>)
    ensures
        section_views(ss@) == sections_spec(
            content@,
            file_stem@,
            scan(event_views(events@)).headings,
        ),
{
    let headings = collect_headings(events);
    sections_from_headings(content, file_stem, &headings)
}

/// The sections of a markdown file, split at its headings (any level).
pub open spec fn parse_markdown_spec(content: Seq<char>, file_stem: Seq<char>) -> Seq<SectionSpec> {
    sections_spec(content, file_stem, scan(markdown_events(content)).headings)
}

/// Splits markdown into sections at its headings: each section holds one heading's direct
/// content (not that of sub-headings), verbatim but trimmed; text before the first heading
/// becomes a level-0 section named after the file stem.
pub fn parse_markdown(content: &str, file_stem: &str) -> (ss: Vec<Section>)
    ensures
        section_views(ss@) == parse_markdown_spec(content@, file_stem@),
{
    let events = markdown_event_stream(content);
    sections_from_events(content, file_stem, &events)
}

} // verus!
