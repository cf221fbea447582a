//! The event language: one event rule per line, grouped under `[Title]`
//! headers.
//!
//! An event line is `index category title`, the fields parted by spaces or
//! tabs. The category is `easter`, a month, a weekday, or `weekday/month`;
//! a leading `ho repl ` moves the rule's dates to the nearest Sunday.
use vstd::prelude::*;

use crate::calendar::{
    Month, eq_ignore_ascii_case, month_named, parse_month, parse_weekday, weekday_named,
};
use crate::recurrence::EventDescriptionData;
use crate::text::{
    chars_of, find_either, first_of, lemma_first_of_bounds, parse_i16, parse_i16_of,
    range_eq_ignore_ascii_case, trim, trim_range,
};

verus! {

/// The group that an event belongs to.
#[derive(Debug, Clone, Copy, PartialEq, Eq, Hash, PartialOrd, Ord, Structural)]
pub enum GroupId {
    NoGroup,
    /// The group with this position among the document's groups, from 0.
    Group(usize),
}

impl Default for GroupId {
    fn default() -> (r: GroupId)
        ensures
            r == GroupId::NoGroup,
    {
        GroupId::NoGroup
    }
}

/// Why an event line was not understood.
#[derive(Debug, Clone, Copy, PartialEq, Eq, Structural)]
pub enum ParseError {
    /// The line is not an index, a category and a title, or the category is
    /// none that the language knows.
    InvalidEvent,
    /// The index is no signed 16-bit integer.
    InvalidIndex,
    /// A day of the month that is negative.
    InvalidDayOfMonth { month: Month, index: i16 },
}

/// An event: its title, its rule and the group it belongs to.
#[derive(Debug, PartialEq, Eq)]
pub struct EventDescription {
    pub title: String,
    pub data: EventDescriptionData,
    pub group_id: GroupId,
}

/// The prefix that moves an event's dates to the nearest Sunday.
pub open spec fn fuzzy_prefix() -> Seq<char> {
    seq!['h', 'o', ' ', 'r', 'e', 'p', 'l', ' ']
}

pub open spec fn easter_word() -> Seq<char> {
    seq!['e', 'a', 's', 't', 'e', 'r']
}

/// The rule that a category names, with the line's index.
#[verifier::opaque]
pub open spec fn category_rule(category: Seq<char>, index: i16) -> Result<
    EventDescriptionData,
    ParseError,
> {
    let k = first_of(category, '/', '/');
    if eq_ignore_ascii_case(category, easter_word()) {
        Ok(EventDescriptionData::DaysAfterEaster { day_offset: index })
    } else if k < category.len() && weekday_named(category.take(k)) is Some && month_named(
        category.skip(k + 1),
    ) is Some {
        Ok(
            EventDescriptionData::NthWeekdayOfMonth {
                n: index,
                weekday: weekday_named(category.take(k))->Some_0,
                month: month_named(category.skip(k + 1)),
            },
        )
    } else if month_named(category) is Some {
        if index >= 0 {
            Ok(
                EventDescriptionData::FixedDate {
                    month: month_named(category)->Some_0,
                    day: index as u32,
                },
            )
        } else {
            Err(ParseError::InvalidDayOfMonth { month: month_named(category)->Some_0, index })
        }
    } else if weekday_named(category) is Some {
        Ok(
            EventDescriptionData::NthWeekdayOfMonth {
                n: index,
                weekday: weekday_named(category)->Some_0,
                month: None,
            },
        )
    } else {
        Err(ParseError::InvalidEvent)
    }
}

/// An event line without the Sunday prefix: its title and rule.
#[verifier::opaque]
pub open spec fn parse_plain_event(s: Seq<char>) -> Result<
    (Seq<char>, EventDescriptionData),
    ParseError,
> {
    let t = trim(s);
    let i = first_of(t, ' ', '\t');
    if i >= t.len() {
        Err(ParseError::InvalidEvent)
    } else {
        let rest = trim(t.skip(i + 1));
        let j = first_of(rest, ' ', '\t');
        if j >= rest.len() {
            Err(ParseError::InvalidEvent)
        } else {
            let index = trim(t.take(i));
            let category = trim(rest.take(j));
            let title = trim(rest.skip(j + 1));
            match parse_i16_of(index) {
                None => Err(ParseError::InvalidIndex),
                Some(n) => match category_rule(category, n) {
                    Ok(d) => Ok((title, d)),
                    Err(e) => Err(e),
                },
            }
        }
    }
}

/// An event line: its title and rule.
pub open spec fn parse_event(s: Seq<char>) -> Result<(Seq<char>, EventDescriptionData), ParseError>
    decreases s.len(),
{
    if s.len() >= 8 && eq_ignore_ascii_case(s.take(8), fuzzy_prefix()) {
        match parse_event(s.skip(8)) {
            Ok((title, data)) => Ok((title, EventDescriptionData::FuzzySunday(Box::new(data)))),
            Err(e) => Err(e),
        }
    } else {
        parse_plain_event(s)
    }
}

/// A parse result with the title as a sequence of characters.
pub open spec fn event_view(r: Result<EventDescription, ParseError>) -> Result<
    (Seq<char>, EventDescriptionData),
    ParseError,
> {
    match r {
        Ok(e) => Ok((e.title@, e.data)),
        Err(e) => Err(e),
    }
}

fn category_rule_of(input: &str, v: &Vec<char>, lo: usize, hi: usize, index: i16) -> (r: Result<
    EventDescriptionData,
    ParseError,
>)
    requires
        v@ == input@,
        lo <= hi <= v.len(),
    ensures
        r == category_rule(v@.subrange(lo as int, hi as int), index),
{
    let ghost c = v@.subrange(lo as int, hi as int);
    proof {
        reveal(category_rule);
    }
    let easter = vec!['e', 'a', 's', 't', 'e', 'r'];
    assert(easter@ == easter_word());
    if range_eq_ignore_ascii_case(v, lo, hi, &easter) {
        return Ok(EventDescriptionData::DaysAfterEaster { day_offset: index });
    }
    let k = find_either(v, lo, hi, '/', '/');
    if k < hi {
        assert(c.take(k - lo) == input@.subrange(lo as int, k as int));
        assert(c.skip(k - lo + 1) == input@.subrange(k + 1, hi as int));
        let weekday = parse_weekday(input.substring_char(lo, k));
        let month = parse_month(input.substring_char(k + 1, hi));
        if let Some(w) = weekday {
            if month.is_some() {
                return Ok(EventDescriptionData::NthWeekdayOfMonth { n: index, weekday: w, month });
            }
        }
    }
    let whole = input.substring_char(lo, hi);
    if let Some(m) = parse_month(whole) {
        if index >= 0 {
            return Ok(EventDescriptionData::FixedDate { month: m, day: index as u32 });
        } else {
            return Err(ParseError::InvalidDayOfMonth { month: m, index });
        }
    }
    match parse_weekday(whole) {
        Some(w) => Ok(EventDescriptionData::NthWeekdayOfMonth { n: index, weekday: w, month: None }),
        None => Err(ParseError::InvalidEvent),
    }
}

fn parse_plain(input: &str, v: &Vec<char>, lo: usize, hi: usize, group_id: GroupId) -> (r: Result<
    EventDescription,
    ParseError,
>)
    requires
        v@ == input@,
        lo <= hi <= v.len(),
    ensures
        event_view(r) == parse_plain_event(v@.subrange(lo as int, hi as int)),
        r matches Ok(e) ==> e.group_id == group_id,
{
    let ghost s = v@.subrange(lo as int, hi as int);
    proof {
        reveal(parse_plain_event);
    }
    let (a, b) = trim_range(v, lo, hi);
    let ghost t = v@.subrange(a as int, b as int);
    let i = find_either(v, a, b, ' ', '\t');
    proof {
        lemma_first_of_bounds(t, ' ', '\t');
    }
    if i == b {
        return Err(ParseError::InvalidEvent);
    }
    assert(t.skip(i - a + 1) == v@.subrange(i + 1, b as int));
    assert(t.take(i - a) == v@.subrange(a as int, i as int));
    let (c, d) = trim_range(v, i + 1, b);
    let ghost rest = v@.subrange(c as int, d as int);
    let j = find_either(v, c, d, ' ', '\t');
    proof {
        lemma_first_of_bounds(rest, ' ', '\t');
    }
    if j == d {
        return Err(ParseError::InvalidEvent);
    }
    assert(rest.take(j - c) == v@.subrange(c as int, j as int));
    assert(rest.skip(j - c + 1) == v@.subrange(j + 1, d as int));
    let (ia, ib) = trim_range(v, a, i);
    let (ca, cb) = trim_range(v, c, j);
    let (ta, tb) = trim_range(v, j + 1, d);
    let n = match parse_i16(v, ia, ib) {
        Some(n) => n,
        None => {
            return Err(ParseError::InvalidIndex);
        },
    };
    match category_rule_of(input, v, ca, cb, n) {
        Ok(data) => {
            let title = input.substring_char(ta, tb).to_owned();
            Ok(EventDescription { title, data, group_id })
        },
        Err(e) => Err(e),
    }
}

fn parse_in(input: &str, v: &Vec<char>, lo: usize, hi: usize, group_id: GroupId) -> (r: Result<
    EventDescription,
    ParseError,
>)
    requires
        v@ == input@,
        lo <= hi <= v.len(),
    ensures
        event_view(r) == parse_event(v@.subrange(lo as int, hi as int)),
        r matches Ok(e) ==> e.group_id == group_id,
    decreases hi - lo,
{
    let ghost s = v@.subrange(lo as int, hi as int);
    if hi - lo >= 8 {
        let prefix = vec!['h', 'o', ' ', 'r', 'e', 'p', 'l', ' '];
        assert(prefix@ == fuzzy_prefix());
        assert(s.take(8) == v@.subrange(lo as int, lo + 8));
        if range_eq_ignore_ascii_case(v, lo, lo + 8, &prefix) {
            assert(s.skip(8) == v@.subrange(lo + 8, hi as int));
            return match parse_in(input, v, lo + 8, hi, group_id) {
                Ok(inner) => Ok(
                    EventDescription {
                        title: inner.title,
                        data: EventDescriptionData::FuzzySunday(Box::new(inner.data)),
                        group_id: inner.group_id,
                    },
                ),
                Err(e) => Err(e),
            };
        }
    }
    parse_plain(input, v, lo, hi, group_id)
}

impl EventDescription {
    /// Reads one event line for the group `group_id`.
    pub fn parse(input: &str, group_id: GroupId) -> (r: Result<EventDescription, ParseError>)
        ensures
            event_view(r) == parse_event(input@),
            r matches Ok(e) ==> e.group_id == group_id,
    {
        let v = chars_of(input);
        assert(v@.subrange(0, v@.len() as int) == input@);
        parse_in(input, &v, 0, v.len(), group_id)
    }
}


/// A group of events as the document declares it: title, optional style,
/// and whether the user has chosen it for output.
#[derive(Debug, PartialEq, Eq)]
pub struct EventGroupDescription {
    pub id: GroupId,
    pub title: String,
    pub style: Option<String>,
    pub events: Vec<EventDescription>,
    pub is_selected: bool,
}

/// Why a document was not understood. Lines are counted from 1.
#[derive(Debug, Clone, Copy, PartialEq, Eq, Structural)]
pub enum DocumentError {
    /// A group header without its closing `]`.
    UnclosedGroupTitle { line: usize },
    /// An event line before the first group header.
    EventBeforeGroup { line: usize },
    /// An event line that could not be read.
    InvalidEvent { line: usize, error: ParseError },
}

/// A group by its title, its style and its events' titles and rules.
pub type GroupView = (Seq<char>, Option<Seq<char>>, Seq<(Seq<char>, EventDescriptionData)>);

/// The group that a header line opens (the line trimmed, starting with
/// `[`): `None` where the closing `]` is missing.
pub open spec fn header_view(t: Seq<char>) -> Option<GroupView> {
    let inner = t.skip(1);
    if inner.len() == 0 || inner.last() != ']' {
        None
    } else {
        let ts = inner.drop_last();
        let c = first_of(ts, ':', ':');
        if c < ts.len() {
            Some((trim(ts.take(c)), Some(ts.skip(c + 1)), seq![]))
        } else {
            Some((trim(ts), None, seq![]))
        }
    }
}

/// The groups after one more line of the document, numbered `line`.
#[verifier::opaque]
pub open spec fn document_step(groups: Seq<GroupView>, line: Seq<char>, line_no: int) -> Result<
    Seq<GroupView>,
    DocumentError,
> {
    let t = trim(line);
    if t.len() == 0 {
        Ok(groups)
    } else if t[0] == '[' {
        match header_view(t) {
            None => Err(DocumentError::UnclosedGroupTitle { line: line_no as usize }),
            Some(g) => Ok(groups.push(g)),
        }
    } else if groups.len() == 0 {
        Err(DocumentError::EventBeforeGroup { line: line_no as usize })
    } else {
        match parse_event(t) {
            Err(e) => Err(DocumentError::InvalidEvent { line: line_no as usize, error: e }),
            Ok(ev) => {
                let g = groups.last();
                Ok(groups.update(groups.len() - 1, (g.0, g.1, g.2.push(ev))))
            },
        }
    }
}

/// The groups after the lines of `s`, the first of them numbered `line_no`.
#[verifier::opaque]
pub open spec fn parse_document_from(s: Seq<char>, groups: Seq<GroupView>, line_no: int) -> Result<
    Seq<GroupView>,
    DocumentError,
>
    decreases s.len(),
{
    let i = first_of(s, '\n', '\n');
    match document_step(groups, s.take(i), line_no) {
        Err(e) => Err(e),
        Ok(next) => if 0 <= i < s.len() {
            parse_document_from(s.skip(i + 1), next, line_no + 1)
        } else {
            Ok(next)
        },
    }
}

/// The groups that a document declares, in order.
pub open spec fn parse_document(s: Seq<char>) -> Result<Seq<GroupView>, DocumentError> {
    parse_document_from(s, seq![], 1)
}

pub open spec fn style_view(style: Option<String>) -> Option<Seq<char>> {
    match style {
        Some(s) => Some(s@),
        None => None,
    }
}

pub open spec fn group_view(g: EventGroupDescription) -> GroupView {
    (
        g.title@,
        style_view(g.style),
        g.events@.map_values(|e: EventDescription| (e.title@, e.data)),
    )
}

pub open spec fn groups_view(gs: Seq<EventGroupDescription>) -> Seq<GroupView> {
    gs.map_values(|g: EventGroupDescription| group_view(g))
}

/// Group `i` of a parsed document: numbered `i`, not chosen, and holding
/// only its own events.
pub open spec fn group_numbered(g: EventGroupDescription, i: int) -> bool {
    &&& g.id == GroupId::Group(i as usize)
    &&& !g.is_selected
    &&& forall|j: int| 0 <= j < g.events@.len() ==> (#[trigger] g.events@[j]).group_id == g.id
}

pub open spec fn groups_numbered(gs: Seq<EventGroupDescription>) -> bool {
    forall|i: int| 0 <= i < gs.len() ==> group_numbered(#[trigger] gs[i], i)
}

/// The state of a document being read: the groups that are closed and the
/// one still open.
spec fn state_view(done: Seq<EventGroupDescription>, open: Option<EventGroupDescription>) -> Seq<
    GroupView,
> {
    match open {
        Some(g) => groups_view(done).push(group_view(g)),
        None => groups_view(done),
    }
}

proof fn lemma_document_unfold(s: Seq<char>, groups: Seq<GroupView>, line_no: int)
    ensures
        parse_document_from(s, groups, line_no) == match document_step(
            groups,
            s.take(first_of(s, '\n', '\n')),
            line_no,
        ) {
            Err(e) => Err(e),
            Ok(next) => if 0 <= first_of(s, '\n', '\n') < s.len() {
                parse_document_from(s.skip(first_of(s, '\n', '\n') + 1), next, line_no + 1)
            } else {
                Ok(next)
            },
        },
{
    reveal(parse_document_from);
}

/// Reads the header line `v[a..b]` (trimmed, starting with `[`) into an
/// empty group numbered `id`.
fn read_header(text: &str, v: &Vec<char>, a: usize, b: usize, id: usize) -> (r: Option<
    EventGroupDescription,
>)
    requires
        v@ == text@,
        a < b <= v.len(),
        v@[a as int] == '[',
    ensures
        match r {
            None => header_view(v@.subrange(a as int, b as int)) is None,
            Some(g) => header_view(v@.subrange(a as int, b as int)) == Some(group_view(g))
                && group_numbered(g, id as int),
        },
{
    let ghost t = v@.subrange(a as int, b as int);
    assert(t.skip(1) == v@.subrange(a + 1, b as int));
    if a + 1 == b || v[b - 1] != ']' {
        return None;
    }
    assert(t.skip(1).drop_last() == v@.subrange(a + 1, b - 1));
    let ghost ts = v@.subrange(a + 1, b - 1);
    let c = find_either(v, a + 1, b - 1, ':', ':');
    proof {
        lemma_first_of_bounds(ts, ':', ':');
    }
    let events: Vec<EventDescription> = Vec::new();
    assert(events@.map_values(|e: EventDescription| (e.title@, e.data)) == Seq::<
        (Seq<char>, EventDescriptionData),
    >::empty());
    if c < b - 1 {
        assert(ts.take(c - (a + 1)) == v@.subrange(a + 1, c as int));
        assert(ts.skip(c - (a + 1) + 1) == v@.subrange(c + 1, b - 1));
        let (ta, tb) = trim_range(v, a + 1, c);
        Some(
            EventGroupDescription {
                id: GroupId::Group(id),
                title: text.substring_char(ta, tb).to_owned(),
                style: Some(text.substring_char(c + 1, b - 1).to_owned()),
                events,
                is_selected: false,
            },
        )
    } else {
        let (ta, tb) = trim_range(v, a + 1, b - 1);
        Some(
            EventGroupDescription {
                id: GroupId::Group(id),
                title: text.substring_char(ta, tb).to_owned(),
                style: None,
                events,
                is_selected: false,
            },
        )
    }
}

proof fn lemma_groups_view_push(gs: Seq<EventGroupDescription>, g: EventGroupDescription)
    ensures
        groups_view(gs.push(g)) == groups_view(gs).push(group_view(g)),
{
    assert(groups_view(gs.push(g)) =~= groups_view(gs).push(group_view(g)));
}

/// Reads a document of event groups.
pub fn parse_calendar_text(text: &str) -> (r: Result<Vec<EventGroupDescription>, DocumentError>)
    ensures
        match r {
            Ok(gs) => parse_document(text@) == Ok::<Seq<GroupView>, DocumentError>(
                groups_view(gs@),
            ) && groups_numbered(gs@),
            Err(e) => parse_document(text@) == Err::<Seq<GroupView>, DocumentError>(e),
        },
{
    let v = chars_of(text);
    let len = v.len();
    let mut done: Vec<EventGroupDescription> = Vec::new();
    let mut open: Option<EventGroupDescription> = None;
    let mut pos: usize = 0;
    let mut lines_before: usize = 0;
    assert(v@.subrange(0, len as int) == text@);
    assert(groups_view(done@) == Seq::<GroupView>::empty());
    loop
        invariant
            v@ == text@,
            len == v.len(),
            pos <= len,
            lines_before <= pos,
            parse_document(text@) == parse_document_from(
                v@.subrange(pos as int, len as int),
                state_view(done@, open),
                lines_before + 1,
            ),
            groups_numbered(done@),
            open is None ==> done.len() == 0,
            open is Some ==> done.len() < lines_before,
            open matches Some(g) ==> group_numbered(g, done.len() as int),
        decreases len - pos,
    {
        let ghost rest = v@.subrange(pos as int, len as int);
        let ghost groups = state_view(done@, open);
        let ghost line_no = lines_before + 1;
        let e = find_either(&v, pos, len, '\n', '\n');
        proof {
            lemma_first_of_bounds(rest, '\n', '\n');
            lemma_document_unfold(rest, groups, line_no);
            reveal(document_step);
        }
        assert(rest.take(e - pos) == v@.subrange(pos as int, e as int));
        let (a, b) = trim_range(&v, pos, e);
        let ghost t = v@.subrange(a as int, b as int);
        if a < b {
            let line = lines_before + 1;
            if v[a] == '[' {
                let id = match open {
                    Some(_) => done.len() + 1,
                    None => 0,
                };
                let group = match read_header(text, &v, a, b, id) {
                    Some(g) => g,
                    None => {
                        return Err(DocumentError::UnclosedGroupTitle { line });
                    },
                };
                match open {
                    Some(g) => {
                        proof {
                            lemma_groups_view_push(done@, g);
                        }
                        done.push(g);
                    },
                    None => {},
                }
                open = Some(group);
                assert(state_view(done@, open) == groups.push(group_view(group)));
            } else {
                match open {
                    None => {
                        return Err(DocumentError::EventBeforeGroup { line });
                    },
                    Some(g) => {
                        let ghost before = g;
                        let ev = match EventDescription::parse(text.substring_char(a, b), g.id) {
                            Ok(ev) => ev,
                            Err(error) => {
                                return Err(DocumentError::InvalidEvent { line, error });
                            },
                        };
                        let mut g = g;
                        g.events.push(ev);
                        assert(group_view(g).2 =~= group_view(before).2.push((ev.title@, ev.data)));
                        open = Some(g);
                        assert(groups.last() == group_view(before));
                        assert(state_view(done@, open) =~= groups.update(
                            groups.len() - 1,
                            (groups.last().0, groups.last().1, groups.last().2.push((ev.title@, ev.data))),
                        ));
                    },
                }
            }
        }
        assert(document_step(groups, rest.take(e - pos), line_no) == Ok::<
            Seq<GroupView>,
            DocumentError,
        >(state_view(done@, open)));
        if e == len {
            match open {
                Some(g) => {
                    proof {
                        lemma_groups_view_push(done@, g);
                    }
                    done.push(g);
                },
                None => {},
            }
            return Ok(done);
        }
        assert(rest.skip(e - pos + 1) == v@.subrange(e + 1, len as int));
        pos = e + 1;
        lines_before = lines_before + 1;
    }
}


/// Line `k` of `s`, counting from 0.
pub open spec fn line_at(s: Seq<char>, k: nat) -> Seq<char>
    decreases k,
{
    let i = first_of(s, '\n', '\n');
    if k == 0 {
        s.take(i)
    } else if 0 <= i < s.len() {
        line_at(s.skip(i + 1), (k - 1) as nat)
    } else {
        seq![]
    }
}

/// `s` has a line `k`.
pub open spec fn has_line(s: Seq<char>, k: nat) -> bool
    decreases k,
{
    let i = first_of(s, '\n', '\n');
    k == 0 || (0 <= i < s.len() && has_line(s.skip(i + 1), (k - 1) as nat))
}

proof fn lemma_event_before_group_from(s: Seq<char>, k: nat, line_no: int)
    requires
        has_line(s, k),
        forall|j: nat| j < k ==> trim(#[trigger] line_at(s, j)).len() == 0,
        trim(line_at(s, k)).len() > 0,
        trim(line_at(s, k))[0] != '[',
    ensures
        parse_document_from(s, seq![], line_no) == Err::<Seq<GroupView>, DocumentError>(
            DocumentError::EventBeforeGroup { line: (line_no + k) as usize },
        ),
    decreases k,
{
    lemma_document_unfold(s, seq![], line_no);
    reveal(document_step);
    lemma_first_of_bounds(s, '\n', '\n');
    if k > 0 {
        let i = first_of(s, '\n', '\n');
        let rest = s.skip(i + 1);
        assert(trim(line_at(s, 0)).len() == 0);
        assert forall|j: nat| j < (k - 1) as nat implies trim(#[trigger] line_at(rest, j)).len()
            == 0 by {
            assert(line_at(s, j + 1) == line_at(rest, j));
        }
        assert(line_at(s, k) == line_at(rest, (k - 1) as nat));
        lemma_event_before_group_from(rest, (k - 1) as nat, line_no + 1);
    }
}

/// A document whose first line that is not blank is an event line, not a
/// group header, is refused for want of a group, at that line.
pub proof fn law_event_before_group_fails(s: Seq<char>, k: nat)
    requires
        has_line(s, k),
        forall|j: nat| j < k ==> trim(#[trigger] line_at(s, j)).len() == 0,
        trim(line_at(s, k)).len() > 0,
        trim(line_at(s, k))[0] != '[',
    ensures
        parse_document(s) == Err::<Seq<GroupView>, DocumentError>(
            DocumentError::EventBeforeGroup { line: (k + 1) as usize },
        ),
{
    lemma_event_before_group_from(s, k, 1);
}

} // verus!
