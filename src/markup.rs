//! Streaming structural parser for the legacy hierarchical markup source.
//!
//! The parser consumes markup events in document order and keeps the path
//! of currently open tags, so that equally named tags at different depths
//! are told apart. Text is read at these paths:
//! - `family/name`: the family name;
//! - `family/devices/device/part_number`: comma-separated, the first field
//!   is the part-number root and the last the canonical device id;
//! - `family/devices/device/variants`: the comma-separated variant suffixes.
//!
//! Leaving `family/devices/device` emits the device read so far.
//!
//! Events come from the text by a small tokenizer: `<name ...>` opens a tag,
//! `</name>` closes one, `<name/>` does both, `<?...>` and `<!...>` are other
//! events, and the text between tags, without surrounding whitespace, is a
//! text event where anything remains. Attributes and entities are not read.

use vstd::prelude::*;
use crate::naming::Device;
use crate::text::{char_vec, copy_strings, split_fields, split_on, str_eq, substring};

verus! {

/// One event of the markup stream.
#[derive(Debug)]
pub enum MarkupEvent {
    Open(String),
    Close(String),
    Text(String),
    /// Any other event (declarations, comments, ...), which is ignored.
    Other,
}

/// The mathematical value of a [`MarkupEvent`].
pub enum EventView {
    Open(Seq<char>),
    Close(Seq<char>),
    Text(Seq<char>),
    Other,
}

impl MarkupEvent {
    pub open spec fn view(&self) -> EventView {
        match self {
            MarkupEvent::Open(n) => EventView::Open(n@),
            MarkupEvent::Close(n) => EventView::Close(n@),
            MarkupEvent::Text(t) => EventView::Text(t@),
            MarkupEvent::Other => EventView::Other,
        }
    }
}

/// The markup does not balance: event `position` closes a tag other than
/// the innermost open one, or (at the number of events) tags are left open.
#[derive(Debug, Clone, Copy, PartialEq, Eq, Structural)]
pub struct MalformedMarkup {
    pub position: usize,
}

/// What a legacy source file describes.
#[derive(Debug)]
pub struct SourceDocument {
    pub family_name: String,
    pub devices: Vec<Device>,
}

/// The value of a device: part-number root, device id, variant suffixes.
pub type DeviceView = (Seq<char>, Seq<char>, Seq<Seq<char>>);

pub open spec fn device_view(d: Device) -> DeviceView {
    (d.part_number_root@, d.device_id@, d.variant_suffixes.deep_view())
}

/// The parser's state between events.
pub struct ParseState {
    pub stack: Seq<Seq<char>>,
    pub family: Seq<char>,
    pub root: Seq<char>,
    pub id: Seq<char>,
    pub suffixes: Seq<Seq<char>>,
    pub devices: Seq<DeviceView>,
}

pub open spec fn family_path() -> Seq<Seq<char>> {
    seq!["family"@, "name"@]
}

pub open spec fn device_path() -> Seq<Seq<char>> {
    seq!["family"@, "devices"@, "device"@]
}

pub open spec fn part_number_path() -> Seq<Seq<char>> {
    seq!["family"@, "devices"@, "device"@, "part_number"@]
}

pub open spec fn variants_path() -> Seq<Seq<char>> {
    seq!["family"@, "devices"@, "device"@, "variants"@]
}

pub open spec fn initial_state() -> ParseState {
    ParseState {
        stack: Seq::empty(),
        family: Seq::empty(),
        root: Seq::empty(),
        id: Seq::empty(),
        suffixes: Seq::empty(),
        devices: Seq::empty(),
    }
}

/// The state after closing the innermost tag, emitting the device first
/// where that tag ends a device record.
pub open spec fn close_state(st: ParseState) -> ParseState {
    if st.stack == device_path() {
        ParseState {
            stack: st.stack.drop_last(),
            family: st.family,
            root: Seq::empty(),
            id: Seq::empty(),
            suffixes: Seq::empty(),
            devices: st.devices.push((st.root, st.id, st.suffixes)),
        }
    } else {
        ParseState {
            stack: st.stack.drop_last(),
            family: st.family,
            root: st.root,
            id: st.id,
            suffixes: st.suffixes,
            devices: st.devices,
        }
    }
}

/// The state after text `t`.
pub open spec fn text_state(st: ParseState, t: Seq<char>) -> ParseState {
    let f = split_fields(t, ',');
    if st.stack == family_path() {
        ParseState { family: t, ..st }
    } else if st.stack == part_number_path() {
        ParseState { root: f[0], id: f.last(), ..st }
    } else if st.stack == variants_path() {
        ParseState { suffixes: f, ..st }
    } else {
        st
    }
}

/// The state after one event, or `None` where it closes the wrong tag.
pub open spec fn step(st: ParseState, e: EventView) -> Option<ParseState> {
    match e {
        EventView::Open(n) => Some(ParseState { stack: st.stack.push(n), ..st }),
        EventView::Close(n) => if st.stack.len() > 0 && st.stack.last() == n {
            Some(close_state(st))
        } else {
            None
        },
        EventView::Text(t) => Some(text_state(st, t)),
        EventView::Other => Some(st),
    }
}

/// The state after the events `es`, or the position of the first event
/// that closes the wrong tag.
pub open spec fn run(es: Seq<EventView>) -> Result<ParseState, int>
    decreases es.len(),
{
    if es.len() == 0 {
        Ok(initial_state())
    } else {
        match run(es.drop_last()) {
            Ok(st) => match step(st, es.last()) {
                Some(next) => Ok(next),
                None => Err(es.len() - 1),
            },
            Err(p) => Err(p),
        }
    }
}

/// The family name and devices the events describe, or the position at
/// which the markup fails to balance.
pub open spec fn parsed(es: Seq<EventView>) -> Result<(Seq<char>, Seq<DeviceView>), int> {
    match run(es) {
        Ok(st) => if st.stack.len() == 0 {
            Ok((st.family, st.devices))
        } else {
            Err(es.len() as int)
        },
        Err(p) => Err(p),
    }
}

pub open spec fn events_view(es: Seq<MarkupEvent>) -> Seq<EventView> {
    es.map_values(|e: MarkupEvent| e.view())
}

/// Once a prefix of the events fails, all of them fail at the same place.
proof fn lemma_run_err(es: Seq<EventView>, j: int)
    requires
        0 <= j <= es.len(),
        run(es.subrange(0, j)) is Err,
    ensures
        run(es) == run(es.subrange(0, j)),
    decreases es.len(),
{
    if j == es.len() {
        assert(es.subrange(0, j) =~= es);
    } else {
        assert(es.drop_last().subrange(0, j) =~= es.subrange(0, j));
        lemma_run_err(es.drop_last(), j);
    }
}

fn extend_path(p: Vec<String>, n: &str) -> (r: Vec<String>)
    ensures
        r.deep_view() == p.deep_view().push(n@),
{
    let ghost before = p.deep_view();
    let mut p = p;
    p.push(String::from_str(n));
    assert(p.deep_view() =~= before.push(n@));
    p
}

fn same_path(a: &Vec<String>, b: &Vec<String>) -> (r: bool)
    ensures
        r == (a.deep_view() == b.deep_view()),
{
    if a.len() != b.len() {
        assert(a.deep_view().len() != b.deep_view().len());
        return false;
    }
    let mut i: usize = 0;
    while i < a.len()
        invariant
            a@.len() == b@.len(),
            i <= a@.len(),
            forall|j: int| 0 <= j < i ==> a.deep_view()[j] == b.deep_view()[j],
        decreases a.len() - i,
    {
        if !str_eq(a[i].as_str(), b[i].as_str()) {
            assert(a.deep_view()[i as int] != b.deep_view()[i as int]);
            return false;
        }
        i += 1;
    }
    assert(a.deep_view() =~= b.deep_view());
    true
}

/// Parses markup events into the family name and the devices they describe.
pub fn parse_events(events: &Vec<MarkupEvent>) -> (r: Result<SourceDocument, MalformedMarkup>)
    ensures
        match r {
            Ok(doc) => parsed(events_view(events@)) == Ok::<_, int>(
                (doc.family_name@, doc.devices@.map_values(|d: Device| device_view(d))),
            ),
            Err(e) => parsed(events_view(events@)) == Err::<(Seq<char>, Seq<DeviceView>), int>(
                e.position as int,
            ),
        },
{
    let ghost es = events_view(events@);
    let family_at = extend_path(extend_path(Vec::new(), "family"), "name");
    let device_at = extend_path(extend_path(extend_path(Vec::new(), "family"), "devices"), "device");
    let part_at = extend_path(
        extend_path(extend_path(extend_path(Vec::new(), "family"), "devices"), "device"),
        "part_number",
    );
    let variants_at = extend_path(
        extend_path(extend_path(extend_path(Vec::new(), "family"), "devices"), "device"),
        "variants",
    );
    let mut stack: Vec<String> = Vec::new();
    let mut family = String::new();
    let mut root = String::new();
    let mut id = String::new();
    let mut suffixes: Vec<String> = Vec::new();
    let mut devices: Vec<Device> = Vec::new();
    let mut i: usize = 0;
    assert(es.subrange(0, 0) =~= Seq::<EventView>::empty());
    assert(devices@.map_values(|d: Device| device_view(d)) =~= Seq::<DeviceView>::empty());
    assert(stack.deep_view() =~= Seq::<Seq<char>>::empty());
    assert(suffixes.deep_view() =~= Seq::<Seq<char>>::empty());
    while i < events.len()
        invariant
            i <= events@.len(),
            es == events_view(events@),
            family_at.deep_view() == family_path(),
            device_at.deep_view() == device_path(),
            part_at.deep_view() == part_number_path(),
            variants_at.deep_view() == variants_path(),
            run(es.subrange(0, i as int)) == Ok::<ParseState, int>(
                ParseState {
                    stack: stack.deep_view(),
                    family: family@,
                    root: root@,
                    id: id@,
                    suffixes: suffixes.deep_view(),
                    devices: devices@.map_values(|d: Device| device_view(d)),
                },
            ),
        decreases events.len() - i,
    {
        assert(es.subrange(0, i + 1).drop_last() =~= es.subrange(0, i as int));
        assert(es.subrange(0, i + 1).last() == events@[i as int].view());
        let ghost st = run(es.subrange(0, i as int))->Ok_0;
        match &events[i] {
            MarkupEvent::Open(n) => {
                let ghost before = stack.deep_view();
                stack.push(n.clone());
                assert(stack.deep_view() =~= before.push(n@));
            },
            MarkupEvent::Close(n) => {
                let len = stack.len();
                if len == 0 || !str_eq(stack[len - 1].as_str(), n.as_str()) {
                    proof {
                        if len > 0 {
                            assert(stack.deep_view().last() != n@);
                        }
                        assert(run(es.subrange(0, i + 1)) == Err::<ParseState, int>(i as int));
                        lemma_run_err(es, i + 1);
                    }
                    return Err(MalformedMarkup { position: i });
                }
                assert(stack.deep_view().last() == n@);
                if same_path(&stack, &device_at) {
                    let ghost before = devices@.map_values(|d: Device| device_view(d));
                    devices.push(
                        Device {
                            part_number_root: root.clone(),
                            device_id: id.clone(),
                            variant_suffixes: copy_strings(&suffixes),
                        },
                    );
                    assert(devices@.map_values(|d: Device| device_view(d)) =~= before.push(
                        (root@, id@, suffixes.deep_view()),
                    ));
                    root = String::new();
                    id = String::new();
                    suffixes = Vec::new();
                    assert(suffixes.deep_view() =~= Seq::<Seq<char>>::empty());
                }
                let ghost before = stack.deep_view();
                stack.pop();
                assert(stack.deep_view() =~= before.drop_last());
            },
            MarkupEvent::Text(t) => {
                if same_path(&stack, &family_at) {
                    family = t.clone();
                } else if same_path(&stack, &part_at) {
                    let fields = split_on(t.as_str(), ',');
                    root = fields[0].clone();
                    id = fields[fields.len() - 1].clone();
                } else if same_path(&stack, &variants_at) {
                    suffixes = split_on(t.as_str(), ',');
                }
            },
            MarkupEvent::Other => {},
        }
        i += 1;
    }
    assert(es.subrange(0, events@.len() as int) =~= es);
    if stack.len() > 0 {
        return Err(MalformedMarkup { position: events.len() });
    }
    Ok(SourceDocument { family_name: family, devices })
}

/// Whitespace between and inside tags.
pub open spec fn is_space(c: char) -> bool {
    c == ' ' || c == '\t' || c == '\n' || c == '\r'
}

pub open spec fn trim_ws_start(s: Seq<char>) -> Seq<char>
    decreases s.len(),
{
    if s.len() > 0 && is_space(s[0]) {
        trim_ws_start(s.drop_first())
    } else {
        s
    }
}

pub open spec fn trim_ws_end(s: Seq<char>) -> Seq<char>
    decreases s.len(),
{
    if s.len() > 0 && is_space(s.last()) {
        trim_ws_end(s.drop_last())
    } else {
        s
    }
}

/// `s` without surrounding whitespace.
pub open spec fn trim_ws(s: Seq<char>) -> Seq<char> {
    trim_ws_end(trim_ws_start(s))
}

/// Position of the first whitespace of `s` from `i` on, or its length.
pub open spec fn first_space(s: Seq<char>, i: int) -> int
    decreases s.len() - i,
{
    if i < 0 || i >= s.len() {
        s.len() as int
    } else if is_space(s[i]) {
        i
    } else {
        first_space(s, i + 1)
    }
}

/// The tag name at the start of a tag's contents.
pub open spec fn tag_name(c: Seq<char>) -> Seq<char> {
    c.subrange(0, first_space(c, 0))
}

/// The events of a tag whose contents (between `<` and `>`) are `c`.
pub open spec fn tag_events(c: Seq<char>) -> Seq<EventView> {
    if c.len() > 0 && c[0] == '/' {
        seq![EventView::Close(tag_name(c.drop_first()))]
    } else if c.len() > 0 && (c[0] == '?' || c[0] == '!') {
        seq![EventView::Other]
    } else if c.len() > 0 && c.last() == '/' {
        seq![EventView::Open(tag_name(c.drop_last())), EventView::Close(tag_name(c.drop_last()))]
    } else {
        seq![EventView::Open(tag_name(c))]
    }
}

/// The events of the text `t` between two tags.
pub open spec fn text_events(t: Seq<char>) -> Seq<EventView> {
    if trim_ws(t).len() > 0 {
        seq![EventView::Text(trim_ws(t))]
    } else {
        Seq::empty()
    }
}

/// The tokenizer's state: inside a tag or not, where the current tag or
/// text began, and the events so far.
pub struct ScanState {
    pub in_tag: bool,
    pub start: int,
    pub events: Seq<EventView>,
}

/// The state after the first `k` characters of `s`.
pub open spec fn scan(s: Seq<char>, k: int) -> ScanState
    decreases k,
{
    if k <= 0 {
        ScanState { in_tag: false, start: 0, events: Seq::empty() }
    } else {
        let st = scan(s, k - 1);
        let c = s[k - 1];
        if !st.in_tag && c == '<' {
            ScanState { in_tag: true, start: k, events: st.events + text_events(s.subrange(st.start, k - 1)) }
        } else if st.in_tag && c == '>' {
            ScanState { in_tag: false, start: k, events: st.events + tag_events(s.subrange(st.start, k - 1)) }
        } else {
            st
        }
    }
}

/// The events of a whole text, or the offset of a `<` never closed.
pub open spec fn tokens(s: Seq<char>) -> Result<Seq<EventView>, int> {
    let st = scan(s, s.len() as int);
    if st.in_tag {
        Err(st.start - 1)
    } else {
        Ok(st.events + text_events(s.subrange(st.start, s.len() as int)))
    }
}

/// Why a markup text could not be read.
#[derive(Debug, Clone, Copy, PartialEq, Eq, Structural)]
pub enum MarkupError {
    /// A `<` at this character offset has no closing `>`.
    UnterminatedTag { offset: usize },
    /// The tags do not balance.
    Malformed(MalformedMarkup),
}

fn trim_range(cs: &Vec<char>, from: usize, to: usize) -> (r: (usize, usize))
    requires
        from <= to <= cs@.len(),
    ensures
        from <= r.0 <= r.1 <= to,
        cs@.subrange(r.0 as int, r.1 as int) == trim_ws(cs@.subrange(from as int, to as int)),
{
    let mut a = from;
    while a < to && (cs[a] == ' ' || cs[a] == '\t' || cs[a] == '\n' || cs[a] == '\r')
        invariant
            from <= a <= to <= cs@.len(),
            trim_ws_start(cs@.subrange(from as int, to as int)) == trim_ws_start(cs@.subrange(a as int, to as int)),
        decreases to - a,
    {
        assert(cs@.subrange(a as int, to as int).drop_first() =~= cs@.subrange(a + 1, to as int));
        a += 1;
    }
    let mut b = to;
    while b > a && (cs[b - 1] == ' ' || cs[b - 1] == '\t' || cs[b - 1] == '\n' || cs[b - 1] == '\r')
        invariant
            from <= a <= b <= to <= cs@.len(),
            trim_ws_end(cs@.subrange(a as int, to as int)) == trim_ws_end(cs@.subrange(a as int, b as int)),
        decreases b,
    {
        assert(cs@.subrange(a as int, b as int).drop_last() =~= cs@.subrange(a as int, b - 1));
        b -= 1;
    }
    (a, b)
}

fn name_end(cs: &Vec<char>, from: usize, to: usize) -> (k: usize)
    requires
        from <= to <= cs@.len(),
    ensures
        from <= k <= to,
        cs@.subrange(from as int, k as int) == tag_name(cs@.subrange(from as int, to as int)),
{
    let ghost c = cs@.subrange(from as int, to as int);
    let mut k = from;
    while k < to && !(cs[k] == ' ' || cs[k] == '\t' || cs[k] == '\n' || cs[k] == '\r')
        invariant
            from <= k <= to <= cs@.len(),
            c == cs@.subrange(from as int, to as int),
            first_space(c, 0) == first_space(c, k - from),
        decreases to - k,
    {
        assert(c[k - from] == cs@[k as int]);
        k += 1;
    }
    if k < to {
        assert(c[k - from] == cs@[k as int]);
    }
    assert(c.subrange(0, k - from) =~= cs@.subrange(from as int, k as int));
    k
}

fn push_text(text: &str, cs: &Vec<char>, from: usize, to: usize, out: &mut Vec<MarkupEvent>)
    requires
        cs@ == text@,
        from <= to <= cs@.len(),
    ensures
        events_view(final(out)@) == events_view(old(out)@) + text_events(cs@.subrange(from as int, to as int)),
{
    let ghost before = events_view(out@);
    let (a, b) = trim_range(cs, from, to);
    if a < b {
        out.push(MarkupEvent::Text(substring(text, a, b)));
        assert(events_view(out@) =~= before + text_events(cs@.subrange(from as int, to as int)));
    } else {
        assert(events_view(out@) =~= before + text_events(cs@.subrange(from as int, to as int)));
    }
}

fn push_tag(text: &str, cs: &Vec<char>, from: usize, to: usize, out: &mut Vec<MarkupEvent>)
    requires
        cs@ == text@,
        from <= to <= cs@.len(),
    ensures
        events_view(final(out)@) == events_view(old(out)@) + tag_events(cs@.subrange(from as int, to as int)),
{
    let ghost before = events_view(out@);
    let ghost c = cs@.subrange(from as int, to as int);
    if from < to && cs[from] == '/' {
        assert(c.drop_first() =~= cs@.subrange(from + 1, to as int));
        let k = name_end(cs, from + 1, to);
        out.push(MarkupEvent::Close(substring(text, from + 1, k)));
    } else if from < to && (cs[from] == '?' || cs[from] == '!') {
        out.push(MarkupEvent::Other);
    } else if from < to && cs[to - 1] == '/' {
        assert(c.drop_last() =~= cs@.subrange(from as int, to - 1));
        let k = name_end(cs, from, to - 1);
        out.push(MarkupEvent::Open(substring(text, from, k)));
        out.push(MarkupEvent::Close(substring(text, from, k)));
    } else {
        let k = name_end(cs, from, to);
        out.push(MarkupEvent::Open(substring(text, from, k)));
    }
    assert(events_view(out@) =~= before + tag_events(c));
}

/// Splits a markup text into its events.
pub fn tokenize(text: &str) -> (r: Result<Vec<MarkupEvent>, usize>)
    ensures
        match r {
            Ok(es) => tokens(text@) == Ok::<Seq<EventView>, int>(events_view(es@)),
            Err(offset) => tokens(text@) == Err::<Seq<EventView>, int>(offset as int),
        },
{
    let cs = char_vec(text);
    let n = cs.len();
    let mut in_tag = false;
    let mut start: usize = 0;
    let mut events: Vec<MarkupEvent> = Vec::new();
    let mut k: usize = 0;
    assert(events_view(events@) =~= Seq::<EventView>::empty());
    while k < n
        invariant
            n == cs@.len(),
            cs@ == text@,
            k <= n,
            start <= k,
            in_tag ==> start >= 1,
            scan(cs@, k as int) == (ScanState { in_tag, start: start as int, events: events_view(events@) }),
        decreases n - k,
    {
        let c = cs[k];
        if !in_tag && c == '<' {
            push_text(text, &cs, start, k, &mut events);
            in_tag = true;
            start = k + 1;
        } else if in_tag && c == '>' {
            push_tag(text, &cs, start, k, &mut events);
            in_tag = false;
            start = k + 1;
        }
        k += 1;
    }
    if in_tag {
        return Err(start - 1);
    }
    push_text(text, &cs, start, n, &mut events);
    Ok(events)
}

/// Reads a markup text into the family name and the devices it describes.
pub fn parse_markup(text: &str) -> (r: Result<SourceDocument, MarkupError>)
    ensures
        match r {
            Ok(doc) => tokens(text@) is Ok && parsed(tokens(text@)->Ok_0) == Ok::<_, int>(
                (doc.family_name@, doc.devices@.map_values(|d: Device| device_view(d))),
            ),
            Err(MarkupError::UnterminatedTag { offset }) => tokens(text@) == Err::<
                Seq<EventView>,
                int,
            >(offset as int),
            Err(MarkupError::Malformed(m)) => tokens(text@) is Ok && parsed(tokens(text@)->Ok_0)
                == Err::<(Seq<char>, Seq<DeviceView>), int>(m.position as int),
        },
{
    match tokenize(text) {
        Ok(es) => match parse_events(&es) {
            Ok(doc) => Ok(doc),
            Err(m) => Err(MarkupError::Malformed(m)),
        },
        Err(offset) => Err(MarkupError::UnterminatedTag { offset }),
    }
}

} // verus!
